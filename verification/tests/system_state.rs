use elevator::config::NUM_FLOORS;
use elevator::types::direction::Direction;
use elevator::types::elevator::{Behaviour, ElevatorState};
use elevator::types::orders::OrderType;
use elevator::types::systemstate::{ButtonLight, SystemState, HALLDOWN, HALLUP};

fn no_requests() -> [[bool; 2]; NUM_FLOORS] {
    [[false; 2]; NUM_FLOORS]
}

fn zero_epochs() -> [[u64; 2]; NUM_FLOORS] {
    [[0; 2]; NUM_FLOORS]
}

fn sorted_ids(s: &SystemState) -> Vec<String> {
    let mut ids = s.get_elevator_ids();
    ids.sort();
    ids
}

/// A state as another node `id` would send it, with its own elevator record `own`.
fn peer_state(
    id: &str,
    own: ElevatorState,
    hall: [[bool; 2]; NUM_FLOORS],
    epoch: [[u64; 2]; NUM_FLOORS],
) -> SystemState {
    SystemState::from_records(id.to_string(), vec![(id.to_string(), own)], hall, epoch, 77)
}

/// Whether a boot identifier was read from the clock (after 2020) for the process `pid`.
fn from_clock(boot_id: u64, pid: u32) -> bool {
    (boot_id ^ pid as u64) > 1_577_836_800 * 1_000_000_000
}

#[test]
fn new_state_holds_only_own_record() {
    let mut s = SystemState::new("elev1", 99);
    assert_eq!(s.get_my_id(), "elev1");
    assert_eq!(s.get_elevator_ids(), vec!["elev1".to_string()]);
    let own = *s.get_elevator_state("elev1").unwrap();
    assert_eq!(own, ElevatorState::new(own.boot_id));
    assert!(from_clock(own.boot_id, 99));
    assert!(s.get_elevator_state("elev2").is_none());
    assert_eq!(s.hall_requests(), no_requests());
    assert_eq!(s.hall_epoch(), zero_epochs());
    assert!(s.get_dead_elevators().is_empty());
    assert_eq!(s.get_my_state().boot_id, own.boot_id);
}

#[test]
fn arrive_at_floor_updates_own_record() {
    let mut s = SystemState::new("elev1", 1);
    s.arrive_at_floor(2);
    assert_eq!(s.get_my_state().get_floor(), Some(2));
}

#[test]
fn add_hall_order_raises_request_and_epoch() {
    let mut s = SystemState::new("elev1", 1);
    s.add_order(1, OrderType::HallUp);
    assert!(s.hall_requests()[1][HALLUP]);
    assert_eq!(s.hall_epoch()[1][HALLUP], 1);
    assert!(!s.hall_requests()[1][HALLDOWN]);
    s.add_order(1, OrderType::HallUp);
    assert_eq!(s.hall_epoch()[1][HALLUP], 1);
    s.add_order(2, OrderType::HallDown);
    assert!(s.hall_requests()[2][HALLDOWN]);
    assert_eq!(s.hall_epoch()[2][HALLDOWN], 1);
}

#[test]
fn add_cab_order_goes_to_own_record() {
    let mut s = SystemState::new("elev1", 1);
    s.add_order(3, OrderType::Cab);
    assert!(s.get_my_state().get_cab_request(3));
    assert_eq!(s.hall_requests(), no_requests());
}

#[test]
fn add_order_outside_building_is_ignored() {
    let mut s = SystemState::new("elev1", 1);
    let boot_id = s.get_my_state().boot_id;
    s.add_order(NUM_FLOORS as u8, OrderType::HallUp);
    s.add_order(200, OrderType::Cab);
    assert_eq!(s.hall_requests(), no_requests());
    assert_eq!(*s.get_my_state(), ElevatorState::new(boot_id));
}

#[test]
fn add_order_during_emergency_stop_is_ignored() {
    let mut s = SystemState::new("elev1", 1);
    s.get_my_state().set_emergency_stop(true);
    s.add_order(1, OrderType::HallDown);
    s.add_order(1, OrderType::Cab);
    assert_eq!(s.hall_requests(), no_requests());
    assert!(!s.get_my_state().get_cab_request(1));
}

#[test]
fn clear_order_moving_up_clears_up_only() {
    let mut s = SystemState::new("elev1", 1);
    s.add_order(1, OrderType::HallUp);
    s.add_order(1, OrderType::HallDown);
    s.add_order(1, OrderType::Cab);
    s.get_my_state().set_direction(Direction::Up);
    s.clear_order(1);
    assert!(!s.hall_requests()[1][HALLUP]);
    assert_eq!(s.hall_epoch()[1][HALLUP], 3);
    assert!(s.hall_requests()[1][HALLDOWN]);
    assert_eq!(s.hall_epoch()[1][HALLDOWN], 1);
    assert!(!s.get_my_state().get_cab_request(1));
}

#[test]
fn clear_order_without_direction_prefers_up() {
    let mut s = SystemState::new("elev1", 1);
    s.add_order(2, OrderType::HallUp);
    s.add_order(2, OrderType::HallDown);
    s.clear_order(2);
    assert!(!s.hall_requests()[2][HALLUP]);
    assert!(s.hall_requests()[2][HALLDOWN]);
    s.clear_order(2);
    assert!(!s.hall_requests()[2][HALLDOWN]);
    assert_eq!(s.hall_epoch()[2][HALLDOWN], 3);
}

#[test]
fn clear_order_moving_down_leaves_up() {
    let mut s = SystemState::new("elev1", 1);
    s.add_order(2, OrderType::HallUp);
    s.get_my_state().set_direction(Direction::Down);
    s.clear_order(2);
    assert!(s.hall_requests()[2][HALLUP]);
    assert_eq!(s.hall_epoch()[2][HALLUP], 1);
}

#[test]
fn peer_lost_and_new_track_dead_peers() {
    let mut s = SystemState::new("elev1", 1);
    s.peer_lost("elev1");
    assert!(s.get_dead_elevators().is_empty());
    s.peer_lost("elev2");
    s.peer_lost("elev2");
    assert_eq!(s.get_dead_elevators(), &vec!["elev2".to_string()]);
    s.peer_new("elev3");
    assert_eq!(s.get_dead_elevators().len(), 1);
    s.peer_new("elev2");
    assert!(s.get_dead_elevators().is_empty());
}

#[test]
fn removed_own_record_is_created_anew() {
    let mut s = SystemState::new("elev1", 8);
    s.add_order(1, OrderType::Cab);
    s.remove_elevator_record("elev1");
    assert!(s.get_elevator_ids().is_empty());
    assert!(s.get_elevator_state("elev1").is_none());
    let recreated = *s.get_my_state();
    assert_eq!(recreated, ElevatorState::new(recreated.boot_id));
    assert!(from_clock(recreated.boot_id, 8));
    assert_eq!(s.get_elevator_ids(), vec!["elev1".to_string()]);
}

#[test]
fn merge_adds_unknown_peer() {
    let mut s = SystemState::new("elev1", 1);
    let mut theirs = ElevatorState::new(2);
    theirs.set_floor(2);
    let other = peer_state("elev2", theirs, no_requests(), zero_epochs());
    assert!(s.merge_with(&other));
    assert_eq!(sorted_ids(&s), vec!["elev1".to_string(), "elev2".to_string()]);
    assert_eq!(*s.get_elevator_state("elev2").unwrap(), theirs);
    assert!(!s.merge_with(&other));
}

#[test]
fn merge_keeps_newer_copy() {
    let mut s = SystemState::new("elev1", 1);
    let mut newer = ElevatorState::new(2);
    newer.set_floor(1);
    newer.add_cab_request(3);
    let older = ElevatorState::new(2);
    s.merge_with(&peer_state("elev2", newer, no_requests(), zero_epochs()));
    assert!(!s.merge_with(&peer_state("elev2", older, no_requests(), zero_epochs())));
    assert_eq!(*s.get_elevator_state("elev2").unwrap(), newer);
    let mut newest = newer;
    newest.set_direction(Direction::Up);
    assert!(s.merge_with(&peer_state("elev2", newest, no_requests(), zero_epochs())));
    assert_eq!(*s.get_elevator_state("elev2").unwrap(), newest);
}

#[test]
fn merge_ignores_dead_peer() {
    let mut s = SystemState::new("elev1", 1);
    s.peer_lost("elev2");
    let other = peer_state("elev2", ElevatorState::new(2), no_requests(), zero_epochs());
    assert!(!s.merge_with(&other));
    assert!(s.get_elevator_state("elev2").is_none());
}

#[test]
fn merge_recovers_own_cab_requests_before_sync_only() {
    let mut backup_of_me = ElevatorState::new(0);
    backup_of_me.add_cab_request(2);
    let other = SystemState::from_records(
        "elev2".to_string(),
        vec![("elev1".to_string(), backup_of_me), ("elev2".to_string(), ElevatorState::new(5))],
        no_requests(),
        zero_epochs(),
        77,
    );

    let mut s = SystemState::new("elev1", 1);
    let boot_id = s.get_my_state().boot_id;
    assert!(s.merge_with(&other));
    assert!(s.get_my_state().get_cab_request(2));
    assert_eq!(s.get_my_state().boot_id, boot_id);

    let mut synced = SystemState::new("elev1", 1);
    synced.mark_sync_complete();
    synced.merge_with(&other);
    assert!(!synced.get_my_state().get_cab_request(2));
}

#[test]
fn merge_takes_higher_epoch() {
    let mut s = SystemState::new("elev1", 1);
    s.add_order(1, OrderType::HallUp);
    let mut hall = no_requests();
    let mut epoch = zero_epochs();
    hall[1][HALLUP] = false;
    epoch[1][HALLUP] = 3;
    hall[2][HALLDOWN] = true;
    epoch[2][HALLDOWN] = 1;
    let other = peer_state("elev2", ElevatorState::new(2), hall, epoch);
    assert!(s.merge_with(&other));
    assert!(!s.hall_requests()[1][HALLUP]);
    assert_eq!(s.hall_epoch()[1][HALLUP], 3);
    assert!(s.hall_requests()[2][HALLDOWN]);
    assert_eq!(s.hall_epoch()[2][HALLDOWN], 1);
}

#[test]
fn merge_keeps_own_higher_epoch() {
    let mut s = SystemState::new("elev1", 1);
    s.add_order(0, OrderType::HallUp);
    s.add_order(0, OrderType::HallUp);
    s.clear_order(0);
    assert_eq!(s.hall_epoch()[0][HALLUP], 3);
    let mut hall = no_requests();
    let mut epoch = zero_epochs();
    hall[0][HALLUP] = true;
    epoch[0][HALLUP] = 2;
    let other = peer_state("elev2", ElevatorState::new(2), hall, epoch);
    s.merge_with(&other);
    assert!(!s.hall_requests()[0][HALLUP]);
    assert_eq!(s.hall_epoch()[0][HALLUP], 3);
}

/// A node whose car stands at `floor` with the door open and no direction.
fn serving_at(id: &str, process_id: u32, floor: u8) -> SystemState {
    let mut s = SystemState::new(id, process_id);
    s.arrive_at_floor(floor);
    s.get_my_state().open_door();
    s
}

#[test]
fn merge_conflict_settled_for_clearing_node() {
    let mut a = serving_at("elev1", 1, 1);
    let mut hall = no_requests();
    let mut epoch = zero_epochs();
    hall[1][HALLUP] = true;
    epoch[1][HALLUP] = 0;
    let b = peer_state("elev2", ElevatorState::new(2), hall, epoch);
    // Same epoch, `a` holds the slot cleared and may clear it: clearing wins.
    a.merge_with(&b);
    assert!(!a.hall_requests()[1][HALLUP]);
}

#[test]
fn merge_conflict_settled_for_request_otherwise() {
    let mut a = SystemState::new("elev1", 1);
    let mut hall = no_requests();
    hall[1][HALLUP] = true;
    let b = peer_state("elev2", ElevatorState::new(2), hall, zero_epochs());
    assert!(a.merge_with(&b));
    assert!(a.hall_requests()[1][HALLUP]);
    assert_eq!(a.hall_epoch()[1][HALLUP], 0);
}

#[test]
fn hall_merge_converges_both_ways() {
    let mut a = serving_at("elev1", 1, 2);
    let mut b = SystemState::new("elev2", 2);
    b.add_order(2, OrderType::HallDown);
    b.add_order(0, OrderType::HallUp);
    a.add_order(3, OrderType::HallDown);
    a.add_order(3, OrderType::HallDown);
    let a0 = a.clone();
    let b0 = b.clone();
    a.merge_with(&b0);
    b.merge_with(&a0);
    assert_eq!(a.hall_requests(), b.hall_requests());
    assert_eq!(a.hall_epoch(), b.hall_epoch());
}

#[test]
fn merge_twice_changes_nothing_more() {
    let mut a = SystemState::new("elev1", 1);
    a.add_order(1, OrderType::HallUp);
    let mut b = serving_at("elev2", 2, 3);
    b.add_order(2, OrderType::HallDown);
    assert!(a.merge_with(&b));
    let hall = a.hall_requests();
    let epoch = a.hall_epoch();
    assert!(!a.merge_with(&b));
    assert_eq!(a.hall_requests(), hall);
    assert_eq!(a.hall_epoch(), epoch);
}

#[test]
fn clear_beats_concurrent_add_from_same_epoch() {
    // Both nodes saw the request at epoch 1; one serves it (epoch 3), the other sees the
    // button pressed again, which is already raised locally (stays at epoch 1).
    let mut server = serving_at("elev1", 1, 1);
    server.add_order(1, OrderType::HallUp);
    let mut other = SystemState::new("elev2", 2);
    other.add_order(1, OrderType::HallUp);
    server.clear_order(1);
    let server0 = server.clone();
    other.merge_with(&server0);
    assert!(!other.hall_requests()[1][HALLUP]);
    assert_eq!(other.hall_epoch()[1][HALLUP], 3);
}

#[test]
fn assigner_input_drops_unavailable_peers() {
    let mut s = SystemState::new("elev1", 1);
    s.get_my_state().set_obstruction(true);
    let mut obstructed = ElevatorState::new(2);
    obstructed.set_obstruction(true);
    let mut stopped = ElevatorState::new(3);
    stopped.set_emergency_stop(true);
    let fine = ElevatorState::new(4);
    let other = SystemState::from_records(
        "elev9".to_string(),
        vec![
            ("elev2".to_string(), obstructed),
            ("elev3".to_string(), stopped),
            ("elev4".to_string(), fine),
            ("elev5".to_string(), fine),
        ],
        no_requests(),
        zero_epochs(),
        77,
    );
    s.merge_with(&other);
    s.peer_lost("elev5");
    let input = s.assigner_input();
    assert_eq!(sorted_ids(&input), vec!["elev1".to_string(), "elev4".to_string()]);
    assert_eq!(input.get_my_id(), "elev1");
    assert_eq!(sorted_ids(&s).len(), 5);
}

#[test]
fn update_lights_lists_hall_then_cab_lamps() {
    let mut s = SystemState::new("elev1", 1);
    s.add_order(0, OrderType::HallUp);
    s.add_order(3, OrderType::HallDown);
    s.add_order(2, OrderType::Cab);
    let lights = s.update_lights();
    assert_eq!(lights.len(), 3 * NUM_FLOORS);
    assert_eq!(lights[0], ButtonLight { floor: 0, button: OrderType::HallUp, on: true });
    assert_eq!(lights[1], ButtonLight { floor: 0, button: OrderType::HallDown, on: false });
    assert_eq!(lights[7], ButtonLight { floor: 3, button: OrderType::HallDown, on: true });
    assert_eq!(lights[8], ButtonLight { floor: 0, button: OrderType::Cab, on: false });
    assert_eq!(lights[10], ButtonLight { floor: 2, button: OrderType::Cab, on: true });
    let on: usize = lights.iter().filter(|l| l.on).count();
    assert_eq!(on, 3);
}

#[test]
fn from_records_later_record_wins() {
    let first = ElevatorState::new(1);
    let mut second = ElevatorState::new(1);
    second.add_cab_request(1);
    let s = SystemState::from_records(
        "elev1".to_string(),
        vec![("elev2".to_string(), first), ("elev2".to_string(), second)],
        no_requests(),
        zero_epochs(),
        77,
    );
    assert_eq!(s.get_elevator_ids(), vec!["elev2".to_string()]);
    assert_eq!(*s.get_elevator_state("elev2").unwrap(), second);
    assert!(s.get_elevator_state("elev1").is_none());
}

#[test]
fn behaviour_after_door_open_is_door_open() {
    let mut s = serving_at("elev1", 1, 2);
    assert_eq!(s.get_my_state().get_behavior(), Behaviour::DoorOpen);
}

#[test]
fn merge_recreates_removed_own_record_with_fresh_boot() {
    let mut backup_of_me = ElevatorState::new(0);
    backup_of_me.add_cab_request(3);
    let other = SystemState::from_records(
        "elev2".to_string(),
        vec![("elev1".to_string(), backup_of_me)],
        no_requests(),
        zero_epochs(),
        77,
    );
    let mut s = SystemState::new("elev1", 5);
    s.remove_elevator_record("elev1");
    assert!(s.merge_with(&other));
    let own = *s.get_elevator_state("elev1").unwrap();
    assert!(own.get_cab_request(3));
    assert!(from_clock(own.boot_id, 5));
}

#[test]
fn hall_flags_follow_epochs_mod_three() {
    let mut a = serving_at("elev1", 1, 2);
    let mut b = SystemState::new("elev2", 2);
    a.add_order(2, OrderType::HallUp);
    b.add_order(1, OrderType::HallDown);
    a.clear_order(2);
    a.add_order(2, OrderType::HallUp);
    let b0 = b.clone();
    a.merge_with(&b0);
    for s in [&a, &b] {
        let hall = s.hall_requests();
        let epoch = s.hall_epoch();
        for f in 0..NUM_FLOORS {
            for d in 0..2 {
                assert_eq!(hall[f][d], epoch[f][d] % 3 == 1);
                assert_ne!(epoch[f][d] % 3, 2);
            }
        }
    }
    assert_eq!(a.hall_epoch()[2][HALLUP], 4);
}
