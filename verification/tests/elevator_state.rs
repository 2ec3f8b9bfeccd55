use elevator::config::NUM_FLOORS;
use elevator::types::direction::Direction;
use elevator::types::elevator::{boot_id_from_clock, new_boot_id, Behaviour, ElevatorState};
use elevator::types::orders::OrderType;

fn at_floor(floor: u8) -> ElevatorState {
    let mut e = ElevatorState::new(7);
    e.set_floor(floor);
    e
}

#[test]
fn fresh_elevator_is_idle_and_unplaced() {
    let e = ElevatorState::new(42);
    assert_eq!(e.get_floor(), None);
    assert_eq!(e.get_behavior(), Behaviour::Idle);
    assert_eq!(e.get_direction(), Direction::Stop);
    assert_eq!(e.boot_id, 42);
    assert_eq!(e.seq, 0);
    assert_eq!(e.get_current_timer_id(), 0);
    assert!(!e.is_obstructed());
    assert!(!e.is_emergency_stop());
    for f in 0..NUM_FLOORS as u8 {
        assert!(!e.get_cab_request(f));
    }
}

#[test]
fn behaviour_defaults_to_idle() {
    assert_eq!(Behaviour::default(), Behaviour::Idle);
}

#[test]
fn direction_motor_codes() {
    assert_eq!(u8::from(Direction::Up), 1);
    assert_eq!(u8::from(Direction::Down), 255);
    assert_eq!(u8::from(Direction::Stop), 0);
}

#[test]
fn order_type_codes_and_names() {
    assert_eq!(u8::from(OrderType::HallUp), 0);
    assert_eq!(u8::from(OrderType::HallDown), 1);
    assert_eq!(u8::from(OrderType::Cab), 2);
    assert_eq!(OrderType::HallUp.to_string(), "HallUp");
    assert_eq!(OrderType::HallDown.to_string(), "HallDown");
    assert_eq!(OrderType::Cab.to_string(), "Cab");
}

#[test]
fn set_floor_in_the_middle_records_floor() {
    let mut e = ElevatorState::new(1);
    e.set_direction(Direction::Up);
    let seq = e.seq;
    e.set_floor(2);
    assert_eq!(e.get_floor(), Some(2));
    assert_eq!(e.seq, seq + 1);
    assert_eq!(e.get_behavior(), Behaviour::Moving);
    e.set_floor(2);
    assert_eq!(e.seq, seq + 1);
}

#[test]
fn set_floor_at_bottom_or_top_stops() {
    let mut e = ElevatorState::new(1);
    e.set_direction(Direction::Down);
    e.set_floor(0);
    assert_eq!(e.get_behavior(), Behaviour::Idle);
    assert_eq!(e.get_direction(), Direction::Stop);
    assert_eq!(e.seq, 3);

    let mut e = ElevatorState::new(1);
    e.set_direction(Direction::Up);
    e.set_floor((NUM_FLOORS - 1) as u8);
    assert_eq!(e.get_behavior(), Behaviour::Idle);
    assert_eq!(e.get_floor(), Some(3));
}

#[test]
fn set_floor_outside_building_is_ignored() {
    let mut e = at_floor(1);
    let before = e;
    e.set_floor(NUM_FLOORS as u8);
    assert_eq!(e, before);
}

#[test]
fn stop_changes_only_a_moving_car() {
    let mut e = ElevatorState::new(1);
    e.stop();
    assert_eq!(e.seq, 0);
    e.set_direction(Direction::Down);
    assert_eq!(e.get_behavior(), Behaviour::Moving);
    e.stop();
    assert_eq!(e.get_behavior(), Behaviour::Idle);
    assert_eq!(e.get_direction(), Direction::Stop);
    assert_eq!(e.seq, 2);
}

#[test]
fn cab_requests_add_and_clear() {
    let mut e = ElevatorState::new(1);
    e.add_cab_request(2);
    assert!(e.get_cab_request(2));
    assert_eq!(e.seq, 1);
    e.add_cab_request(2);
    assert_eq!(e.seq, 1);
    e.add_cab_request(9);
    assert_eq!(e.seq, 1);
    e.clear_cab_request(2);
    assert!(!e.get_cab_request(2));
    assert_eq!(e.seq, 2);
    e.clear_cab_request(2);
    assert_eq!(e.seq, 2);
}

#[test]
fn open_door_between_floors_fails() {
    let mut e = ElevatorState::new(1);
    assert_eq!(e.open_door(), None);
    assert_eq!(e.get_behavior(), Behaviour::Idle);
    assert_eq!(e.seq, 0);
}

#[test]
fn open_door_at_floor_advances_timer() {
    let mut e = at_floor(1);
    let seq = e.seq;
    assert_eq!(e.open_door(), Some(1));
    assert_eq!(e.get_behavior(), Behaviour::DoorOpen);
    assert_eq!(e.get_current_timer_id(), 1);
    assert_eq!(e.seq, seq + 1);
    assert_eq!(e.open_door(), Some(2));
    assert_eq!(e.seq, seq + 2);
}

#[test]
fn open_door_counter_saturates() {
    let mut e = at_floor(1);
    e.door_open_counter = u64::MAX;
    assert_eq!(e.open_door(), Some(u64::MAX));
}

#[test]
fn close_door_only_when_open() {
    let mut e = at_floor(1);
    e.close_door();
    let seq = e.seq;
    e.open_door();
    e.close_door();
    assert_eq!(e.get_behavior(), Behaviour::Idle);
    assert_eq!(e.get_direction(), Direction::Stop);
    assert_eq!(e.seq, seq + 2);
}

#[test]
fn set_direction_moves_or_stops() {
    let mut e = at_floor(1);
    let seq = e.seq;
    e.set_direction(Direction::Up);
    assert_eq!((e.get_behavior(), e.get_direction()), (Behaviour::Moving, Direction::Up));
    e.set_direction(Direction::Up);
    assert_eq!(e.seq, seq + 1);
    e.set_direction(Direction::Down);
    assert_eq!(e.get_direction(), Direction::Down);
    assert_eq!(e.seq, seq + 2);
    e.set_direction(Direction::Stop);
    assert_eq!((e.get_behavior(), e.get_direction()), (Behaviour::Idle, Direction::Stop));
    assert_eq!(e.seq, seq + 3);
}

#[test]
fn safety_inputs_bump_only_on_change() {
    let mut e = ElevatorState::new(1);
    e.set_emergency_stop(false);
    e.set_obstruction(false);
    assert_eq!(e.seq, 0);
    e.set_emergency_stop(true);
    assert!(e.is_emergency_stop());
    e.set_obstruction(true);
    assert!(e.is_obstructed());
    assert_eq!(e.seq, 2);
}

#[test]
fn seq_saturates() {
    let mut e = ElevatorState::new(1);
    e.seq = u64::MAX;
    e.add_cab_request(1);
    assert_eq!(e.seq, u64::MAX);
    assert!(e.get_cab_request(1));
}

#[test]
fn newer_than_compares_boot_then_seq() {
    let mut a = ElevatorState::new(5);
    let mut b = ElevatorState::new(4);
    b.seq = 100;
    assert!(a.is_newer_than(&b));
    assert!(!b.is_newer_than(&a));
    b.boot_id = 5;
    assert!(b.is_newer_than(&a));
    a.seq = 100;
    assert!(!a.is_newer_than(&b));
    assert!(!b.is_newer_than(&a));
    assert!(!a.is_newer_than(&a));
}

#[test]
fn newer_than_is_transitive() {
    let mut a = ElevatorState::new(3);
    let mut b = ElevatorState::new(3);
    let c = ElevatorState::new(2);
    a.seq = 9;
    b.seq = 4;
    assert!(a.is_newer_than(&b) && b.is_newer_than(&c) && a.is_newer_than(&c));
}

#[test]
fn changes_make_a_newer_copy() {
    let before = at_floor(1);
    let mut changed = before;
    changed.add_cab_request(3);
    assert!(changed.is_newer_than(&before));
    let mut unchanged = before;
    unchanged.add_cab_request(9);
    assert_eq!(unchanged, before);
}

#[test]
fn recover_from_backup_takes_missing_cab_requests() {
    let mut mine = ElevatorState::new(10);
    mine.add_cab_request(0);
    let mut backup = ElevatorState::new(3);
    backup.add_cab_request(2);
    backup.add_cab_request(3);
    let seq = mine.seq;
    assert!(mine.recover_from_backup(&backup));
    assert!(mine.get_cab_request(0));
    assert!(!mine.get_cab_request(1));
    assert!(mine.get_cab_request(2));
    assert!(mine.get_cab_request(3));
    assert_eq!(mine.seq, seq + 1);
    assert_eq!(mine.boot_id, 10);
    assert!(!mine.recover_from_backup(&backup));
    assert_eq!(mine.seq, seq + 1);
}

#[test]
fn reset_seq_sets_zero() {
    let mut e = at_floor(2);
    assert!(e.seq > 0);
    e.reset_seq();
    assert_eq!(e.seq, 0);
    assert_eq!(e.get_floor(), Some(2));
}

#[test]
fn boot_id_mixes_time_and_process() {
    assert_eq!(boot_id_from_clock(0, 0, 0), 0);
    assert_eq!(boot_id_from_clock(2, 5, 0), 2_000_000_005);
    assert_eq!(boot_id_from_clock(2, 5, 1), 2_000_000_004);
    assert_eq!(boot_id_from_clock(u64::MAX / 2, 7, 3), u64::MAX ^ 3);
    assert_eq!(boot_id_from_clock(1, u32::MAX, 0), 1_000_000_000 + u32::MAX as u64);
}

#[test]
fn new_boot_id_reads_the_clock() {
    let b = new_boot_id(12345);
    assert!((b ^ 12345) > 1_577_836_800 * 1_000_000_000);
}
