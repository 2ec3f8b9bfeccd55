use elevator::fsm::{
    execute_state_transition, find_direction, on_door_timeout, on_obstruction, FsmAction,
};
use elevator::types::direction::Direction;
use elevator::types::elevator::Behaviour;
use elevator::types::orders::OrderType;
use elevator::types::systemstate::{SystemState, HALLUP};

fn at(floor: u8) -> SystemState {
    let mut s = SystemState::new("elev1", 1);
    s.arrive_at_floor(floor);
    s
}

#[test]
fn direction_towards_goal() {
    assert_eq!(find_direction(1, 3), Direction::Up);
    assert_eq!(find_direction(3, 1), Direction::Down);
    assert_eq!(find_direction(2, 2), Direction::Down);
}

#[test]
fn idle_car_starts_towards_goal() {
    let mut s = at(1);
    let actions = execute_state_transition(&mut s, Some(3), true, false);
    assert_eq!(actions, vec![FsmAction::Motor(Direction::Stop), FsmAction::Motor(Direction::Up)]);
    assert_eq!(s.get_my_state().get_behavior(), Behaviour::Moving);
    assert_eq!(s.get_my_state().get_direction(), Direction::Up);
    let again = execute_state_transition(&mut s, Some(3), true, false);
    assert!(again.is_empty());
}

#[test]
fn idle_car_at_goal_opens_door_and_clears() {
    let mut s = at(2);
    s.add_order(2, OrderType::HallUp);
    let actions = execute_state_transition(&mut s, Some(2), true, false);
    assert_eq!(
        actions,
        vec![
            FsmAction::Motor(Direction::Stop),
            FsmAction::DoorLight(true),
            FsmAction::StartDoorTimer(1),
        ]
    );
    assert_eq!(s.get_my_state().get_behavior(), Behaviour::DoorOpen);
    assert!(!s.hall_requests()[2][HALLUP]);
    assert_eq!(s.hall_epoch()[2][HALLUP], 3);
}

#[test]
fn idle_car_serves_cab_request_on_the_way() {
    let mut s = at(1);
    s.add_order(1, OrderType::Cab);
    let actions = execute_state_transition(&mut s, Some(3), true, false);
    assert_eq!(actions[1], FsmAction::DoorLight(true));
    assert!(!s.get_my_state().get_cab_request(1));
}

#[test]
fn moving_between_floors_keeps_direction() {
    let mut s = at(1);
    execute_state_transition(&mut s, Some(3), true, false);
    let actions = execute_state_transition(&mut s, Some(3), false, false);
    assert_eq!(actions, vec![FsmAction::Motor(Direction::Up)]);
    let none = execute_state_transition(&mut s, None, false, false);
    assert!(none.is_empty());
}

#[test]
fn moving_car_stops_at_goal() {
    let mut s = at(1);
    execute_state_transition(&mut s, Some(2), true, false);
    s.arrive_at_floor(2);
    let actions = execute_state_transition(&mut s, Some(2), true, false);
    assert_eq!(
        actions,
        vec![
            FsmAction::Motor(Direction::Stop),
            FsmAction::DoorLight(true),
            FsmAction::StartDoorTimer(1),
        ]
    );
    assert_eq!(s.get_my_state().get_behavior(), Behaviour::DoorOpen);
}

#[test]
fn moving_car_reverses_for_new_goal() {
    let mut s = at(1);
    execute_state_transition(&mut s, Some(3), true, false);
    s.arrive_at_floor(2);
    let actions = execute_state_transition(&mut s, Some(0), true, false);
    assert_eq!(actions, vec![FsmAction::Motor(Direction::Down)]);
    assert_eq!(s.get_my_state().get_direction(), Direction::Down);
}

#[test]
fn emergency_stop_halts() {
    let mut s = at(1);
    execute_state_transition(&mut s, Some(3), true, false);
    s.get_my_state().set_emergency_stop(true);
    let actions = execute_state_transition(&mut s, Some(3), true, false);
    assert_eq!(actions, vec![FsmAction::Motor(Direction::Stop)]);
    assert_eq!(s.get_my_state().get_behavior(), Behaviour::Idle);
}

#[test]
fn no_goal_stops_the_car() {
    let mut s = at(1);
    execute_state_transition(&mut s, Some(3), true, false);
    let actions = execute_state_transition(&mut s, None, true, false);
    assert_eq!(actions, vec![FsmAction::Motor(Direction::Stop)]);
    assert_eq!(s.get_my_state().get_direction(), Direction::Stop);
}

#[test]
fn obstruction_at_floor_opens_door() {
    let mut s = at(1);
    execute_state_transition(&mut s, Some(3), true, false);
    s.get_my_state().set_obstruction(true);
    let actions = execute_state_transition(&mut s, Some(3), true, false);
    assert_eq!(
        actions,
        vec![
            FsmAction::Motor(Direction::Stop),
            FsmAction::DoorLight(true),
            FsmAction::StartDoorTimer(1),
        ]
    );
    assert_eq!(s.get_my_state().get_behavior(), Behaviour::DoorOpen);
}

#[test]
fn open_door_reopens_on_button_at_same_floor() {
    let mut s = at(2);
    execute_state_transition(&mut s, Some(2), true, false);
    let quiet = execute_state_transition(&mut s, Some(2), true, false);
    assert_eq!(quiet, vec![FsmAction::Motor(Direction::Stop)]);
    let pressed = execute_state_transition(&mut s, Some(2), true, true);
    assert_eq!(
        pressed,
        vec![
            FsmAction::Motor(Direction::Stop),
            FsmAction::DoorLight(true),
            FsmAction::StartDoorTimer(2),
        ]
    );
}

#[test]
fn unplaced_car_does_nothing_but_stop() {
    let mut s = SystemState::new("elev1", 1);
    let actions = execute_state_transition(&mut s, Some(2), false, false);
    assert_eq!(actions, vec![FsmAction::Motor(Direction::Stop)]);
}

#[test]
fn door_timeout_closes_current_door() {
    let mut s = at(2);
    execute_state_transition(&mut s, Some(2), true, false);
    let (stale, closed) = on_door_timeout(&mut s, 0);
    assert!(stale.is_empty() && !closed);
    assert_eq!(s.get_my_state().get_behavior(), Behaviour::DoorOpen);
    let (actions, closed) = on_door_timeout(&mut s, 1);
    assert_eq!(actions, vec![FsmAction::DoorLight(false)]);
    assert!(closed);
    assert_eq!(s.get_my_state().get_behavior(), Behaviour::Idle);
}

#[test]
fn door_timeout_while_obstructed_keeps_door_open() {
    let mut s = at(2);
    execute_state_transition(&mut s, Some(2), true, false);
    s.get_my_state().set_obstruction(true);
    let (actions, closed) = on_door_timeout(&mut s, 1);
    assert_eq!(actions, vec![FsmAction::DoorLight(true), FsmAction::StartDoorTimer(2)]);
    assert!(!closed);
}

#[test]
fn obstruction_cleared_restarts_door_timer() {
    let mut s = at(1);
    let on = on_obstruction(&mut s, true, true);
    assert_eq!(
        on,
        vec![
            FsmAction::Motor(Direction::Stop),
            FsmAction::DoorLight(true),
            FsmAction::StartDoorTimer(1),
        ]
    );
    assert!(s.get_my_state().is_obstructed());
    let off = on_obstruction(&mut s, false, true);
    assert_eq!(off, vec![FsmAction::DoorLight(true), FsmAction::StartDoorTimer(2)]);
    assert!(!s.get_my_state().is_obstructed());
    let between = on_obstruction(&mut s, false, false);
    assert!(between.is_empty());
}
