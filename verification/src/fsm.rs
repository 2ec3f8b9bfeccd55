//! Finite-state machine for elevator motion, door handling, and order servicing decisions.
//!
//! The state machine decides; the caller carries out the returned hardware actions in order
//! (motor commands, door lamp, door timers).

use crate::config::NUM_FLOORS;
use crate::types::direction::Direction;
use crate::types::elevator::{next_count, Behaviour};
use crate::types::systemstate::{boot_id_from, SystemState, SystemView};
use vstd::prelude::*;

verus! {

/// A hardware action decided by the state machine.
#[derive(Debug, Clone, Copy, PartialEq, Eq, Structural)]
pub enum FsmAction {
    /// Drive the motor in this direction (or stop it).
    Motor(Direction),
    /// Switch the door open lamp.
    DoorLight(bool),
    /// Start a door timer that reports this timer id when it runs out.
    StartDoorTimer(u64),
}

/// The direction from `current_floor` towards `goal_floor`: up when the goal lies above,
/// down otherwise.
pub open spec fn direction_to(current_floor: u8, goal_floor: u8) -> Direction {
    if goal_floor > current_floor {
        Direction::Up
    } else {
        Direction::Down
    }
}

pub fn find_direction(current_floor: u8, goal_floor: u8) -> (d: Direction)
    ensures
        d == direction_to(current_floor, goal_floor),
{
    if goal_floor > current_floor {
        Direction::Up
    } else {
        Direction::Down
    }
}

/// Whether the car should stop and serve the floor it stands at: it is the goal, or a cab
/// request waits there.
pub open spec fn should_serve(v: SystemView, current_floor: u8, goal_floor: u8) -> bool {
    current_floor == goal_floor || v.own().cab_requests[current_floor as int]
}

/// Door opening at the current floor: the door opens, its lamp goes on, a door timer starts
/// and the orders at the floor are cleared; `prefix` are the actions decided before.
pub open spec fn serve_floor(s: SystemView, current_floor: u8, prefix: Seq<FsmAction>) -> (
    SystemView,
    Seq<FsmAction>,
) {
    let opened = s.own().door_opened();
    (
        s.with_own(opened).order_cleared(current_floor),
        prefix + seq![FsmAction::DoorLight(true), FsmAction::StartDoorTimer(opened.door_open_counter)],
    )
}

/// The outcome of [`execute_state_transition`]: the state after the transition and the
/// hardware actions, in order.
pub open spec fn transition(v: SystemView, goal: Option<u8>, at_floor: bool, triggered_by_button_press: bool) -> (
    SystemView,
    Seq<FsmAction>,
) {
    let s = v.listed();
    let e = s.own();
    let idle_stop: Seq<FsmAction> = if e.behaviour == Behaviour::Idle {
        seq![FsmAction::Motor(Direction::Stop)]
    } else {
        seq![]
    };
    if e.emergency_stop {
        (s.with_own(e.stopped()), idle_stop.push(FsmAction::Motor(Direction::Stop)))
    } else if e.behaviour == Behaviour::Moving && !at_floor {
        if goal is Some {
            (s, seq![FsmAction::Motor(e.direction)])
        } else {
            (s, seq![])
        }
    } else if e.obstruction && at_floor {
        let (halted, halt) = if e.behaviour == Behaviour::Moving {
            (e.stopped(), seq![FsmAction::Motor(Direction::Stop)])
        } else {
            (e, seq![])
        };
        if halted.floor is Some {
            let opened = halted.door_opened();
            (
                s.with_own(opened),
                idle_stop + halt + seq![
                    FsmAction::DoorLight(true),
                    FsmAction::StartDoorTimer(opened.door_open_counter),
                ],
            )
        } else {
            (s.with_own(halted), idle_stop + halt)
        }
    } else if goal is None {
        (s.with_own(e.stopped()), idle_stop.push(FsmAction::Motor(Direction::Stop)))
    } else if e.floor is None {
        if e.behaviour == Behaviour::DoorOpen {
            (s, seq![FsmAction::Motor(Direction::Stop)])
        } else {
            (s, idle_stop)
        }
    } else {
        let current_floor = e.floor.unwrap();
        let goal_floor = goal.unwrap();
        match e.behaviour {
            Behaviour::Idle => {
                if should_serve(s, current_floor, goal_floor) && at_floor {
                    serve_floor(s, current_floor, idle_stop)
                } else {
                    let d = direction_to(current_floor, goal_floor);
                    (s.with_own(e.heading(d)), idle_stop.push(FsmAction::Motor(d)))
                }
            },
            Behaviour::Moving => {
                if should_serve(s, current_floor, goal_floor) {
                    serve_floor(s, current_floor, seq![FsmAction::Motor(Direction::Stop)])
                } else {
                    let d = direction_to(current_floor, goal_floor);
                    if d != e.direction {
                        (s.with_own(e.heading(d)), seq![FsmAction::Motor(d)])
                    } else {
                        (s, seq![])
                    }
                }
            },
            Behaviour::DoorOpen => {
                if goal_floor == current_floor && triggered_by_button_press {
                    serve_floor(s, current_floor, seq![FsmAction::Motor(Direction::Stop)])
                } else {
                    (s, seq![FsmAction::Motor(Direction::Stop)])
                }
            },
        }
    }
}

/// Whether the transition looks up the cab request at the car's floor: the car stands idle or
/// moving at a known floor that is not the goal, with nothing else taking precedence.
pub open spec fn reads_cab_request(v: SystemView, goal: Option<u8>, at_floor: bool) -> bool {
    let e = v.own();
    &&& !e.emergency_stop
    &&& !(e.behaviour == Behaviour::Moving && !at_floor)
    &&& !(e.obstruction && at_floor)
    &&& goal is Some
    &&& e.floor is Some
    &&& (e.behaviour == Behaviour::Idle || e.behaviour == Behaviour::Moving)
    &&& e.floor.unwrap() != goal.unwrap()
}

/// Decides the actions that serve `goal` from the current state of this node's elevator,
/// updates the state accordingly and returns the hardware actions in order.
/// `at_floor` tells whether the floor sensor currently sees a floor;
/// `triggered_by_button_press` whether the decision follows a button press.
pub fn execute_state_transition(
    system_state: &mut SystemState,
    goal: Option<u8>,
    at_floor: bool,
    triggered_by_button_press: bool,
) -> (actions: Vec<FsmAction>)
    requires
        old(system_state).wf(),
        reads_cab_request(old(system_state)@, goal, at_floor) ==> old(system_state)@.own().floor.unwrap()
            < NUM_FLOORS,
    ensures
        final(system_state).wf(),
        (final(system_state)@, actions@) == transition(
            old(system_state)@.booted_as(final(system_state)@.boot_id),
            goal,
            at_floor,
            triggered_by_button_press,
        ),
        boot_id_from(old(system_state)@, final(system_state)@),
{
    let ghost v = system_state@;
    let mut actions: Vec<FsmAction> = Vec::new();
    let e = *system_state.get_my_state();
    let ghost s = system_state@;
    proof {
        assert(s == v.booted_as(s.boot_id).listed());
        assert(s.own() == e@);
    }
    if e.get_behavior() == Behaviour::Idle {
        actions.push(FsmAction::Motor(Direction::Stop));
    }
    if e.is_emergency_stop() {
        actions.push(FsmAction::Motor(Direction::Stop));
        system_state.get_my_state().stop();
        return actions;
    }
    if e.get_behavior() == Behaviour::Moving && !at_floor {
        if goal.is_some() {
            actions.push(FsmAction::Motor(e.get_direction()));
        }
        proof {
            assert(s.with_own(s.own()) =~= s);
        }
        return actions;
    }
    if e.is_obstructed() && at_floor {
        let local_state = system_state.get_my_state();
        if local_state.get_behavior() == Behaviour::Moving {
            actions.push(FsmAction::Motor(Direction::Stop));
            local_state.stop();
        }
        if let Some(new_id) = local_state.open_door() {
            actions.push(FsmAction::DoorLight(true));
            actions.push(FsmAction::StartDoorTimer(new_id));
        }
        return actions;
    }
    if goal.is_none() {
        actions.push(FsmAction::Motor(Direction::Stop));
        system_state.get_my_state().stop();
        return actions;
    }
    let goal_floor = goal.unwrap();
    match e.get_behavior() {
        Behaviour::Idle => {
            let current_floor = match e.get_floor() {
                Some(f) => f,
                None => {
                    proof {
                        assert(s.with_own(s.own()) =~= s);
                    }
                    return actions;
                },
            };
            let should_serve_here = current_floor == goal_floor || e.get_cab_request(current_floor);
            if should_serve_here && at_floor {
                let timer_id = system_state.get_my_state().open_door();
                if let Some(timer_id) = timer_id {
                    actions.push(FsmAction::DoorLight(true));
                    actions.push(FsmAction::StartDoorTimer(timer_id));
                }
                system_state.clear_order(current_floor);
            } else {
                let direction = find_direction(current_floor, goal_floor);
                actions.push(FsmAction::Motor(direction));
                system_state.get_my_state().set_direction(direction);
            }
        },
        Behaviour::Moving => {
            let current_floor = match e.get_floor() {
                Some(f) => f,
                None => {
                    proof {
                        assert(s.with_own(s.own()) =~= s);
                    }
                    return actions;
                },
            };
            let should_serve_here = current_floor == goal_floor || e.get_cab_request(current_floor);
            if should_serve_here {
                let timer_id = system_state.get_my_state().open_door();
                if let Some(timer_id) = timer_id {
                    actions.push(FsmAction::Motor(Direction::Stop));
                    actions.push(FsmAction::DoorLight(true));
                    actions.push(FsmAction::StartDoorTimer(timer_id));
                }
                system_state.clear_order(current_floor);
            } else {
                let desired_direction = find_direction(current_floor, goal_floor);
                if desired_direction != e.get_direction() {
                    actions.push(FsmAction::Motor(desired_direction));
                    system_state.get_my_state().set_direction(desired_direction);
                } else {
                    proof {
                        assert(s.with_own(s.own()) =~= s);
                    }
                }
            }
        },
        Behaviour::DoorOpen => {
            actions.push(FsmAction::Motor(Direction::Stop));
            let current_floor = match e.get_floor() {
                Some(f) => f,
                None => {
                    proof {
                        assert(s.with_own(s.own()) =~= s);
                    }
                    return actions;
                },
            };
            if goal_floor != current_floor {
                proof {
                    assert(s.with_own(s.own()) =~= s);
                }
                return actions;
            }
            if triggered_by_button_press {
                let timer_id = system_state.get_my_state().open_door();
                if let Some(timer_id) = timer_id {
                    actions.push(FsmAction::DoorLight(true));
                    actions.push(FsmAction::StartDoorTimer(timer_id));
                }
                system_state.clear_order(current_floor);
            } else {
                proof {
                    assert(s.with_own(s.own()) =~= s);
                }
            }
        },
    }
    actions
}

/// The outcome of [`on_door_timeout`]: the state after it, the hardware actions, and whether
/// the door closed (the next goal is then to be decided and served).
pub open spec fn door_timeout(v: SystemView, timer_id: u64) -> (SystemView, Seq<FsmAction>, bool) {
    let s = v.listed();
    let e = s.own();
    if e.door_open_counter != timer_id {
        (s, seq![], false)
    } else if e.obstruction {
        if e.floor is Some {
            let opened = e.door_opened();
            (
                s.with_own(opened),
                seq![FsmAction::DoorLight(true), FsmAction::StartDoorTimer(opened.door_open_counter)],
                false,
            )
        } else {
            (s, seq![], false)
        }
    } else {
        (s.with_own(e.door_closed()), seq![FsmAction::DoorLight(false)], true)
    }
}

/// Handles the expiry of the door timer `timer_id`: a timer superseded by a later door opening
/// is ignored; while the door is obstructed it stays open with a new timer; otherwise the door
/// closes. Returns the hardware actions and whether the door closed.
pub fn on_door_timeout(system_state: &mut SystemState, timer_id: u64) -> (r: (Vec<FsmAction>, bool))
    requires
        old(system_state).wf(),
    ensures
        final(system_state).wf(),
        (final(system_state)@, r.0@, r.1) == door_timeout(
            old(system_state)@.booted_as(final(system_state)@.boot_id),
            timer_id,
        ),
        boot_id_from(old(system_state)@, final(system_state)@),
{
    let mut actions: Vec<FsmAction> = Vec::new();
    let my_state = system_state.get_my_state();
    if my_state.get_current_timer_id() != timer_id {
        return (actions, false);
    }
    if my_state.is_obstructed() {
        if let Some(new_id) = my_state.open_door() {
            actions.push(FsmAction::DoorLight(true));
            actions.push(FsmAction::StartDoorTimer(new_id));
        }
        return (actions, false);
    }
    actions.push(FsmAction::DoorLight(false));
    my_state.close_door();
    (actions, true)
}

/// The outcome of [`on_obstruction`]: the state after it and the hardware actions.
pub open spec fn obstruction_changed(v: SystemView, obstructed: bool, at_floor: bool) -> (
    SystemView,
    Seq<FsmAction>,
) {
    let s = v.listed();
    let s1 = s.with_own(s.own().with_obstruction(obstructed));
    if obstructed {
        transition(s1, None, at_floor, false)
    } else if at_floor && s1.own().floor is Some {
        let opened = s1.own().door_opened();
        (
            s1.with_own(opened),
            seq![FsmAction::DoorLight(true), FsmAction::StartDoorTimer(opened.door_open_counter)],
        )
    } else {
        (s1, seq![])
    }
}

/// Handles a change of the obstruction switch: records it; a new obstruction is handled by
/// the state machine with no goal; when it clears at a floor, the door is opened again with a
/// fresh timer so that it stays open for the full time.
pub fn on_obstruction(system_state: &mut SystemState, obstructed: bool, at_floor: bool) -> (actions:
    Vec<FsmAction>)
    requires
        old(system_state).wf(),
    ensures
        final(system_state).wf(),
        (final(system_state)@, actions@) == obstruction_changed(
            old(system_state)@.booted_as(final(system_state)@.boot_id),
            obstructed,
            at_floor,
        ),
        boot_id_from(old(system_state)@, final(system_state)@),
{
    let my_state = system_state.get_my_state();
    my_state.set_obstruction(obstructed);
    if obstructed {
        return execute_state_transition(system_state, None, at_floor, false);
    }
    let mut actions: Vec<FsmAction> = Vec::new();
    if at_floor {
        let my_state = system_state.get_my_state();
        if let Some(new_id) = my_state.open_door() {
            actions.push(FsmAction::DoorLight(true));
            actions.push(FsmAction::StartDoorTimer(new_id));
        }
    }
    actions
}

} // verus!


verus! {

/// Every door timer that a transition starts carries the door timer id that the elevator then
/// holds, with the door open at a known floor; so the timer is taken for current when it runs
/// out unless a later door opening has superseded it.
pub proof fn lemma_started_timer_is_current(
    v: SystemView,
    goal: Option<u8>,
    at_floor: bool,
    triggered_by_button_press: bool,
    i: int,
)
    requires
        0 <= i < transition(v, goal, at_floor, triggered_by_button_press).1.len(),
        transition(v, goal, at_floor, triggered_by_button_press).1[i] is StartDoorTimer,
    ensures
        ({
            let (w, actions) = transition(v, goal, at_floor, triggered_by_button_press);
            &&& actions[i] == FsmAction::StartDoorTimer(w.own().door_open_counter)
            &&& w.own().behaviour == Behaviour::DoorOpen
            &&& w.own().floor is Some
        }),
{
}

/// During an emergency stop a transition stops the motor, leaves the car idle, starts no door
/// timer and touches no hall request.
pub proof fn lemma_emergency_stop_halts(
    v: SystemView,
    goal: Option<u8>,
    at_floor: bool,
    triggered_by_button_press: bool,
)
    requires
        v.own().emergency_stop,
    ensures
        ({
            let (w, actions) = transition(v, goal, at_floor, triggered_by_button_press);
            &&& actions.last() == FsmAction::Motor(Direction::Stop)
            &&& forall|i: int| 0 <= i < actions.len() ==> !(#[trigger] actions[i] is StartDoorTimer)
            &&& w.own().behaviour == Behaviour::Idle
            &&& w.own().direction == Direction::Stop
            &&& w.hall_requests == v.hall_requests
            &&& w.hall_epoch == v.hall_epoch
        }),
{
}

/// Motor commands agree with the state left behind: a command to drive the motor is the last
/// motor command of the transition and the car is then moving that way; and when the door is
/// open after the transition, every motor command was a stop, so the car is never driven with
/// the door open.
pub proof fn lemma_motor_matches_state(
    v: SystemView,
    goal: Option<u8>,
    at_floor: bool,
    triggered_by_button_press: bool,
)
    ensures
        ({
            let (w, actions) = transition(v, goal, at_floor, triggered_by_button_press);
            &&& forall|i: int|
                0 <= i < actions.len() && #[trigger] actions[i] is Motor && actions[i]
                    != FsmAction::Motor(Direction::Stop) ==> {
                    &&& forall|j: int| i < j < actions.len() ==> !(#[trigger] actions[j] is Motor)
                    &&& w.own().behaviour == Behaviour::Moving
                    &&& actions[i] == FsmAction::Motor(w.own().direction)
                }
            &&& w.own().behaviour == Behaviour::DoorOpen ==> forall|i: int|
                0 <= i < actions.len() && #[trigger] actions[i] is Motor ==> actions[i]
                    == FsmAction::Motor(Direction::Stop)
        }),
{
}

} // verus!

verus! {

/// A car that stands at a floor, idle or moving, stops there for a waiting cab request on
/// its way to any goal: the motor stops, the door opens with a fresh timer, and the cab
/// request at that floor is cleared.
pub proof fn lemma_car_stops_for_cab_request(
    v: SystemView,
    goal: Option<u8>,
    triggered_by_button_press: bool,
)
    requires
        v.own().floor matches Some(f) && f < NUM_FLOORS && v.own().cab_requests[f as int],
        v.own().cab_requests.len() == NUM_FLOORS,
        v.own().behaviour == Behaviour::Moving || v.own().behaviour == Behaviour::Idle,
        !v.own().emergency_stop,
        !v.own().obstruction,
        goal is Some,
    ensures
        ({
            let f = v.own().floor.unwrap();
            let (w, actions) = transition(v, goal, true, triggered_by_button_press);
            &&& w.own().behaviour == Behaviour::DoorOpen
            &&& w.own().floor == Some(f)
            &&& !w.own().cab_requests[f as int]
            &&& actions.len() == 3
            &&& actions[0] == FsmAction::Motor(Direction::Stop)
            &&& actions[1] == FsmAction::DoorLight(true)
            &&& actions[2] == FsmAction::StartDoorTimer(w.own().door_open_counter)
            &&& w.own().door_open_counter == next_count(v.own().door_open_counter)
        }),
{
    let f = v.own().floor.unwrap();
    let s = v.listed();
    let e = s.own();
    assert(e == v.own());
    let opened = e.door_opened();
    let t = s.with_own(opened);
    assert(t.own() == opened);
    assert(t.listed().elevators =~= t.elevators);
    let c = opened.without_cab_request(f);
    assert(c.cab_requests == e.cab_requests.update(f as int, false));
    let s1 = t.listed().with_own(c);
    assert(s1.own() == c);
    let w = transition(v, goal, true, triggered_by_button_press).0;
    assert(w.elevators == s1.elevators);
    assert(w.own() == c);
}

/// A door timer that is not the elevator's current one is stale: it changes nothing, acts on
/// no hardware and does not close the door. The current one closes the door unless the door
/// is obstructed, in which case the door stays open with the next timer.
pub proof fn lemma_stale_door_timer_ignored(v: SystemView, timer_id: u64)
    ensures
        timer_id != v.own().door_open_counter ==> door_timeout(v, timer_id) == (
            v.listed(),
            Seq::<FsmAction>::empty(),
            false,
        ),
        timer_id == v.own().door_open_counter && !v.own().obstruction ==> {
            &&& door_timeout(v, timer_id).2
            &&& door_timeout(v, timer_id).1 == seq![FsmAction::DoorLight(false)]
            &&& (door_timeout(v, timer_id).0.own().behaviour == Behaviour::DoorOpen ==> false)
        },
        timer_id == v.own().door_open_counter && v.own().obstruction ==> !door_timeout(
            v,
            timer_id,
        ).2,
{
    let s = v.listed();
    assert(s.own() == v.own());
    assert(seq![] =~= Seq::<FsmAction>::empty());
}

} // verus!
