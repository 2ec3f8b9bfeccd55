//! State of a single elevator as replicated between the nodes.
//!
//! Every change of the state bumps the sequence number `seq`, so that a peer
//! holding two copies of the same elevator's state can tell the newer one.

use crate::config::NUM_FLOORS;
use crate::types::direction::Direction;
use std::time::{Duration, SystemTime, SystemTimeError, UNIX_EPOCH};
use vstd::prelude::*;

verus! {

/// What the car is doing.
#[derive(Debug, Clone, Copy, PartialEq, Eq, Structural)]
pub enum Behaviour {
    Idle,
    Moving,
    DoorOpen,
}

impl Default for Behaviour {
    fn default() -> (b: Self)
        ensures
            b == Behaviour::Idle,
    {
        Behaviour::Idle
    }
}

#[verifier::external_type_specification]
#[verifier::external_body]
pub struct ExSystemTime(SystemTime);

#[verifier::external_type_specification]
#[verifier::external_body]
pub struct ExSystemTimeError(SystemTimeError);

/// Calls `SystemTime::now`. Trusted, with nothing stated of the time it reads.
#[verifier::external_body]
fn clock_now() -> SystemTime {
    SystemTime::now()
}

/// Calls `SystemTime::duration_since` with the Unix epoch. Trusted, with nothing stated of
/// the duration: it depends on the clock reading it is given.
#[verifier::external_body]
fn since_unix_epoch(t: &SystemTime) -> Result<Duration, SystemTimeError> {
    t.duration_since(UNIX_EPOCH)
}

/// Calls `Duration::as_secs`. Trusted, with nothing stated of the result.
#[verifier::external_body]
fn whole_seconds(d: &Duration) -> u64 {
    d.as_secs()
}

/// Calls `Duration::subsec_nanos`. Trusted: the result is below one billion, as its
/// documentation says.
#[verifier::external_body]
fn nanos_within_second(d: &Duration) -> (n: u32)
    ensures
        n < 1_000_000_000,
{
    d.subsec_nanos()
}

/// The boot identifier made from a clock reading of `secs` seconds and `nanos` nanoseconds
/// since the Unix epoch and a process id: the time in nanoseconds (saturating) mixed with the
/// process id.
pub open spec fn boot_id_of(secs: u64, nanos: u32, process_id: u32) -> u64 {
    let scaled: int = if secs * 1_000_000_000 > u64::MAX {
        u64::MAX as int
    } else {
        secs * 1_000_000_000
    };
    let total: u64 = if scaled + nanos > u64::MAX {
        u64::MAX
    } else {
        (scaled + nanos) as u64
    };
    total ^ (process_id as u64)
}

/// The boot identifier for a clock reading and a process id.
pub fn boot_id_from_clock(secs: u64, nanos: u32, process_id: u32) -> (b: u64)
    ensures
        b == boot_id_of(secs, nanos, process_id),
{
    let scaled: u64 = match secs.checked_mul(1_000_000_000) {
        Some(x) => x,
        None => u64::MAX,
    };
    let total: u64 = match scaled.checked_add(nanos as u64) {
        Some(x) => x,
        None => u64::MAX,
    };
    total ^ (process_id as u64)
}

/// A fresh boot identifier for the process `process_id`, made from the current time; a clock
/// before the Unix epoch reads as the epoch itself.
pub fn new_boot_id(process_id: u32) -> (b: u64)
    ensures
        exists|secs: u64, nanos: u32| nanos < 1_000_000_000 && b == boot_id_of(secs, nanos, process_id),
{
    let now = clock_now();
    let (secs, nanos) = match since_unix_epoch(&now) {
        Ok(d) => (whole_seconds(&d), nanos_within_second(&d)),
        Err(_) => (0, 0),
    };
    let b = boot_id_from_clock(secs, nanos, process_id);
    assert(nanos < 1_000_000_000 && b == boot_id_of(secs, nanos, process_id));
    b
}

/// The mathematical model of an [`ElevatorState`].
pub struct ElevatorView {
    pub floor: Option<u8>,
    pub behaviour: Behaviour,
    pub direction: Direction,
    pub cab_requests: Seq<bool>,
    pub obstruction: bool,
    pub emergency_stop: bool,
    pub door_open_counter: u64,
    pub boot_id: u64,
    pub seq: u64,
}

/// `x + 1`, saturating at `u64::MAX`.
pub open spec fn next_count(x: u64) -> u64 {
    if x < u64::MAX {
        (x + 1) as u64
    } else {
        x
    }
}

/// Whether `floor` names one of the served floors.
pub open spec fn valid_floor(floor: int) -> bool {
    0 <= floor < NUM_FLOORS
}

impl ElevatorView {
    /// The state with its sequence number bumped.
    pub open spec fn bumped(self) -> ElevatorView {
        ElevatorView { seq: next_count(self.seq), ..self }
    }

    /// The state without its sequence number: what a change of state is measured on.
    pub open spec fn content(self) -> (Option<u8>, Behaviour, Direction, Seq<bool>, bool, bool, u64, u64) {
        (
            self.floor,
            self.behaviour,
            self.direction,
            self.cab_requests,
            self.obstruction,
            self.emergency_stop,
            self.door_open_counter,
            self.boot_id,
        )
    }

    /// After `stop`: idle with the motor stopped.
    pub open spec fn stopped(self) -> ElevatorView {
        if self.behaviour != Behaviour::Idle || self.direction != Direction::Stop {
            ElevatorView { behaviour: Behaviour::Idle, direction: Direction::Stop, ..self }.bumped()
        } else {
            self
        }
    }

    /// After `set_floor(floor)`: the floor is recorded; at the bottom or top floor the car stops.
    /// A floor outside the building is ignored.
    pub open spec fn arrived_at(self, floor: u8) -> ElevatorView {
        if floor >= NUM_FLOORS {
            self
        } else {
            let placed = if self.floor != Some(floor) {
                ElevatorView { floor: Some(floor), ..self }.bumped()
            } else {
                self
            };
            if floor >= NUM_FLOORS - 1 || floor == 0 {
                placed.stopped()
            } else {
                placed
            }
        }
    }

    /// After `add_cab_request(floor)`.
    pub open spec fn with_cab_request(self, floor: u8) -> ElevatorView {
        if floor < NUM_FLOORS && !self.cab_requests[floor as int] {
            ElevatorView {
                cab_requests: self.cab_requests.update(floor as int, true),
                ..self
            }.bumped()
        } else {
            self
        }
    }

    /// After `clear_cab_request(floor)`.
    pub open spec fn without_cab_request(self, floor: u8) -> ElevatorView {
        if floor < NUM_FLOORS && self.cab_requests[floor as int] {
            ElevatorView {
                cab_requests: self.cab_requests.update(floor as int, false),
                ..self
            }.bumped()
        } else {
            self
        }
    }

    /// After a successful `open_door`: the door is open and its timer counter advanced.
    pub open spec fn door_opened(self) -> ElevatorView {
        if self.floor is None {
            self
        } else {
            ElevatorView {
                behaviour: Behaviour::DoorOpen,
                door_open_counter: next_count(self.door_open_counter),
                ..self
            }.bumped()
        }
    }

    /// After `close_door`.
    pub open spec fn door_closed(self) -> ElevatorView {
        if self.behaviour == Behaviour::DoorOpen {
            ElevatorView { behaviour: Behaviour::Idle, direction: Direction::Stop, ..self }.bumped()
        } else {
            self
        }
    }

    /// After `set_direction(direction)`: moving that way, or stopped.
    pub open spec fn heading(self, direction: Direction) -> ElevatorView {
        if direction == Direction::Stop {
            self.stopped()
        } else if self.direction != direction || self.behaviour != Behaviour::Moving {
            ElevatorView { direction, behaviour: Behaviour::Moving, ..self }.bumped()
        } else {
            self
        }
    }

    /// After `set_emergency_stop(pressed)`.
    pub open spec fn with_emergency_stop(self, pressed: bool) -> ElevatorView {
        if self.emergency_stop != pressed {
            ElevatorView { emergency_stop: pressed, ..self }.bumped()
        } else {
            self
        }
    }

    /// After `set_obstruction(obstructed)`.
    pub open spec fn with_obstruction(self, obstructed: bool) -> ElevatorView {
        if self.obstruction != obstructed {
            ElevatorView { obstruction: obstructed, ..self }.bumped()
        } else {
            self
        }
    }

    /// Whether `backup` holds a cab request that this state lacks.
    pub open spec fn misses_backup(self, backup: ElevatorView) -> bool {
        exists|f: int|
            0 <= f < NUM_FLOORS && #[trigger] backup.cab_requests[f] && !self.cab_requests[f]
    }

    /// After `recover_from_backup(backup)`: every cab request of the backup is taken over.
    pub open spec fn recovered_from(self, backup: ElevatorView) -> ElevatorView {
        if self.misses_backup(backup) {
            ElevatorView {
                cab_requests: Seq::new(
                    NUM_FLOORS as nat,
                    |f: int| self.cab_requests[f] || backup.cab_requests[f],
                ),
                ..self
            }.bumped()
        } else {
            self
        }
    }

    /// Whether this copy of an elevator's state is more recent than `other`:
    /// a later boot, or the same boot and a later sequence number.
    pub open spec fn newer_than(self, other: ElevatorView) -> bool {
        self.boot_id > other.boot_id || (self.boot_id == other.boot_id && self.seq > other.seq)
    }
}

/// The state of one elevator: position, motion, door, pending cab calls and safety inputs,
/// with the boot identifier and sequence number that order its versions.
#[derive(Debug, Clone, Copy, PartialEq, Eq)]
pub struct ElevatorState {
    pub floor: Option<u8>,
    pub behaviour: Behaviour,
    pub direction: Direction,
    pub cab_requests: [bool; NUM_FLOORS],
    pub obstruction: bool,
    pub emergency_stop: bool,
    pub door_open_counter: u64,
    pub boot_id: u64,
    pub seq: u64,
}

impl View for ElevatorState {
    type V = ElevatorView;

    open spec fn view(&self) -> ElevatorView {
        ElevatorView {
            floor: self.floor,
            behaviour: self.behaviour,
            direction: self.direction,
            cab_requests: self.cab_requests@,
            obstruction: self.obstruction,
            emergency_stop: self.emergency_stop,
            door_open_counter: self.door_open_counter,
            boot_id: self.boot_id,
            seq: self.seq,
        }
    }
}

/// The state of a freshly booted elevator.
pub open spec fn fresh_elevator(boot_id: u64) -> ElevatorView {
    ElevatorView {
        floor: None,
        behaviour: Behaviour::Idle,
        direction: Direction::Stop,
        cab_requests: Seq::new(NUM_FLOORS as nat, |f: int| false),
        obstruction: false,
        emergency_stop: false,
        door_open_counter: 0,
        boot_id,
        seq: 0,
    }
}

impl ElevatorState {
    /// A freshly booted elevator: position unknown, idle, no requests.
    pub fn new(boot_id: u64) -> (s: Self)
        ensures
            s@ == fresh_elevator(boot_id),
    {
        let s = ElevatorState {
            floor: None,
            behaviour: Behaviour::Idle,
            direction: Direction::Stop,
            cab_requests: [false; NUM_FLOORS],
            obstruction: false,
            emergency_stop: false,
            door_open_counter: 0,
            boot_id,
            seq: 0,
        };
        assert(s@.cab_requests =~= fresh_elevator(boot_id).cab_requests);
        s
    }

    fn bump_seq(&mut self)
        ensures
            final(self)@ == old(self)@.bumped(),
    {
        self.seq = self.seq.saturating_add(1);
    }

    pub fn stop(&mut self)
        ensures
            final(self)@ == old(self)@.stopped(),
    {
        if self.behaviour != Behaviour::Idle || self.direction != Direction::Stop {
            self.behaviour = Behaviour::Idle;
            self.direction = Direction::Stop;
            self.bump_seq();
        }
    }

    pub fn get_behavior(&self) -> (b: Behaviour)
        ensures
            b == self.behaviour,
    {
        self.behaviour
    }

    pub fn set_floor(&mut self, floor: u8)
        ensures
            final(self)@ == old(self)@.arrived_at(floor),
    {
        if (floor as usize) >= NUM_FLOORS {
            return;
        }
        if self.floor != Some(floor) {
            self.floor = Some(floor);
            self.bump_seq();
        }
        if (floor as usize) >= NUM_FLOORS - 1 || floor == 0 {
            self.stop();
        }
    }

    pub fn get_floor(&self) -> (f: Option<u8>)
        ensures
            f == self.floor,
    {
        self.floor
    }

    pub fn add_cab_request(&mut self, floor: u8)
        ensures
            final(self)@ == old(self)@.with_cab_request(floor),
    {
        if (floor as usize) < NUM_FLOORS && !self.cab_requests[floor as usize] {
            self.cab_requests[floor as usize] = true;
            self.bump_seq();
        }
    }

    pub fn clear_cab_request(&mut self, floor: u8)
        ensures
            final(self)@ == old(self)@.without_cab_request(floor),
    {
        if (floor as usize) < NUM_FLOORS && self.cab_requests[floor as usize] {
            self.cab_requests[floor as usize] = false;
            self.bump_seq();
        }
    }

    pub fn get_cab_request(&self, floor: u8) -> (b: bool)
        requires
            floor < NUM_FLOORS,
        ensures
            b == self@.cab_requests[floor as int],
    {
        self.cab_requests[floor as usize]
    }

    /// Opens the door at the current floor; returns the new door timer id,
    /// or `None` when the car is between floors.
    pub fn open_door(&mut self) -> (timer: Option<u64>)
        ensures
            final(self)@ == old(self)@.door_opened(),
            timer == (if old(self).floor is None {
                None
            } else {
                Some(next_count(old(self).door_open_counter))
            }),
    {
        if self.floor.is_none() {
            return None;
        }
        self.behaviour = Behaviour::DoorOpen;
        self.door_open_counter = self.door_open_counter.saturating_add(1);
        self.bump_seq();
        Some(self.door_open_counter)
    }

    pub fn close_door(&mut self)
        ensures
            final(self)@ == old(self)@.door_closed(),
    {
        if self.behaviour == Behaviour::DoorOpen {
            self.behaviour = Behaviour::Idle;
            self.direction = Direction::Stop;
            self.bump_seq();
        }
    }

    pub fn set_direction(&mut self, direction: Direction)
        ensures
            final(self)@ == old(self)@.heading(direction),
    {
        if direction == Direction::Stop {
            self.stop();
        } else if direction == Direction::Up {
            if self.direction != Direction::Up || self.behaviour != Behaviour::Moving {
                self.direction = Direction::Up;
                self.behaviour = Behaviour::Moving;
                self.bump_seq();
            }
        } else {
            if self.direction != Direction::Down || self.behaviour != Behaviour::Moving {
                self.direction = Direction::Down;
                self.behaviour = Behaviour::Moving;
                self.bump_seq();
            }
        }
    }

    pub fn get_direction(&self) -> (d: Direction)
        ensures
            d == self.direction,
    {
        self.direction
    }

    pub fn get_current_timer_id(&self) -> (id: u64)
        ensures
            id == self.door_open_counter,
    {
        self.door_open_counter
    }

    pub fn is_obstructed(&self) -> (b: bool)
        ensures
            b == self.obstruction,
    {
        self.obstruction
    }

    pub fn is_emergency_stop(&self) -> (b: bool)
        ensures
            b == self.emergency_stop,
    {
        self.emergency_stop
    }

    pub fn set_emergency_stop(&mut self, is_pressed: bool)
        ensures
            final(self)@ == old(self)@.with_emergency_stop(is_pressed),
    {
        if self.emergency_stop != is_pressed {
            self.emergency_stop = is_pressed;
            self.bump_seq();
        }
    }

    pub fn is_newer_than(&self, other: &ElevatorState) -> (b: bool)
        ensures
            b == self@.newer_than(other@),
    {
        self.boot_id > other.boot_id || (self.boot_id == other.boot_id && self.seq > other.seq)
    }

    pub fn set_obstruction(&mut self, val: bool)
        ensures
            final(self)@ == old(self)@.with_obstruction(val),
    {
        if self.obstruction != val {
            self.obstruction = val;
            self.bump_seq();
        }
    }

    /// Takes over every cab request of `backup` that this state lacks;
    /// returns whether any was taken over.
    pub fn recover_from_backup(&mut self, backup: &ElevatorState) -> (changed: bool)
        ensures
            final(self)@ == old(self)@.recovered_from(backup@),
            changed == old(self)@.misses_backup(backup@),
    {
        let ghost start = self@;
        let mut changed = false;
        let mut f: usize = 0;
        while f < NUM_FLOORS
            invariant
                f <= NUM_FLOORS,
                start.cab_requests.len() == NUM_FLOORS,
                backup@.cab_requests.len() == NUM_FLOORS,
                self@ == (ElevatorView { cab_requests: self@.cab_requests, ..start }),
                self@.cab_requests.len() == NUM_FLOORS,
                forall|g: int|
                    0 <= g < f ==> #[trigger] self@.cab_requests[g] == (start.cab_requests[g]
                        || backup@.cab_requests[g]),
                forall|g: int| f <= g < NUM_FLOORS ==> #[trigger] self@.cab_requests[g] == start.cab_requests[g],
                changed == exists|g: int|
                    0 <= g < f && #[trigger] backup@.cab_requests[g] && !start.cab_requests[g],
            decreases NUM_FLOORS - f,
        {
            if backup.cab_requests[f] && !self.cab_requests[f] {
                self.cab_requests[f] = true;
                changed = true;
                assert(backup@.cab_requests[f as int] && !start.cab_requests[f as int]);
            }
            assert(changed == exists|g: int|
                0 <= g < f + 1 && #[trigger] backup@.cab_requests[g] && !start.cab_requests[g]);
            f = f + 1;
        }
        proof {
            if !changed {
                assert(self@.cab_requests =~= start.cab_requests);
            } else {
                assert(self@.cab_requests =~= start.recovered_from(backup@).cab_requests);
            }
        }
        if changed {
            self.bump_seq();
        }
        changed
    }

    pub fn reset_seq(&mut self)
        ensures
            final(self)@ == (ElevatorView { seq: 0, ..old(self)@ }),
    {
        self.seq = 0;
    }
}

/// A step from `before` to `after` keeps the boot identifier, never lowers the sequence number,
/// and makes any real change visible: a changed state is newer than the old one unless the
/// sequence number was already saturated.
pub open spec fn versioned_step(before: ElevatorView, after: ElevatorView) -> bool {
    &&& after.boot_id == before.boot_id
    &&& after.seq >= before.seq
    &&& (after.content() != before.content() && before.seq < u64::MAX ==> after.newer_than(before))
}

/// Every operation that changes an elevator's state records the change in its sequence
/// number, so that peers prefer the changed copy over the old one.
pub proof fn lemma_updates_are_versioned(
    e: ElevatorView,
    floor: u8,
    direction: Direction,
    flag: bool,
    backup: ElevatorView,
)
    ensures
        versioned_step(e, e.stopped()),
        versioned_step(e, e.arrived_at(floor)),
        versioned_step(e, e.with_cab_request(floor)),
        versioned_step(e, e.without_cab_request(floor)),
        versioned_step(e, e.door_opened()),
        versioned_step(e, e.door_closed()),
        versioned_step(e, e.heading(direction)),
        versioned_step(e, e.with_emergency_stop(flag)),
        versioned_step(e, e.with_obstruction(flag)),
        versioned_step(e, e.recovered_from(backup)),
{
    let placed = if e.floor != Some(floor) {
        ElevatorView { floor: Some(floor), ..e }.bumped()
    } else {
        e
    };
    assert(versioned_step(placed, placed.stopped()));
}

/// `newer_than` is a strict order on versions: irreflexive, asymmetric and transitive, and
/// any two different versions are ordered one way or the other.
pub proof fn lemma_newer_than_orders_versions(a: ElevatorView, b: ElevatorView, c: ElevatorView)
    ensures
        !a.newer_than(a),
        a.newer_than(b) ==> !b.newer_than(a),
        a.newer_than(b) && b.newer_than(c) ==> a.newer_than(c),
        (a.boot_id, a.seq) != (b.boot_id, b.seq) ==> a.newer_than(b) || b.newer_than(a),
{
}

/// After recovering from a backup, every cab request of the backup and of the state before is
/// held.
pub proof fn lemma_recovery_keeps_requests(e: ElevatorView, backup: ElevatorView)
    ensures
        forall|f: int|
            0 <= f < NUM_FLOORS && (backup.cab_requests[f] || e.cab_requests[f])
                ==> #[trigger] e.recovered_from(backup).cab_requests[f],
        forall|f: int|
            0 <= f < NUM_FLOORS && #[trigger] e.recovered_from(backup).cab_requests[f]
                ==> backup.cab_requests[f] || e.cab_requests[f],
        !e.recovered_from(backup).misses_backup(backup),
{
}

} // verus!
