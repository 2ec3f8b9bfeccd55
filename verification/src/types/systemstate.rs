//! Distributed system state for all elevators, including hall orders, merge rules, and lamp states.
//!
//! Every node keeps one `SystemState`: its own elevator state, the latest known state of each
//! peer, and the hall requests shared by all nodes. Each hall request slot carries an epoch
//! counter; states received from peers are merged slot by slot, the higher epoch winning.

use crate::config::NUM_FLOORS;
use crate::types::direction::Direction;
use crate::types::elevator::{
    boot_id_of, fresh_elevator, new_boot_id, next_count, Behaviour, ElevatorState, ElevatorView,
};
use crate::types::orders::OrderType;
use vstd::prelude::*;

verus! {

/// Index of the hall-up slot in a floor's pair of hall requests.
pub const HALLUP: usize = 0;

/// Index of the hall-down slot in a floor's pair of hall requests.
pub const HALLDOWN: usize = 1;

/// The mathematical model of a [`SystemState`].
#[verifier::ext_equal]
pub struct SystemView {
    /// Identifier of this node.
    pub my_id: Seq<char>,
    /// Known elevator states by node identifier.
    pub elevators: Map<Seq<char>, ElevatorView>,
    /// Boot identifier of the own record that this state created last.
    pub boot_id: u64,
    /// Process id of this node, mixed into the boot identifier of a newly created own record.
    pub process_id: u32,
    /// `hall_requests[floor][dir]`, with `dir` 0 for up and 1 for down.
    pub hall_requests: Seq<Seq<bool>>,
    /// `hall_epoch[floor][dir]`: the version counter of each hall request slot.
    pub hall_epoch: Seq<Seq<u64>>,
    /// Peers that are currently considered dead.
    pub dead: Set<Seq<char>>,
    /// Whether the start-up synchronisation with the peers is over.
    pub sync_complete: bool,
}

/// The boot identifier that `after` holds: when `after` holds this node's own record and
/// `before` did not, the record was created with a boot identifier read from the clock for
/// this node's process; otherwise the boot identifier is that of `before`.
pub open spec fn boot_id_from(before: SystemView, after: SystemView) -> bool {
    if !before.elevators.contains_key(before.my_id) && after.elevators.contains_key(after.my_id) {
        exists|secs: u64, nanos: u32|
            nanos < 1_000_000_000 && after.boot_id == #[trigger] boot_id_of(
                secs,
                nanos,
                before.process_id,
            )
    } else {
        after.boot_id == before.boot_id
    }
}

/// Whether `d` names a hall request direction slot.
pub open spec fn valid_dir(d: int) -> bool {
    d == HALLUP || d == HALLDOWN
}

/// The hall slot that an order type names, if any.
pub open spec fn hall_slot(order: OrderType) -> int {
    match order {
        OrderType::HallUp => HALLUP as int,
        OrderType::HallDown => HALLDOWN as int,
        OrderType::Cab => -1,
    }
}

/// One hall slot after merging the slot `(sr, se)` of this node, which may clear it when
/// `sc`, with the slot `(or, oe)` of another node, which may clear it when `oc`.
/// The higher epoch wins; at equal epochs a disagreement is settled for clearing when a node
/// that holds the slot cleared may clear it, and for the request otherwise.
pub open spec fn merged_slot(sr: bool, se: u64, sc: bool, or: bool, oe: u64, oc: bool) -> (bool, u64) {
    if oe > se {
        (or, oe)
    } else if se > oe {
        (sr, se)
    } else if sr == or {
        (sr, se)
    } else if (!sr && sc) || (!or && oc) {
        (false, se)
    } else {
        (true, se)
    }
}

impl SystemView {
    /// The shape of the hall tables: one pair of slots per floor.
    pub open spec fn well_shaped(self) -> bool {
        &&& self.hall_requests.len() == NUM_FLOORS
        &&& self.hall_epoch.len() == NUM_FLOORS
        &&& forall|f: int| 0 <= f < NUM_FLOORS ==> #[trigger] self.hall_requests[f].len() == 2
        &&& forall|f: int| 0 <= f < NUM_FLOORS ==> #[trigger] self.hall_epoch[f].len() == 2
        &&& !self.dead.contains(self.my_id)
        &&& forall|k: Seq<char>|
            self.elevators.contains_key(k) ==> #[trigger] self.elevators[k].cab_requests.len()
                == NUM_FLOORS
    }

    /// Every hall request flag agrees with its epoch: a request is raised exactly at epochs
    /// that are 1 modulo 3, and no epoch is 2 modulo 3. Raising advances an epoch by one and
    /// clearing by two, so the flag can be read off the epoch.
    pub open spec fn epochs_consistent(self) -> bool {
        forall|f: int, d: int|
            #![trigger self.request(f, d)]
            #![trigger self.epoch(f, d)]
            0 <= f < NUM_FLOORS && 0 <= d < 2 ==> (self.request(f, d) == (self.epoch(f, d) % 3 == 1))
                && self.epoch(f, d) % 3 != 2
    }

    /// Every hall epoch leaves room to advance by two.
    pub open spec fn epochs_have_room(self) -> bool {
        forall|f: int, d: int|
            0 <= f < NUM_FLOORS && 0 <= d < 2 ==> #[trigger] self.epoch(f, d) + 2 <= u64::MAX
    }

    pub open spec fn request(self, floor: int, dir: int) -> bool {
        self.hall_requests[floor][dir]
    }

    pub open spec fn epoch(self, floor: int, dir: int) -> u64 {
        self.hall_epoch[floor][dir]
    }

    /// This state as it stands when its own record, if missing, is about to be created with
    /// boot identifier `b`; unchanged when the record is present.
    pub open spec fn booted_as(self, b: u64) -> SystemView {
        if self.elevators.contains_key(self.my_id) {
            self
        } else {
            SystemView { boot_id: b, ..self }
        }
    }

    /// This node's own elevator state; a fresh one if its record is missing.
    pub open spec fn own(self) -> ElevatorView {
        if self.elevators.contains_key(self.my_id) {
            self.elevators[self.my_id]
        } else {
            fresh_elevator(self.boot_id)
        }
    }

    /// The state with this node's own record set to `e`.
    pub open spec fn with_own(self, e: ElevatorView) -> SystemView {
        SystemView { elevators: self.elevators.insert(self.my_id, e), ..self }
    }

    /// The state with this node's own record present (created fresh when missing).
    pub open spec fn listed(self) -> SystemView {
        self.with_own(self.own())
    }

    /// The state with one hall slot set.
    pub open spec fn with_slot(self, floor: int, dir: int, request: bool, epoch: u64) -> SystemView {
        SystemView {
            hall_requests: self.hall_requests.update(
                floor,
                self.hall_requests[floor].update(dir, request),
            ),
            hall_epoch: self.hall_epoch.update(floor, self.hall_epoch[floor].update(dir, epoch)),
            ..self
        }
    }

    /// Whether this node may clear the hall request `(floor, dir)`: its car stands at that
    /// floor with the door open, heading that way or not heading anywhere.
    pub open spec fn can_clear(self, floor: int, dir: int) -> bool {
        if !self.elevators.contains_key(self.my_id) {
            false
        } else {
            let e = self.elevators[self.my_id];
            &&& e.floor == Some(floor as u8)
            &&& e.behaviour == Behaviour::DoorOpen
            &&& if dir == HALLUP {
                e.direction == Direction::Up || e.direction == Direction::Stop
            } else if dir == HALLDOWN {
                e.direction == Direction::Down || e.direction == Direction::Stop
            } else {
                false
            }
        }
    }

    /// Whether this state takes in another node's record for `k` when merging: records of
    /// this node itself only before the start-up synchronisation is over, records of other
    /// nodes only while they are not considered dead.
    pub open spec fn takes_record(self, k: Seq<char>) -> bool {
        if k == self.my_id {
            !self.sync_complete
        } else {
            !self.dead.contains(k)
        }
    }

    /// This state's record for `k` after taking in another node's record `e` for `k`:
    /// this node's own record recovers the cab requests of `e`; another node's record is
    /// replaced by `e` when it is missing or older than `e`.
    pub open spec fn absorbed_entry(self, k: Seq<char>, e: ElevatorView) -> ElevatorView {
        if k == self.my_id {
            self.own().recovered_from(e)
        } else if !self.elevators.contains_key(k) || e.newer_than(self.elevators[k]) {
            e
        } else {
            self.elevators[k]
        }
    }

    /// Whether taking in the record `(k, e)` changes this state.
    pub open spec fn record_changes(self, k: Seq<char>, e: ElevatorView) -> bool {
        &&& self.takes_record(k)
        &&& if k == self.my_id {
            self.own().misses_backup(e)
        } else {
            !self.elevators.contains_key(k) || e.newer_than(self.elevators[k])
        }
    }

    /// The elevator records after taking in those of `other` whose identifiers lie in `ks`.
    pub open spec fn merged_elevators_on(self, other: SystemView, ks: Set<Seq<char>>) -> Map<
        Seq<char>,
        ElevatorView,
    > {
        Map::new(
            |k: Seq<char>|
                self.elevators.contains_key(k) || (ks.contains(k) && other.elevators.contains_key(
                    k,
                ) && self.takes_record(k)),
            |k: Seq<char>|
                if ks.contains(k) && other.elevators.contains_key(k) && self.takes_record(k) {
                    self.absorbed_entry(k, other.elevators[k])
                } else {
                    self.elevators[k]
                },
        )
    }

    /// The elevator records after taking in all those of `other`.
    pub open spec fn merged_elevators(self, other: SystemView) -> Map<Seq<char>, ElevatorView> {
        self.merged_elevators_on(other, other.elevators.dom())
    }

    /// The hall slot `(floor, dir)` after merging with `other`, where `mid` is this state
    /// with the elevator records already merged.
    pub open spec fn merged_slot_of(self, mid: SystemView, other: SystemView, floor: int, dir: int) -> (
        bool,
        u64,
    ) {
        merged_slot(
            self.request(floor, dir),
            self.epoch(floor, dir),
            mid.can_clear(floor, dir),
            other.request(floor, dir),
            other.epoch(floor, dir),
            other.can_clear(floor, dir),
        )
    }

    /// The state after `merge_with(other)`: elevator records merged first, then every hall
    /// slot by [`merged_slot`].
    pub open spec fn merged_with(self, other: SystemView) -> SystemView {
        let mid = SystemView { elevators: self.merged_elevators(other), ..self };
        SystemView {
            hall_requests: Seq::new(
                NUM_FLOORS as nat,
                |f: int| Seq::new(2, |d: int| self.merged_slot_of(mid, other, f, d).0),
            ),
            hall_epoch: Seq::new(
                NUM_FLOORS as nat,
                |f: int| Seq::new(2, |d: int| self.merged_slot_of(mid, other, f, d).1),
            ),
            ..mid
        }
    }

    /// Whether some hall slot changes when merging with `other`.
    pub open spec fn hall_changes(self, other: SystemView) -> bool {
        let mid = SystemView { elevators: self.merged_elevators(other), ..self };
        exists|f: int, d: int|
            0 <= f < NUM_FLOORS && 0 <= d < 2 && #[trigger] self.merged_slot_of(mid, other, f, d)
                != (self.request(f, d), self.epoch(f, d))
    }

    /// What `merge_with(other)` reports: whether some record or some hall slot changed.
    pub open spec fn merge_changes(self, other: SystemView) -> bool {
        ||| exists|k: Seq<char>|
            other.elevators.contains_key(k) && #[trigger] self.record_changes(
                k,
                other.elevators[k],
            )
        ||| self.hall_changes(other)
    }

    /// Whether the elevator `k` takes part in hall request assignment: it is not dead, and
    /// unless it is this node's own, it is neither obstructed nor emergency-stopped.
    pub open spec fn assignable(self, k: Seq<char>) -> bool {
        &&& !self.dead.contains(k)
        &&& (k == self.my_id || !(self.elevators[k].obstruction
            || self.elevators[k].emergency_stop))
    }

    /// The state handed to the hall request assigner: the same state with the records of
    /// elevators that cannot take orders left out.
    pub open spec fn assigner_input(self) -> SystemView {
        SystemView {
            elevators: Map::new(
                |k: Seq<char>| self.elevators.contains_key(k) && self.assignable(k),
                |k: Seq<char>| self.elevators[k],
            ),
            ..self
        }
    }

    /// The `i`-th button lamp command of [`SystemView::lamps`].
    pub open spec fn lamp_at(self, i: int) -> ButtonLight {
        if i < 2 * NUM_FLOORS {
            ButtonLight {
                floor: (i / 2) as u8,
                button: if i % 2 == 0 {
                    OrderType::HallUp
                } else {
                    OrderType::HallDown
                },
                on: self.request(i / 2, i % 2),
            }
        } else {
            ButtonLight {
                floor: (i - 2 * NUM_FLOORS) as u8,
                button: OrderType::Cab,
                on: self.own().cab_requests[i - 2 * NUM_FLOORS],
            }
        }
    }

    /// The button lamp commands: for each floor the hall-up and hall-down lamps, then for
    /// each floor this node's cab lamp.
    pub open spec fn lamps(self) -> Seq<ButtonLight> {
        Seq::new((3 * NUM_FLOORS) as nat, |i: int| self.lamp_at(i))
    }

    /// After `add_order(floor, order)`.
    pub open spec fn order_added(self, floor: u8, order: OrderType) -> SystemView {
        if floor >= NUM_FLOORS {
            self
        } else {
            let s = self.listed();
            if s.own().emergency_stop {
                s
            } else if order == OrderType::Cab {
                s.with_own(s.own().with_cab_request(floor))
            } else {
                let d = hall_slot(order);
                if s.request(floor as int, d) {
                    s
                } else {
                    s.with_slot(floor as int, d, true, next_count(s.epoch(floor as int, d)))
                }
            }
        }
    }

    /// After `clear_order(floor)`: the cab request at the floor is cleared, and the hall
    /// request in the car's direction (both ways when it has none, up first) with its epoch
    /// advanced by two.
    pub open spec fn order_cleared(self, floor: u8) -> SystemView {
        if floor >= NUM_FLOORS {
            self
        } else {
            let f = floor as int;
            let s = self.listed();
            let s1 = s.with_own(s.own().without_cab_request(floor));
            let dir = s1.own().direction;
            let clear_up = s1.request(f, HALLUP as int) && (dir == Direction::Up || dir
                == Direction::Stop);
            let clear_down = s1.request(f, HALLDOWN as int) && (dir == Direction::Down || (dir
                == Direction::Stop && !s1.request(f, HALLUP as int)));
            let s2 = if clear_up {
                s1.with_slot(f, HALLUP as int, false, s1.epoch(f, HALLUP as int).saturating_add(2))
            } else {
                s1
            };
            if clear_down {
                s2.with_slot(
                    f,
                    HALLDOWN as int,
                    false,
                    s2.epoch(f, HALLDOWN as int).saturating_add(2),
                )
            } else {
                s2
            }
        }
    }
}

/// A command to switch one button lamp on or off.
#[derive(Debug, Clone, Copy, PartialEq, Eq, Structural)]
pub struct ButtonLight {
    pub floor: u8,
    pub button: OrderType,
    pub on: bool,
}

/// The elevator records that a list of `(identifier, state)` pairs stands for; a later pair
/// for the same identifier replaces an earlier one.
pub open spec fn records_map(records: Seq<(String, ElevatorState)>) -> Map<Seq<char>, ElevatorView>
    decreases records.len(),
{
    if records.len() == 0 {
        Map::empty()
    } else {
        records_map(records.drop_last()).insert(records.last().0@, records.last().1@)
    }
}

/// The record of one peer elevator.
#[derive(Debug, Clone)]
struct PeerRecord {
    id: String,
    state: ElevatorState,
}

/// Identifiers in a list of records are pairwise distinct.
spec fn distinct_ids(peers: Seq<PeerRecord>) -> bool {
    forall|i: int, j: int|
        0 <= i < peers.len() && 0 <= j < peers.len() && i != j ==> #[trigger] peers[i].id@
            != #[trigger] peers[j].id@
}

spec fn has_peer(peers: Seq<PeerRecord>, k: Seq<char>) -> bool {
    exists|i: int| 0 <= i < peers.len() && #[trigger] peers[i].id@ == k
}

/// The map from identifier to state that a list of records stands for.
spec fn peer_map(peers: Seq<PeerRecord>) -> Map<Seq<char>, ElevatorView> {
    Map::new(
        |k: Seq<char>| has_peer(peers, k),
        |k: Seq<char>| peers[choose|i: int| 0 <= i < peers.len() && #[trigger] peers[i].id@ == k].state@,
    )
}

/// Strings in a list are pairwise distinct.
spec fn distinct_strings(s: Seq<String>) -> bool {
    forall|i: int, j: int|
        0 <= i < s.len() && 0 <= j < s.len() && i != j ==> #[trigger] s[i]@ != #[trigger] s[j]@
}

/// The set of strings in a list.
spec fn string_set(s: Seq<String>) -> Set<Seq<char>> {
    Set::new(|k: Seq<char>| exists|i: int| 0 <= i < s.len() && #[trigger] s[i]@ == k)
}

proof fn lemma_peer_lookup(peers: Seq<PeerRecord>, i: int)
    requires
        distinct_ids(peers),
        0 <= i < peers.len(),
    ensures
        peer_map(peers).contains_key(peers[i].id@),
        peer_map(peers)[peers[i].id@] == peers[i].state@,
{
    let k = peers[i].id@;
    assert(has_peer(peers, k));
    let j = choose|j: int| 0 <= j < peers.len() && #[trigger] peers[j].id@ == k;
    assert(j == i);
}

proof fn lemma_peer_set(peers: Seq<PeerRecord>, i: int, rec: PeerRecord)
    requires
        distinct_ids(peers),
        0 <= i < peers.len(),
        rec.id@ == peers[i].id@,
    ensures
        distinct_ids(peers.update(i, rec)),
        peer_map(peers.update(i, rec)) == peer_map(peers).insert(rec.id@, rec.state@),
{
    let p2 = peers.update(i, rec);
    assert(distinct_ids(p2)) by {
        assert forall|a: int, b: int|
            0 <= a < p2.len() && 0 <= b < p2.len() && a != b implies #[trigger] p2[a].id@
            != #[trigger] p2[b].id@ by {
            assert(peers[a].id@ == p2[a].id@);
            assert(peers[b].id@ == p2[b].id@);
        }
    }
    let m = peer_map(peers).insert(rec.id@, rec.state@);
    assert forall|k: Seq<char>| #[trigger] peer_map(p2).contains_key(k) == m.contains_key(k) by {
        if has_peer(p2, k) {
            let j = choose|j: int| 0 <= j < p2.len() && #[trigger] p2[j].id@ == k;
            assert(peers[j].id@ == k);
        }
        if has_peer(peers, k) {
            let j = choose|j: int| 0 <= j < peers.len() && #[trigger] peers[j].id@ == k;
            assert(p2[j].id@ == k);
        }
    }
    assert forall|k: Seq<char>| #[trigger] peer_map(p2).contains_key(k) implies peer_map(p2)[k]
        == m[k] by {
        let j = choose|j: int| 0 <= j < p2.len() && #[trigger] p2[j].id@ == k;
        lemma_peer_lookup(p2, j);
        if j != i {
            lemma_peer_lookup(peers, j);
        }
    }
    assert(peer_map(p2) =~= m);
}

proof fn lemma_peer_push(peers: Seq<PeerRecord>, rec: PeerRecord)
    requires
        distinct_ids(peers),
        !has_peer(peers, rec.id@),
    ensures
        distinct_ids(peers.push(rec)),
        peer_map(peers.push(rec)) == peer_map(peers).insert(rec.id@, rec.state@),
{
    let p2 = peers.push(rec);
    let n = peers.len() as int;
    assert(distinct_ids(p2)) by {
        assert forall|a: int, b: int|
            0 <= a < p2.len() && 0 <= b < p2.len() && a != b implies #[trigger] p2[a].id@
            != #[trigger] p2[b].id@ by {
            if a < n && b < n {
                assert(peers[a].id@ == p2[a].id@);
                assert(peers[b].id@ == p2[b].id@);
            } else if a < n {
                assert(peers[a].id@ == p2[a].id@);
            } else if b < n {
                assert(peers[b].id@ == p2[b].id@);
            }
        }
    }
    let m = peer_map(peers).insert(rec.id@, rec.state@);
    assert forall|k: Seq<char>| #[trigger] peer_map(p2).contains_key(k) == m.contains_key(k) by {
        if has_peer(p2, k) {
            let j = choose|j: int| 0 <= j < p2.len() && #[trigger] p2[j].id@ == k;
            if j < n {
                assert(peers[j].id@ == k);
            }
        }
        if has_peer(peers, k) {
            let j = choose|j: int| 0 <= j < peers.len() && #[trigger] peers[j].id@ == k;
            assert(p2[j].id@ == k);
        }
        if k == rec.id@ {
            assert(p2[n].id@ == k);
        }
    }
    assert forall|k: Seq<char>| #[trigger] peer_map(p2).contains_key(k) implies peer_map(p2)[k]
        == m[k] by {
        let j = choose|j: int| 0 <= j < p2.len() && #[trigger] p2[j].id@ == k;
        lemma_peer_lookup(p2, j);
        if j < n {
            assert(peers[j] == p2[j]);
            lemma_peer_lookup(peers, j);
        }
    }
    assert(peer_map(p2) =~= m);
}

proof fn lemma_peer_remove(peers: Seq<PeerRecord>, i: int)
    requires
        distinct_ids(peers),
        0 <= i < peers.len(),
    ensures
        distinct_ids(peers.remove(i)),
        peer_map(peers.remove(i)) == peer_map(peers).remove(peers[i].id@),
        forall|k: Seq<char>| has_peer(peers.remove(i), k) ==> has_peer(peers, k),
{
    let p2 = peers.remove(i);
    let old_at = |a: int| if a < i { a } else { a + 1 };
    assert forall|a: int| 0 <= a < p2.len() implies #[trigger] p2[a] == peers[old_at(a)] by {}
    assert(distinct_ids(p2)) by {
        assert forall|a: int, b: int|
            0 <= a < p2.len() && 0 <= b < p2.len() && a != b implies #[trigger] p2[a].id@
            != #[trigger] p2[b].id@ by {
            assert(p2[a] == peers[old_at(a)]);
            assert(p2[b] == peers[old_at(b)]);
        }
    }
    let m = peer_map(peers).remove(peers[i].id@);
    assert forall|k: Seq<char>| #[trigger] has_peer(p2, k) implies has_peer(peers, k) by {
        let j = choose|j: int| 0 <= j < p2.len() && #[trigger] p2[j].id@ == k;
        assert(p2[j] == peers[old_at(j)]);
    }
    assert forall|k: Seq<char>| #[trigger] peer_map(p2).contains_key(k) == m.contains_key(k) by {
        if has_peer(p2, k) {
            let j = choose|j: int| 0 <= j < p2.len() && #[trigger] p2[j].id@ == k;
            assert(p2[j] == peers[old_at(j)]);
            assert(peers[old_at(j)].id@ == k);
        }
        if has_peer(peers, k) && k != peers[i].id@ {
            let j = choose|j: int| 0 <= j < peers.len() && #[trigger] peers[j].id@ == k;
            if j < i {
                assert(p2[j].id@ == k);
            } else {
                assert(p2[j - 1] == peers[j]);
                assert(p2[j - 1].id@ == k);
            }
        }
    }
    assert forall|k: Seq<char>| #[trigger] peer_map(p2).contains_key(k) implies peer_map(p2)[k]
        == m[k] by {
        let j = choose|j: int| 0 <= j < p2.len() && #[trigger] p2[j].id@ == k;
        lemma_peer_lookup(p2, j);
        assert(p2[j] == peers[old_at(j)]);
        lemma_peer_lookup(peers, old_at(j));
    }
    assert(peer_map(p2) =~= m);
}

proof fn lemma_string_push(s: Seq<String>, x: String)
    requires
        distinct_strings(s),
        !string_set(s).contains(x@),
    ensures
        distinct_strings(s.push(x)),
        string_set(s.push(x)) == string_set(s).insert(x@),
{
    let s2 = s.push(x);
    let n = s.len() as int;
    assert forall|a: int, b: int|
        0 <= a < s2.len() && 0 <= b < s2.len() && a != b implies #[trigger] s2[a]@
        != #[trigger] s2[b]@ by {
        if a < n {
            assert(s2[a] == s[a]);
        }
        if b < n {
            assert(s2[b] == s[b]);
        }
    }
    assert forall|k: Seq<char>| #[trigger] string_set(s2).contains(k) == string_set(s).insert(
        x@,
    ).contains(k) by {
        if string_set(s2).contains(k) {
            let j = choose|j: int| 0 <= j < s2.len() && #[trigger] s2[j]@ == k;
            if j < n {
                assert(s[j]@ == k);
            }
        }
        if string_set(s).contains(k) {
            let j = choose|j: int| 0 <= j < s.len() && #[trigger] s[j]@ == k;
            assert(s2[j]@ == k);
        }
        if k == x@ {
            assert(s2[n]@ == k);
        }
    }
    assert(string_set(s2) =~= string_set(s).insert(x@));
}

proof fn lemma_string_remove(s: Seq<String>, i: int)
    requires
        distinct_strings(s),
        0 <= i < s.len(),
    ensures
        distinct_strings(s.remove(i)),
        string_set(s.remove(i)) == string_set(s).remove(s[i]@),
{
    let s2 = s.remove(i);
    let old_at = |a: int| if a < i { a } else { a + 1 };
    assert forall|a: int| 0 <= a < s2.len() implies #[trigger] s2[a] == s[old_at(a)] by {}
    assert forall|a: int, b: int|
        0 <= a < s2.len() && 0 <= b < s2.len() && a != b implies #[trigger] s2[a]@
        != #[trigger] s2[b]@ by {
        assert(s2[a] == s[old_at(a)]);
        assert(s2[b] == s[old_at(b)]);
    }
    assert forall|k: Seq<char>| #[trigger] string_set(s2).contains(k) == string_set(s).remove(
        s[i]@,
    ).contains(k) by {
        if string_set(s2).contains(k) {
            let j = choose|j: int| 0 <= j < s2.len() && #[trigger] s2[j]@ == k;
            assert(s2[j] == s[old_at(j)]);
        }
        if string_set(s).contains(k) && k != s[i]@ {
            let j = choose|j: int| 0 <= j < s.len() && #[trigger] s[j]@ == k;
            if j < i {
                assert(s2[j]@ == k);
            } else {
                assert(s2[j - 1] == s[j]);
                assert(s2[j - 1]@ == k);
            }
        }
    }
    assert(string_set(s2) =~= string_set(s).remove(s[i]@));
}

/// Taking in one more record of `b` extends the partial merge by that record.
proof fn lemma_absorb_step(a: SystemView, b: SystemView, done: Set<Seq<char>>, k: Seq<char>)
    requires
        !done.contains(k),
        b.elevators.contains_key(k),
    ensures
        ({
            let cur = SystemView { elevators: a.merged_elevators_on(b, done), ..a };
            &&& cur.takes_record(k) == a.takes_record(k)
            &&& cur.absorbed_entry(k, b.elevators[k]) == a.absorbed_entry(k, b.elevators[k])
            &&& cur.record_changes(k, b.elevators[k]) == a.record_changes(k, b.elevators[k])
            &&& a.merged_elevators_on(b, done.insert(k)) == (if cur.takes_record(k) {
                cur.elevators.insert(k, cur.absorbed_entry(k, b.elevators[k]))
            } else {
                cur.elevators
            })
        }),
{
    let cur = SystemView { elevators: a.merged_elevators_on(b, done), ..a };
    assert(cur.elevators.contains_key(k) == a.elevators.contains_key(k));
    assert(cur.elevators.contains_key(k) ==> cur.elevators[k] == a.elevators[k]);
    assert(cur.own() == a.own() || k != a.my_id);
    let target = if cur.takes_record(k) {
        cur.elevators.insert(k, cur.absorbed_entry(k, b.elevators[k]))
    } else {
        cur.elevators
    };
    assert(a.merged_elevators_on(b, done.insert(k)) =~= target);
}

/// Whether a record changes a state does not depend on the boot identifier that a missing
/// own record would take.
proof fn lemma_record_changes_booted(v: SystemView, boot: u64, k: Seq<char>, e: ElevatorView)
    ensures
        v.booted_as(boot).record_changes(k, e) == v.record_changes(k, e),
{
    if !v.elevators.contains_key(v.my_id) {
        assert(v.booted_as(boot).own().cab_requests == v.own().cab_requests);
    }
}

/// Taking in one more record of `b` extends the partial merge by that record, also when the
/// step creates this node's own record with the boot identifier `b1`.
proof fn lemma_absorb_step_booted(
    a0: SystemView,
    b: SystemView,
    done: Set<Seq<char>>,
    k: Seq<char>,
    b0: u64,
    b1: u64,
)
    requires
        !done.contains(k),
        b.elevators.contains_key(k),
        a0.booted_as(b0).merged_elevators_on(b, done).contains_key(a0.my_id) ==> b1 == b0,
    ensures
        ({
            let cur = SystemView {
                elevators: a0.booted_as(b0).merged_elevators_on(b, done),
                ..a0.booted_as(b0)
            };
            let c1 = cur.booted_as(b1);
            let a1 = a0.booted_as(b1);
            &&& c1 == (SystemView { elevators: a1.merged_elevators_on(b, done), ..a1 })
            &&& cur.record_changes(k, b.elevators[k]) == a0.record_changes(k, b.elevators[k])
            &&& a1.merged_elevators_on(b, done.insert(k)) == (if c1.takes_record(k) {
                SystemView {
                    elevators: c1.elevators.insert(k, c1.absorbed_entry(k, b.elevators[k])),
                    ..c1
                }
            } else {
                c1
            }).elevators
        }),
{
    let a00 = a0.booted_as(b0);
    let cur = SystemView { elevators: a00.merged_elevators_on(b, done), ..a00 };
    let c1 = cur.booted_as(b1);
    let a1 = a0.booted_as(b1);
    lemma_absorb_step(a00, b, done, k);
    lemma_record_changes_booted(a0, b0, k, b.elevators[k]);
    if cur.elevators.contains_key(a0.my_id) {
        assert(b1 == b0);
        assert(c1 == cur);
        assert(a1 == a00);
    } else {
        assert(!a0.elevators.contains_key(a0.my_id));
        assert(a00.merged_elevators_on(b, done) =~= a1.merged_elevators_on(b, done));
        assert(c1 =~= (SystemView { elevators: a1.merged_elevators_on(b, done), ..a1 }));
    }
    lemma_absorb_step(a1, b, done, k);
}

/// Setting one hall slot leaves every other slot as it was.
proof fn lemma_with_slot(v: SystemView, floor: int, dir: int, request: bool, epoch: u64)
    requires
        v.well_shaped(),
        0 <= floor < NUM_FLOORS,
        0 <= dir < 2,
    ensures
        v.with_slot(floor, dir, request, epoch).well_shaped(),
        forall|g: int, d: int|
            0 <= g < NUM_FLOORS && 0 <= d < 2 ==> #[trigger] v.with_slot(floor, dir, request, epoch).request(g, d)
                == (if g == floor && d == dir {
                request
            } else {
                v.request(g, d)
            }) && v.with_slot(floor, dir, request, epoch).epoch(g, d) == (if g == floor && d
                == dir {
                epoch
            } else {
                v.epoch(g, d)
            }),
{
    let w = v.with_slot(floor, dir, request, epoch);
    assert forall|f: int| 0 <= f < NUM_FLOORS implies #[trigger] w.hall_requests[f].len() == 2 by {
        if f != floor {
            assert(w.hall_requests[f] == v.hall_requests[f]);
        }
    }
    assert forall|f: int| 0 <= f < NUM_FLOORS implies #[trigger] w.hall_epoch[f].len() == 2 by {
        if f != floor {
            assert(w.hall_epoch[f] == v.hall_epoch[f]);
        }
    }
}

/// The replicated state of the whole system as seen by one node.
#[derive(Debug, Clone)]
pub struct SystemState {
    my_id: String,
    own: ElevatorState,
    own_listed: bool,
    own_boot_id: u64,
    process_id: u32,
    peers: Vec<PeerRecord>,
    hall_requests: [[bool; 2]; NUM_FLOORS],
    hall_epoch: [[u64; 2]; NUM_FLOORS],
    dead_elevators: Vec<String>,
    sync_complete: bool,
}

impl View for SystemState {
    type V = SystemView;

    closed spec fn view(&self) -> SystemView {
        SystemView {
            my_id: self.my_id@,
            elevators: if self.own_listed {
                peer_map(self.peers@).insert(self.my_id@, self.own@)
            } else {
                peer_map(self.peers@)
            },
            boot_id: self.own_boot_id,
            process_id: self.process_id,
            hall_requests: Seq::new(NUM_FLOORS as nat, |f: int| self.hall_requests[f]@),
            hall_epoch: Seq::new(NUM_FLOORS as nat, |f: int| self.hall_epoch[f]@),
            dead: string_set(self.dead_elevators@),
            sync_complete: self.sync_complete,
        }
    }
}

impl SystemState {
    /// The internal invariant: peer identifiers distinct and different from this node's,
    /// dead identifiers distinct and never this node's.
    pub closed spec fn wf(&self) -> bool {
        &&& distinct_ids(self.peers@)
        &&& !has_peer(self.peers@, self.my_id@)
        &&& distinct_strings(self.dead_elevators@)
        &&& !string_set(self.dead_elevators@).contains(self.my_id@)
    }

    /// The well-formed view facts that every valid state has.
    pub proof fn lemma_shape(&self)
        requires
            self.wf(),
        ensures
            self@.well_shaped(),
    {
        assert forall|f: int| 0 <= f < NUM_FLOORS implies #[trigger] self@.hall_requests[f].len()
            == 2 by {}
        assert forall|f: int| 0 <= f < NUM_FLOORS implies #[trigger] self@.hall_epoch[f].len()
            == 2 by {}
        assert forall|k: Seq<char>| self@.elevators.contains_key(k) implies #[trigger] self@.elevators[k].cab_requests.len()
            == NUM_FLOORS by {
            if !(self.own_listed && k == self.my_id@) {
                let j = choose|j: int| 0 <= j < self.peers@.len() && #[trigger] self.peers@[j].id@ == k;
                lemma_peer_lookup(self.peers@, j);
            }
        }
    }

    /// A node's initial state: its own fresh elevator record, with a boot identifier read from
    /// the clock for the process `process_id`, and no hall requests.
    pub fn new(id: &str, process_id: u32) -> (s: SystemState)
        ensures
            s.wf(),
            s@.my_id == id@,
            s@.elevators == Map::<Seq<char>, ElevatorView>::empty().insert(
                id@,
                fresh_elevator(s@.boot_id),
            ),
            s@.process_id == process_id,
            exists|secs: u64, nanos: u32|
                nanos < 1_000_000_000 && s@.boot_id == #[trigger] boot_id_of(secs, nanos, process_id),
            forall|f: int, d: int|
                0 <= f < NUM_FLOORS && valid_dir(d) ==> !#[trigger] s@.request(f, d) && s@.epoch(
                    f,
                    d,
                ) == 0,
            s@.dead == Set::<Seq<char>>::empty(),
            !s@.sync_complete,
            s@.well_shaped(),
    {
        let boot_id = new_boot_id(process_id);
        let s = SystemState {
            my_id: id.to_owned(),
            own: ElevatorState::new(boot_id),
            own_listed: true,
            own_boot_id: boot_id,
            process_id,
            peers: Vec::new(),
            hall_requests: [[false; 2]; NUM_FLOORS],
            hall_epoch: [[0; 2]; NUM_FLOORS],
            dead_elevators: Vec::new(),
            sync_complete: false,
        };
        proof {
            assert(peer_map(s.peers@) =~= Map::<Seq<char>, ElevatorView>::empty());
            assert(string_set(s.dead_elevators@) =~= Set::<Seq<char>>::empty());
            s.lemma_shape();
        }
        s
    }

    pub fn mark_sync_complete(&mut self)
        requires
            old(self).wf(),
        ensures
            final(self).wf(),
            final(self)@ == (SystemView { sync_complete: true, ..old(self)@ }),
    {
        self.sync_complete = true;
    }

    /// This node's own elevator state, for reading and changing it in place.
    /// The record is created anew, with a boot identifier read from the clock, if it had been
    /// removed.
    pub fn get_my_state(&mut self) -> (r: &mut ElevatorState)
        requires
            old(self).wf(),
        ensures
            r@ == old(self)@.booted_as(final(self)@.boot_id).own(),
            final(self).wf(),
            final(self)@ == old(self)@.booted_as(final(self)@.boot_id).with_own(final(r)@),
            boot_id_from(old(self)@, final(self)@),
    {
        if !self.own_listed {
            let b = new_boot_id(self.process_id);
            self.own = ElevatorState::new(b);
            self.own_boot_id = b;
            self.own_listed = true;
        }
        &mut self.own
    }

    pub fn get_my_id(&self) -> (id: String)
        ensures
            id@ == self@.my_id,
    {
        self.my_id.clone()
    }

    /// Position of the peer record with identifier `id`.
    fn find_peer(&self, id: &String) -> (r: Option<usize>)
        ensures
            match r {
                Some(i) => i < self.peers@.len() && self.peers@[i as int].id@ == id@,
                None => !has_peer(self.peers@, id@),
            },
    {
        let mut i: usize = 0;
        while i < self.peers.len()
            invariant
                i <= self.peers@.len(),
                forall|j: int| 0 <= j < i ==> #[trigger] self.peers@[j].id@ != id@,
            decreases self.peers@.len() - i,
        {
            if self.peers[i].id == *id {
                return Some(i);
            }
            i = i + 1;
        }
        None
    }

    /// Position of `id` in the list of dead peers.
    fn find_dead(&self, id: &String) -> (r: Option<usize>)
        ensures
            match r {
                Some(i) => i < self.dead_elevators@.len() && self.dead_elevators@[i as int]@
                    == id@,
                None => !string_set(self.dead_elevators@).contains(id@),
            },
    {
        let mut i: usize = 0;
        while i < self.dead_elevators.len()
            invariant
                i <= self.dead_elevators@.len(),
                forall|j: int| 0 <= j < i ==> #[trigger] self.dead_elevators@[j]@ != id@,
            decreases self.dead_elevators@.len() - i,
        {
            if self.dead_elevators[i] == *id {
                return Some(i);
            }
            i = i + 1;
        }
        None
    }

    /// Marks a peer as dead; this node itself is never marked.
    pub fn peer_lost(&mut self, id: &str)
        requires
            old(self).wf(),
        ensures
            final(self).wf(),
            final(self)@ == (if id@ == old(self)@.my_id {
                old(self)@
            } else {
                SystemView { dead: old(self)@.dead.insert(id@), ..old(self)@ }
            }),
    {
        let key = id.to_owned();
        if key == self.my_id {
            return;
        }
        match self.find_dead(&key) {
            Some(_) => {
                proof {
                    assert(string_set(self.dead_elevators@).insert(id@) =~= string_set(
                        self.dead_elevators@,
                    ));
                }
            },
            None => {
                proof {
                    lemma_string_push(self.dead_elevators@, key);
                }
                self.dead_elevators.push(key);
            },
        }
    }

    /// Marks a peer as alive again.
    pub fn peer_new(&mut self, id: &str)
        requires
            old(self).wf(),
        ensures
            final(self).wf(),
            final(self)@ == (if id@ == old(self)@.my_id {
                old(self)@
            } else {
                SystemView { dead: old(self)@.dead.remove(id@), ..old(self)@ }
            }),
    {
        let key = id.to_owned();
        if key == self.my_id {
            return;
        }
        match self.find_dead(&key) {
            Some(i) => {
                proof {
                    lemma_string_remove(self.dead_elevators@, i as int);
                }
                self.dead_elevators.remove(i);
            },
            None => {
                proof {
                    assert(string_set(self.dead_elevators@).remove(id@) =~= string_set(
                        self.dead_elevators@,
                    ));
                }
            },
        }
    }

    /// The peers currently considered dead, each once.
    pub fn get_dead_elevators(&self) -> (dead: &Vec<String>)
        requires
            self.wf(),
        ensures
            forall|k: Seq<char>|
                self@.dead.contains(k) <==> exists|i: int|
                    0 <= i < dead@.len() && #[trigger] dead@[i]@ == k,
            forall|i: int, j: int|
                0 <= i < dead@.len() && 0 <= j < dead@.len() && i != j ==> #[trigger] dead@[i]@
                    != #[trigger] dead@[j]@,
    {
        &self.dead_elevators
    }

    /// Forgets the record of an elevator.
    pub fn remove_elevator_record(&mut self, id: &str)
        requires
            old(self).wf(),
        ensures
            final(self).wf(),
            final(self)@ == (SystemView {
                elevators: old(self)@.elevators.remove(id@),
                ..old(self)@
            }),
    {
        let key = id.to_owned();
        if key == self.my_id {
            self.own_listed = false;
            proof {
                assert(peer_map(self.peers@) =~= peer_map(self.peers@).insert(
                    self.my_id@,
                    self.own@,
                ).remove(id@));
                assert(peer_map(self.peers@) =~= peer_map(self.peers@).remove(id@));
            }
            return;
        }
        match self.find_peer(&key) {
            Some(i) => {
                proof {
                    lemma_peer_remove(self.peers@, i as int);
                    assert(peer_map(self.peers@).remove(id@).insert(self.my_id@, self.own@)
                        =~= peer_map(self.peers@).insert(self.my_id@, self.own@).remove(id@));
                }
                self.peers.remove(i);
            },
            None => {
                proof {
                    assert(peer_map(self.peers@).remove(id@) =~= peer_map(self.peers@));
                    assert(peer_map(self.peers@).insert(self.my_id@, self.own@).remove(id@)
                        =~= peer_map(self.peers@).insert(self.my_id@, self.own@));
                }
            },
        }
    }

    /// The identifiers of all known elevators, each once.
    pub fn get_elevator_ids(&self) -> (ids: Vec<String>)
        requires
            self.wf(),
        ensures
            forall|k: Seq<char>|
                self@.elevators.contains_key(k) <==> exists|i: int|
                    0 <= i < ids@.len() && #[trigger] ids@[i]@ == k,
            forall|i: int, j: int|
                0 <= i < ids@.len() && 0 <= j < ids@.len() && i != j ==> #[trigger] ids@[i]@
                    != #[trigger] ids@[j]@,
    {
        let mut ids: Vec<String> = Vec::new();
        let ghost first: int = if self.own_listed { 1 } else { 0 };
        if self.own_listed {
            ids.push(self.my_id.clone());
        }
        let mut i: usize = 0;
        while i < self.peers.len()
            invariant
                self.wf(),
                i <= self.peers@.len(),
                first == (if self.own_listed { 1int } else { 0int }),
                ids@.len() == first + i,
                self.own_listed ==> ids@[0]@ == self.my_id@,
                forall|j: int| 0 <= j < i ==> ids@[first + j]@ == #[trigger] self.peers@[j].id@,
            decreases self.peers@.len() - i,
        {
            ids.push(self.peers[i].id.clone());
            i = i + 1;
        }
        proof {
            assert forall|k: Seq<char>|
                self@.elevators.contains_key(k) <==> exists|a: int|
                    0 <= a < ids@.len() && #[trigger] ids@[a]@ == k by {
                if has_peer(self.peers@, k) {
                    let j = choose|j: int| 0 <= j < self.peers@.len() && #[trigger] self.peers@[j].id@ == k;
                    assert(ids@[first + j]@ == k);
                }
                if self.own_listed && k == self.my_id@ {
                    assert(ids@[0]@ == k);
                }
                if exists|a: int| 0 <= a < ids@.len() && #[trigger] ids@[a]@ == k {
                    let a = choose|a: int| 0 <= a < ids@.len() && #[trigger] ids@[a]@ == k;
                    if a >= first {
                        assert(self.peers@[a - first].id@ == k);
                    }
                }
            }
            assert forall|a: int, b: int|
                0 <= a < ids@.len() && 0 <= b < ids@.len() && a != b implies #[trigger] ids@[a]@
                != #[trigger] ids@[b]@ by {
                if a >= first {
                    assert(ids@[a]@ == self.peers@[a - first].id@);
                }
                if b >= first {
                    assert(ids@[b]@ == self.peers@[b - first].id@);
                }
            }
        }
        ids
    }

    /// The state of the elevator with identifier `id`, if known.
    pub fn get_elevator_state(&self, id: &str) -> (st: Option<&ElevatorState>)
        requires
            self.wf(),
        ensures
            st is Some <==> self@.elevators.contains_key(id@),
            st matches Some(e) ==> e@ == self@.elevators[id@],
    {
        let key = id.to_owned();
        if key == self.my_id {
            if self.own_listed {
                return Some(&self.own);
            } else {
                return None;
            }
        }
        match self.find_peer(&key) {
            Some(i) => {
                proof {
                    lemma_peer_lookup(self.peers@, i as int);
                }
                Some(&self.peers[i].state)
            },
            None => None,
        }
    }

    /// Sets one hall request slot and its epoch.
    fn set_slot(&mut self, floor: usize, dir: usize, request: bool, epoch: u64)
        requires
            old(self).wf(),
            floor < NUM_FLOORS,
            dir < 2,
        ensures
            final(self).wf(),
            final(self)@ == old(self)@.with_slot(floor as int, dir as int, request, epoch),
    {
        let mut row = self.hall_requests[floor];
        row[dir] = request;
        self.hall_requests[floor] = row;
        let mut erow = self.hall_epoch[floor];
        erow[dir] = epoch;
        self.hall_epoch[floor] = erow;
        proof {
            let o = old(self)@;
            let t = o.with_slot(floor as int, dir as int, request, epoch);
            assert(self@.hall_requests =~~= t.hall_requests);
            assert(self@.hall_epoch =~~= t.hall_epoch);
        }
    }

    /// Records that the car has reached `floor`.
    pub fn arrive_at_floor(&mut self, floor: u8)
        requires
            old(self).wf(),
        ensures
            final(self).wf(),
            final(self)@ == old(self)@.booted_as(final(self)@.boot_id).with_own(
                old(self)@.booted_as(final(self)@.boot_id).own().arrived_at(floor),
            ),
            boot_id_from(old(self)@, final(self)@),
    {
        let local_state = self.get_my_state();
        local_state.set_floor(floor);
    }

    /// Takes an order from a button at `floor`: a cab order is added to this node's own
    /// requests, a hall order is raised with its epoch advanced. Orders at floors outside
    /// the building, and all orders during an emergency stop, are ignored.
    pub fn add_order(&mut self, floor: u8, order: OrderType)
        requires
            old(self).wf(),
        ensures
            final(self).wf(),
            final(self)@ == old(self)@.booted_as(final(self)@.boot_id).order_added(floor, order),
            boot_id_from(old(self)@, final(self)@),
    {
        if (floor as usize) >= NUM_FLOORS {
            return;
        }
        let stopped = self.get_my_state().is_emergency_stop();
        if stopped {
            return;
        }
        let f = floor as usize;
        match order {
            OrderType::Cab => {
                let local_state = self.get_my_state();
                local_state.add_cab_request(floor);
            },
            OrderType::HallUp => {
                if !self.hall_requests[f][HALLUP] {
                    let e = self.hall_epoch[f][HALLUP].saturating_add(1);
                    self.set_slot(f, HALLUP, true, e);
                }
            },
            OrderType::HallDown => {
                if !self.hall_requests[f][HALLDOWN] {
                    let e = self.hall_epoch[f][HALLDOWN].saturating_add(1);
                    self.set_slot(f, HALLDOWN, true, e);
                }
            },
        }
    }

    /// Takes in another node's record `(id, e)`.
    fn merge_record(&mut self, id: &String, e: &ElevatorState) -> (changed: bool)
        requires
            old(self).wf(),
        ensures
            final(self).wf(),
            ({
                let a = old(self)@.booted_as(final(self)@.boot_id);
                final(self)@ == (if a.takes_record(id@) {
                    SystemView {
                        elevators: a.elevators.insert(id@, a.absorbed_entry(id@, e@)),
                        ..a
                    }
                } else {
                    a
                })
            }),
            changed == old(self)@.record_changes(id@, e@),
            boot_id_from(old(self)@, final(self)@),
    {
        if *id == self.my_id {
            if !self.sync_complete {
                let local_state = self.get_my_state();
                return local_state.recover_from_backup(e);
            }
            return false;
        }
        if self.find_dead(id).is_some() {
            return false;
        }
        match self.find_peer(id) {
            None => {
                let rec = PeerRecord { id: id.clone(), state: *e };
                proof {
                    lemma_peer_push(self.peers@, rec);
                    assert(peer_map(self.peers@).insert(id@, e@).insert(self.my_id@, self.own@)
                        =~= peer_map(self.peers@).insert(self.my_id@, self.own@).insert(
                        id@,
                        e@,
                    ));
                }
                self.peers.push(rec);
                proof {
                    assert(!has_peer(self.peers@, self.my_id@)) by {
                        if has_peer(self.peers@, self.my_id@) {
                            let j = choose|j: int|
                                0 <= j < self.peers@.len() && #[trigger] self.peers@[j].id@
                                    == self.my_id@;
                            if j < self.peers@.len() - 1 {
                                assert(has_peer(old(self).peers@, self.my_id@));
                            }
                        }
                    }
                }
                true
            },
            Some(i) => {
                proof {
                    lemma_peer_lookup(self.peers@, i as int);
                }
                if e.is_newer_than(&self.peers[i].state) {
                    let rec = PeerRecord { id: id.clone(), state: *e };
                    proof {
                        lemma_peer_set(self.peers@, i as int, rec);
                        assert(peer_map(self.peers@).insert(id@, e@).insert(self.my_id@, self.own@)
                            =~= peer_map(self.peers@).insert(self.my_id@, self.own@).insert(
                            id@,
                            e@,
                        ));
                    }
                    self.peers.set(i, rec);
                    proof {
                        assert(!has_peer(self.peers@, self.my_id@)) by {
                            if has_peer(self.peers@, self.my_id@) {
                                let j = choose|j: int|
                                    0 <= j < self.peers@.len() && #[trigger] self.peers@[j].id@
                                        == self.my_id@;
                                assert(old(self).peers@[j].id@ == self.my_id@);
                            }
                        }
                    }
                    true
                } else {
                    proof {
                        assert(self@.elevators.insert(id@, self@.absorbed_entry(id@, e@))
                            =~= self@.elevators);
                    }
                    false
                }
            },
        }
    }

    /// Merges one hall slot with the same slot of `other`.
    fn merge_slot(&mut self, other: &SystemState, floor: usize, dir: usize) -> (changed: bool)
        requires
            old(self).wf(),
            other.wf(),
            floor < NUM_FLOORS,
            dir < 2,
        ensures
            final(self).wf(),
            ({
                let m = merged_slot(
                    old(self)@.request(floor as int, dir as int),
                    old(self)@.epoch(floor as int, dir as int),
                    old(self)@.can_clear(floor as int, dir as int),
                    other@.request(floor as int, dir as int),
                    other@.epoch(floor as int, dir as int),
                    other@.can_clear(floor as int, dir as int),
                );
                &&& final(self)@ == old(self)@.with_slot(floor as int, dir as int, m.0, m.1)
                &&& changed == (m != (
                    old(self)@.request(floor as int, dir as int),
                    old(self)@.epoch(floor as int, dir as int),
                ))
            }),
    {
        let self_epoch = self.hall_epoch[floor][dir];
        let other_epoch = other.hall_epoch[floor][dir];
        let request_self = self.hall_requests[floor][dir];
        let request_other = other.hall_requests[floor][dir];
        if other_epoch > self_epoch {
            let changed = self_epoch != other_epoch || request_self != request_other;
            self.set_slot(floor, dir, request_other, other_epoch);
            return changed;
        }
        if self_epoch > other_epoch {
            proof {
                assert(self@.with_slot(floor as int, dir as int, request_self, self_epoch).hall_requests =~~= self@.hall_requests);
                assert(self@.with_slot(floor as int, dir as int, request_self, self_epoch).hall_epoch =~~= self@.hall_epoch);
            }
            return false;
        }
        if request_self == request_other {
            proof {
                assert(self@.with_slot(floor as int, dir as int, request_self, self_epoch).hall_requests =~~= self@.hall_requests);
                assert(self@.with_slot(floor as int, dir as int, request_self, self_epoch).hall_epoch =~~= self@.hall_epoch);
            }
            return false;
        }
        let self_clear = !request_self && self.can_clear_order(floor, dir);
        let other_clear = !request_other && other.can_clear_order(floor, dir);
        let target = !(self_clear || other_clear);
        if request_self != target {
            self.set_slot(floor, dir, target, self_epoch);
            true
        } else {
            proof {
                assert(self@.with_slot(floor as int, dir as int, request_self, self_epoch).hall_requests =~~= self@.hall_requests);
                assert(self@.with_slot(floor as int, dir as int, request_self, self_epoch).hall_epoch =~~= self@.hall_epoch);
            }
            false
        }
    }

    /// The hall request table, `[floor][dir]` with `dir` 0 for up and 1 for down.
    pub fn hall_requests(&self) -> (r: [[bool; 2]; NUM_FLOORS])
        ensures
            forall|f: int, d: int|
                0 <= f < NUM_FLOORS && 0 <= d < 2 ==> #[trigger] r[f][d] == self@.request(f, d),
    {
        self.hall_requests
    }

    /// The hall epoch table, `[floor][dir]` with `dir` 0 for up and 1 for down.
    pub fn hall_epoch(&self) -> (r: [[u64; 2]; NUM_FLOORS])
        ensures
            forall|f: int, d: int|
                0 <= f < NUM_FLOORS && 0 <= d < 2 ==> #[trigger] r[f][d] == self@.epoch(f, d),
    {
        self.hall_epoch
    }

    /// The lamp state of every button; this node's own record is created if it was missing.
    pub fn update_lights(&mut self) -> (lights: Vec<ButtonLight>)
        requires
            old(self).wf(),
        ensures
            final(self).wf(),
            final(self)@ == old(self)@.booted_as(final(self)@.boot_id).listed(),
            lights@ == final(self)@.lamps(),
            boot_id_from(old(self)@, final(self)@),
    {
        let mut lights: Vec<ButtonLight> = Vec::new();
        let ghost v = self@;
        let mut floor: usize = 0;
        while floor < NUM_FLOORS
            invariant
                v == self@,
                floor <= NUM_FLOORS,
                lights@.len() == 2 * floor,
                forall|i: int| 0 <= i < 2 * floor ==> #[trigger] lights@[i] == v.lamp_at(i),
            decreases NUM_FLOORS - floor,
        {
            lights.push(
                ButtonLight {
                    floor: floor as u8,
                    button: OrderType::HallUp,
                    on: self.hall_requests[floor][HALLUP],
                },
            );
            lights.push(
                ButtonLight {
                    floor: floor as u8,
                    button: OrderType::HallDown,
                    on: self.hall_requests[floor][HALLDOWN],
                },
            );
            proof {
                let i = 2 * floor as int;
                assert(i / 2 == floor && i % 2 == 0);
                assert((i + 1) / 2 == floor && (i + 1) % 2 == 1);
            }
            floor = floor + 1;
        }
        let local_state = self.get_my_state();
        let ghost own = local_state@;
        let mut floor: usize = 0;
        while floor < NUM_FLOORS
            invariant
                own == local_state@,
                floor <= NUM_FLOORS,
                lights@.len() == 2 * NUM_FLOORS + floor,
                forall|i: int| 0 <= i < 2 * NUM_FLOORS ==> #[trigger] lights@[i] == v.lamp_at(i),
                forall|i: int|
                    2 * NUM_FLOORS <= i < 2 * NUM_FLOORS + floor ==> #[trigger] lights@[i]
                        == (ButtonLight {
                        floor: (i - 2 * NUM_FLOORS) as u8,
                        button: OrderType::Cab,
                        on: own.cab_requests[i - 2 * NUM_FLOORS],
                    }),
            decreases NUM_FLOORS - floor,
        {
            lights.push(
                ButtonLight {
                    floor: floor as u8,
                    button: OrderType::Cab,
                    on: local_state.get_cab_request(floor as u8),
                },
            );
            floor = floor + 1;
        }
        proof {
            let w = self@;
            assert(w.own() == own);
            assert forall|i: int| 0 <= i < 2 * NUM_FLOORS implies #[trigger] w.lamp_at(i) == v.lamp_at(i) by {
                assert(w.hall_requests == v.hall_requests);
            }
            assert(lights@ =~= w.lamps());
        }
        lights
    }

    /// The state handed to the hall request assigner: a copy without the records of dead
    /// peers and of peers that are obstructed or emergency-stopped.
    pub fn assigner_input(&self) -> (input: SystemState)
        requires
            self.wf(),
        ensures
            input.wf(),
            input@ == self@.assigner_input(),
    {
        let mut peers: Vec<PeerRecord> = Vec::new();
        let mut i: usize = 0;
        while i < self.peers.len()
            invariant
                self.wf(),
                i <= self.peers@.len(),
                distinct_ids(peers@),
                forall|k: Seq<char>| #[trigger] has_peer(peers@, k) ==> has_peer(self.peers@, k),
                peer_map(peers@) == Map::new(
                    |k: Seq<char>| peer_map(self.peers@.take(i as int)).contains_key(k) && self@.assignable(k),
                    |k: Seq<char>| peer_map(self.peers@.take(i as int))[k],
                ),
            decreases self.peers@.len() - i,
        {
            let rec = &self.peers[i];
            let ghost k = rec.id@;
            proof {
                assert(self.peers@.take(i + 1) == self.peers@.take(i as int).push(self.peers@[i as int]));
                assert(distinct_ids(self.peers@.take(i as int)));
                assert(!has_peer(self.peers@.take(i as int), k)) by {
                    if has_peer(self.peers@.take(i as int), k) {
                        let j = choose|j: int| 0 <= j < i && #[trigger] self.peers@.take(i as int)[j].id@ == k;
                        assert(self.peers@[j].id@ == k);
                    }
                }
                lemma_peer_push(self.peers@.take(i as int), self.peers@[i as int]);
                lemma_peer_lookup(self.peers@, i as int);
                assert(k != self.my_id@);
                assert(self@.elevators[k] == rec.state@);
            }
            let dead = self.find_dead(&rec.id).is_some();
            let unavailable = rec.state.is_obstructed() || rec.state.is_emergency_stop();
            if !dead && !unavailable {
                let r2 = PeerRecord { id: rec.id.clone(), state: rec.state };
                proof {
                    assert(!has_peer(peers@, k)) by {
                        if has_peer(peers@, k) {
                            assert(peer_map(peers@).contains_key(k));
                            assert(peer_map(self.peers@.take(i as int)).contains_key(k));
                        }
                    }
                    lemma_peer_push(peers@, r2);
                }
                let ghost before = peers@;
                peers.push(r2);
                proof {
                    let ii = (i + 1) as int;
                    assert(peer_map(peers@) =~= Map::new(
                        |x: Seq<char>| peer_map(self.peers@.take(ii)).contains_key(x) && self@.assignable(x),
                        |x: Seq<char>| peer_map(self.peers@.take(ii))[x],
                    ));
                    assert forall|x: Seq<char>| #[trigger] has_peer(peers@, x) implies has_peer(self.peers@, x) by {
                        if x == k {
                            assert(self.peers@[i as int].id@ == x);
                        } else {
                            let j = choose|j: int| 0 <= j < peers@.len() && #[trigger] peers@[j].id@ == x;
                            assert(before[j].id@ == x);
                            assert(has_peer(before, x));
                        }
                    }
                }
            } else {
                proof {
                    let ii = (i + 1) as int;
                    assert(peer_map(peers@) =~= Map::new(
                        |x: Seq<char>| peer_map(self.peers@.take(ii)).contains_key(x) && self@.assignable(x),
                        |x: Seq<char>| peer_map(self.peers@.take(ii))[x],
                    ));
                }
            }
            i = i + 1;
        }
        let mut dead_elevators: Vec<String> = Vec::new();
        let mut j: usize = 0;
        while j < self.dead_elevators.len()
            invariant
                j <= self.dead_elevators@.len(),
                dead_elevators@.len() == j,
                forall|a: int| 0 <= a < j ==> #[trigger] dead_elevators@[a]@ == self.dead_elevators@[a]@,
            decreases self.dead_elevators@.len() - j,
        {
            dead_elevators.push(self.dead_elevators[j].clone());
            j = j + 1;
        }
        let input = SystemState {
            my_id: self.my_id.clone(),
            own: self.own,
            own_listed: self.own_listed,
            own_boot_id: self.own_boot_id,
            process_id: self.process_id,
            peers,
            hall_requests: self.hall_requests,
            hall_epoch: self.hall_epoch,
            dead_elevators,
            sync_complete: self.sync_complete,
        };
        proof {
            assert(self.peers@.take(self.peers@.len() as int) =~= self.peers@);
            assert(string_set(input.dead_elevators@) =~= string_set(self.dead_elevators@)) by {
                assert forall|x: Seq<char>| #[trigger] string_set(input.dead_elevators@).contains(x)
                    == string_set(self.dead_elevators@).contains(x) by {
                    if string_set(self.dead_elevators@).contains(x) {
                        let a = choose|a: int| 0 <= a < self.dead_elevators@.len() && #[trigger] self.dead_elevators@[a]@ == x;
                        assert(input.dead_elevators@[a]@ == x);
                    }
                }
            }
            assert(distinct_strings(input.dead_elevators@)) by {
                assert forall|a: int, b: int|
                    0 <= a < input.dead_elevators@.len() && 0 <= b < input.dead_elevators@.len() && a != b
                    implies #[trigger] input.dead_elevators@[a]@ != #[trigger] input.dead_elevators@[b]@ by {
                    assert(self.dead_elevators@[a]@ != self.dead_elevators@[b]@);
                }
            }
            assert(input@.elevators =~= self@.assigner_input().elevators);
            assert(input@ =~= self@.assigner_input());
        }
        input
    }

    /// A state as received from another node: its identifier, elevator records and hall
    /// tables, with no peer known dead and the start-up synchronisation not over; an own
    /// record it creates takes its boot identifier from the process `process_id`.
    pub fn from_records(
        my_id: String,
        records: Vec<(String, ElevatorState)>,
        hall_requests: [[bool; 2]; NUM_FLOORS],
        hall_epoch: [[u64; 2]; NUM_FLOORS],
        process_id: u32,
    ) -> (s: SystemState)
        ensures
            s.wf(),
            s@.my_id == my_id@,
            s@.elevators == records_map(records@),
            s@.boot_id == 0,
            s@.process_id == process_id,
            forall|f: int, d: int|
                0 <= f < NUM_FLOORS && 0 <= d < 2 ==> #[trigger] s@.request(f, d)
                    == hall_requests[f][d] && s@.epoch(f, d) == hall_epoch[f][d],
            s@.dead == Set::<Seq<char>>::empty(),
            !s@.sync_complete,
    {
        let mut s = SystemState {
            my_id,
            own: ElevatorState::new(0),
            own_listed: false,
            own_boot_id: 0,
            process_id,
            peers: Vec::new(),
            hall_requests,
            hall_epoch,
            dead_elevators: Vec::new(),
            sync_complete: false,
        };
        proof {
            assert(peer_map(s.peers@) =~= Map::<Seq<char>, ElevatorView>::empty());
            assert(string_set(s.dead_elevators@) =~= Set::<Seq<char>>::empty());
            assert(records@.take(0) =~= Seq::<(String, ElevatorState)>::empty());
        }
        let ghost start = s@;
        let mut i: usize = 0;
        while i < records.len()
            invariant
                s.wf(),
                i <= records@.len(),
                s@ == (SystemView { elevators: records_map(records@.take(i as int)), ..start }),
            decreases records@.len() - i,
        {
            let (id, st) = (records[i].0.clone(), records[i].1);
            proof {
                assert(records@.take(i + 1).drop_last() =~= records@.take(i as int));
            }
            s.insert_record(id, st);
            i = i + 1;
        }
        proof {
            assert(records@.take(records@.len() as int) =~= records@);
        }
        s
    }

    /// Sets the record of `id` to `st`.
    fn insert_record(&mut self, id: String, st: ElevatorState)
        requires
            old(self).wf(),
        ensures
            final(self).wf(),
            final(self)@ == (SystemView {
                elevators: old(self)@.elevators.insert(id@, st@),
                ..old(self)@
            }),
    {
        if id == self.my_id {
            self.own = st;
            self.own_listed = true;
            proof {
                assert(peer_map(self.peers@).insert(self.my_id@, st@) =~= old(self)@.elevators.insert(id@, st@));
            }
            return;
        }
        match self.find_peer(&id) {
            None => {
                let ghost before = self.peers@;
                let rec = PeerRecord { id, state: st };
                proof {
                    lemma_peer_push(self.peers@, rec);
                    assert(peer_map(self.peers@).insert(id@, st@).insert(self.my_id@, self.own@)
                        =~= peer_map(self.peers@).insert(self.my_id@, self.own@).insert(id@, st@));
                }
                self.peers.push(rec);
                proof {
                    assert(!has_peer(self.peers@, self.my_id@)) by {
                        if has_peer(self.peers@, self.my_id@) {
                            let j = choose|j: int|
                                0 <= j < self.peers@.len() && #[trigger] self.peers@[j].id@ == self.my_id@;
                            if j < before.len() {
                                assert(before[j].id@ == self.my_id@);
                            }
                        }
                    }
                }
            },
            Some(i) => {
                let ghost before = self.peers@;
                let rec = PeerRecord { id, state: st };
                proof {
                    lemma_peer_set(self.peers@, i as int, rec);
                    assert(peer_map(self.peers@).insert(id@, st@).insert(self.my_id@, self.own@)
                        =~= peer_map(self.peers@).insert(self.my_id@, self.own@).insert(id@, st@));
                }
                self.peers.set(i, rec);
                proof {
                    assert(!has_peer(self.peers@, self.my_id@)) by {
                        if has_peer(self.peers@, self.my_id@) {
                            let j = choose|j: int|
                                0 <= j < self.peers@.len() && #[trigger] self.peers@[j].id@ == self.my_id@;
                            assert(before[j].id@ == self.my_id@);
                        }
                    }
                }
            },
        }
    }

    /// Merges a state received from another node into this one; returns whether anything
    /// changed. Elevator records are merged first (see [`SystemView::absorbed_entry`]), then
    /// every hall slot (see [`merged_slot`]).
    pub fn merge_with(&mut self, other: &SystemState) -> (changed: bool)
        requires
            old(self).wf(),
            other.wf(),
        ensures
            final(self).wf(),
            final(self)@ == old(self)@.booted_as(final(self)@.boot_id).merged_with(other@),
            changed == old(self)@.booted_as(final(self)@.boot_id).merge_changes(other@),
            boot_id_from(old(self)@, final(self)@),
    {
        let ghost a0 = self@;
        let ghost b = other@;
        let mut changed = false;
        let ghost mut done: Set<Seq<char>> = Set::empty();
        proof {
            self.lemma_shape();
            assert(a0.booted_as(a0.boot_id) =~= a0);
            assert(a0.merged_elevators_on(b, done) =~= a0.elevators);
            assert(self@ =~= SystemView {
                elevators: a0.booted_as(self@.boot_id).merged_elevators_on(b, done),
                ..a0.booted_as(self@.boot_id)
            });
        }
        if other.own_listed {
            let ghost b0 = self@.boot_id;
            proof {
                assert(b.elevators[other.my_id@] == other.own@);
            }
            let c = self.merge_record(&other.my_id, &other.own);
            proof {
                lemma_absorb_step_booted(a0, b, done, other.my_id@, b0, self@.boot_id);
                done = done.insert(other.my_id@);
                assert(self@ =~= SystemView {
                    elevators: a0.booted_as(self@.boot_id).merged_elevators_on(b, done),
                    ..a0.booted_as(self@.boot_id)
                });
            }
            changed = c;
            proof {
                if c {
                    assert(done.contains(other.my_id@) && a0.record_changes(
                        other.my_id@,
                        b.elevators[other.my_id@],
                    ));
                }
                if exists|k: Seq<char>|
                    #[trigger] done.contains(k) && a0.record_changes(k, b.elevators[k]) {
                    let k = choose|k: Seq<char>|
                        #[trigger] done.contains(k) && a0.record_changes(k, b.elevators[k]);
                    assert(k == other.my_id@);
                }
            }
        }
        let mut i: usize = 0;
        while i < other.peers.len()
            invariant
                self.wf(),
                other.wf(),
                a0 == old(self)@,
                b == other@,
                i <= other.peers@.len(),
                self@ == (SystemView {
                    elevators: a0.booted_as(self@.boot_id).merged_elevators_on(b, done),
                    ..a0.booted_as(self@.boot_id)
                }),
                boot_id_from(a0, self@),
                forall|k: Seq<char>|
                    #[trigger] done.contains(k) <==> ((other.own_listed && k == other.my_id@)
                        || exists|j: int| 0 <= j < i && #[trigger] other.peers@[j].id@ == k),
                forall|k: Seq<char>| #[trigger] done.contains(k) ==> b.elevators.contains_key(k),
                changed == exists|k: Seq<char>|
                    #[trigger] done.contains(k) && a0.record_changes(k, b.elevators[k]),
            decreases other.peers@.len() - i,
        {
            let ghost k = other.peers@[i as int].id@;
            let ghost b0 = self@.boot_id;
            proof {
                lemma_peer_lookup(other.peers@, i as int);
                assert(k != other.my_id@);
                assert(b.elevators[k] == other.peers@[i as int].state@);
                assert(!done.contains(k)) by {
                    if done.contains(k) {
                        let j = choose|j: int| 0 <= j < i && #[trigger] other.peers@[j].id@ == k;
                        assert(j != i);
                    }
                }
            }
            let c = self.merge_record(&other.peers[i].id, &other.peers[i].state);
            proof {
                lemma_absorb_step_booted(a0, b, done, k, b0, self@.boot_id);
                let d2 = done.insert(k);
                assert(self@ =~= SystemView {
                    elevators: a0.booted_as(self@.boot_id).merged_elevators_on(b, d2),
                    ..a0.booted_as(self@.boot_id)
                });
                assert forall|x: Seq<char>|
                    #[trigger] d2.contains(x) <==> ((other.own_listed && x == other.my_id@)
                        || exists|j: int| 0 <= j < i + 1 && #[trigger] other.peers@[j].id@ == x) by {
                    if x == k {
                        assert(other.peers@[i as int].id@ == x);
                    }
                    if exists|j: int| 0 <= j < i + 1 && #[trigger] other.peers@[j].id@ == x {
                        let j = choose|j: int| 0 <= j < i + 1 && #[trigger] other.peers@[j].id@ == x;
                        if j < i {
                            assert(done.contains(x));
                        }
                    }
                }
                assert((changed || c) == exists|x: Seq<char>|
                    #[trigger] d2.contains(x) && a0.record_changes(x, b.elevators[x])) by {
                    if c {
                        assert(d2.contains(k) && a0.record_changes(k, b.elevators[k]));
                    }
                    if changed {
                        let x = choose|x: Seq<char>|
                            #[trigger] done.contains(x) && a0.record_changes(x, b.elevators[x]);
                        assert(d2.contains(x));
                    }
                    if exists|x: Seq<char>|
                        #[trigger] d2.contains(x) && a0.record_changes(x, b.elevators[x]) {
                        let x = choose|x: Seq<char>|
                            #[trigger] d2.contains(x) && a0.record_changes(x, b.elevators[x]);
                        if x != k {
                            assert(done.contains(x));
                        }
                    }
                }
                done = d2;
            }
            changed = changed || c;
            i = i + 1;
        }
        let ghost a = a0.booted_as(self@.boot_id);
        proof {
            assert forall|k: Seq<char>| #[trigger] done.contains(k) == b.elevators.contains_key(k) by {
                if b.elevators.contains_key(k) && !(other.own_listed && k == other.my_id@) {
                    let j = choose|j: int| 0 <= j < other.peers@.len() && #[trigger] other.peers@[j].id@ == k;
                    assert(other.peers@[j].id@ == k);
                }
            }
            assert(done =~= b.elevators.dom());
            self.lemma_shape();
            assert forall|k: Seq<char>| b.elevators.contains_key(k) implies #[trigger] a.record_changes(
                k,
                b.elevators[k],
            ) == a0.record_changes(k, b.elevators[k]) by {
                lemma_record_changes_booted(a0, self@.boot_id, k, b.elevators[k]);
            }
            assert(a.well_shaped());
            assert(changed == exists|k: Seq<char>|
                b.elevators.contains_key(k) && #[trigger] a.record_changes(k, b.elevators[k])) by {
                if changed {
                    let k = choose|k: Seq<char>|
                        #[trigger] done.contains(k) && a0.record_changes(k, b.elevators[k]);
                    assert(a.record_changes(k, b.elevators[k]));
                }
                if exists|k: Seq<char>|
                    b.elevators.contains_key(k) && #[trigger] a.record_changes(k, b.elevators[k]) {
                    let k = choose|k: Seq<char>|
                        b.elevators.contains_key(k) && #[trigger] a.record_changes(k, b.elevators[k]);
                    assert(done.contains(k) && a0.record_changes(k, b.elevators[k]));
                }
            }
        }
        let ghost mid = self@;
        let ghost elevators_changed = changed;
        let mut f: usize = 0;
        while f < NUM_FLOORS
            invariant
                self.wf(),
                other.wf(),
                a == old(self)@.booted_as(self@.boot_id),
                boot_id_from(old(self)@, self@),
                b == other@,
                a.well_shaped(),
                mid == (SystemView { elevators: a.merged_elevators(b), ..a }),
                f <= NUM_FLOORS,
                self@ == (SystemView {
                    hall_requests: self@.hall_requests,
                    hall_epoch: self@.hall_epoch,
                    ..mid
                }),
                self@.well_shaped(),
                forall|g: int, d: int|
                    0 <= g < f && 0 <= d < 2 ==> (#[trigger] self@.request(g, d), self@.epoch(g, d))
                        == a.merged_slot_of(mid, b, g, d),
                forall|g: int, d: int|
                    f <= g < NUM_FLOORS && 0 <= d < 2 ==> #[trigger] self@.request(g, d)
                        == a.request(g, d) && self@.epoch(g, d) == a.epoch(g, d),
                elevators_changed == exists|k: Seq<char>|
                    b.elevators.contains_key(k) && #[trigger] a.record_changes(k, b.elevators[k]),
                changed == (elevators_changed || exists|g: int, d: int|
                    0 <= g < f && 0 <= d < 2 && #[trigger] a.merged_slot_of(mid, b, g, d) != (
                        a.request(g, d),
                        a.epoch(g, d),
                    )),
            decreases NUM_FLOORS - f,
        {
            let ghost s0 = self@;
            proof {
                assert(self@.can_clear(f as int, 0) == mid.can_clear(f as int, 0));
                assert(self@.request(f as int, 0) == a.request(f as int, 0));
                lemma_with_slot(
                    s0,
                    f as int,
                    0,
                    a.merged_slot_of(mid, b, f as int, 0).0,
                    a.merged_slot_of(mid, b, f as int, 0).1,
                );
            }
            let c0 = self.merge_slot(other, f, HALLUP);
            let ghost s1 = self@;
            proof {
                assert(self@.can_clear(f as int, 1) == mid.can_clear(f as int, 1));
                assert(self@.request(f as int, 1) == a.request(f as int, 1));
                lemma_with_slot(
                    s1,
                    f as int,
                    1,
                    a.merged_slot_of(mid, b, f as int, 1).0,
                    a.merged_slot_of(mid, b, f as int, 1).1,
                );
            }
            let c1 = self.merge_slot(other, f, HALLDOWN);
            proof {
                let fi = f as int;
                assert forall|g: int, d: int|
                    0 <= g < fi + 1 && 0 <= d < 2 implies (#[trigger] self@.request(g, d), self@.epoch(g, d))
                        == a.merged_slot_of(mid, b, g, d) by {
                    assert(self@.request(g, d) == s1.request(g, d) || (g == fi && d == 1));
                    assert(s1.request(g, d) == s0.request(g, d) || (g == fi && d == 0));
                }
                assert((changed || c0 || c1) == (elevators_changed || exists|g: int, d: int|
                    0 <= g < fi + 1 && 0 <= d < 2 && #[trigger] a.merged_slot_of(mid, b, g, d) != (
                        a.request(g, d),
                        a.epoch(g, d),
                    ))) by {
                    if c0 {
                        assert(a.merged_slot_of(mid, b, fi, 0) != (a.request(fi, 0), a.epoch(fi, 0)));
                    }
                    if c1 {
                        assert(a.merged_slot_of(mid, b, fi, 1) != (a.request(fi, 1), a.epoch(fi, 1)));
                    }
                }
            }
            changed = changed || c0 || c1;
            f = f + 1;
            proof {
                assert forall|g: int, d: int|
                    f <= g < NUM_FLOORS && 0 <= d < 2 implies #[trigger] self@.request(g, d)
                        == a.request(g, d) && self@.epoch(g, d) == a.epoch(g, d) by {
                    assert(self@.request(g, d) == s1.request(g, d));
                    assert(self@.epoch(g, d) == s1.epoch(g, d));
                    assert(s1.epoch(g, d) == s0.epoch(g, d));
                    assert(s1.request(g, d) == s0.request(g, d));
                    assert(s0.request(g, d) == a.request(g, d) && s0.epoch(g, d) == a.epoch(g, d));
                }
            }
        }
        proof {
            let t = a.merged_with(b);
            assert forall|g: int| 0 <= g < NUM_FLOORS implies #[trigger] self@.hall_requests[g]
                =~= t.hall_requests[g] by {
                assert(self@.request(g, 0) == t.hall_requests[g][0]);
                assert(self@.request(g, 1) == t.hall_requests[g][1]);
            }
            assert forall|g: int| 0 <= g < NUM_FLOORS implies #[trigger] self@.hall_epoch[g]
                =~= t.hall_epoch[g] by {
                assert(self@.request(g, 0) == t.hall_requests[g][0]);
                assert(self@.request(g, 1) == t.hall_requests[g][1]);
                assert(self@.epoch(g, 0) == t.hall_epoch[g][0]);
                assert(self@.epoch(g, 1) == t.hall_epoch[g][1]);
            }
            assert(self@.hall_requests =~= t.hall_requests);
            assert(self@.hall_epoch =~= t.hall_epoch);
            assert(self@ =~= t);
        }
        changed
    }

    /// Whether this node may clear the hall request at `(floor, dir)`.
    fn can_clear_order(&self, floor: usize, dir: usize) -> (b: bool)
        requires
            self.wf(),
        ensures
            b == self@.can_clear(floor as int, dir as int),
    {
        if !self.own_listed {
            return false;
        }
        let my_state = &self.own;
        if my_state.get_floor() != Some(floor as u8) {
            return false;
        }
        if my_state.get_behavior() != Behaviour::DoorOpen {
            return false;
        }
        let direction = my_state.get_direction();
        if dir == HALLUP {
            direction == Direction::Up || direction == Direction::Stop
        } else if dir == HALLDOWN {
            direction == Direction::Down || direction == Direction::Stop
        } else {
            false
        }
    }

    /// Serves the orders at `floor`: clears the cab request there and the hall request
    /// in the car's direction of travel, advancing that slot's epoch by two.
    pub fn clear_order(&mut self, floor: u8)
        requires
            old(self).wf(),
        ensures
            final(self).wf(),
            final(self)@ == old(self)@.booted_as(final(self)@.boot_id).order_cleared(floor),
            boot_id_from(old(self)@, final(self)@),
    {
        if (floor as usize) >= NUM_FLOORS {
            return;
        }
        let direction = {
            let local_state = self.get_my_state();
            local_state.clear_cab_request(floor);
            local_state.get_direction()
        };
        let f = floor as usize;
        let mut clear_up = false;
        let mut clear_down = false;
        match direction {
            Direction::Up => {
                if self.hall_requests[f][HALLUP] {
                    clear_up = true;
                }
            },
            Direction::Down => {
                if self.hall_requests[f][HALLDOWN] {
                    clear_down = true;
                }
            },
            Direction::Stop => {
                if self.hall_requests[f][HALLUP] {
                    clear_up = true;
                } else if self.hall_requests[f][HALLDOWN] {
                    clear_down = true;
                }
            },
        }
        if clear_up {
            let e = self.hall_epoch[f][HALLUP].saturating_add(2);
            self.set_slot(f, HALLUP, false, e);
        }
        if clear_down {
            let e = self.hall_epoch[f][HALLDOWN].saturating_add(2);
            self.set_slot(f, HALLDOWN, false, e);
        }
    }
}

} // verus!

verus! {

/// Merging elevator records leaves this node's ability to clear hall requests unchanged:
/// its own record keeps floor, behaviour and direction.
proof fn lemma_merge_keeps_can_clear(a: SystemView, b: SystemView, floor: int, dir: int)
    ensures
        (SystemView { elevators: a.merged_elevators(b), ..a }).can_clear(floor, dir) == a.can_clear(
            floor,
            dir,
        ),
{
    let mid = SystemView { elevators: a.merged_elevators(b), ..a };
    let k = a.my_id;
    if b.elevators.contains_key(k) && a.takes_record(k) {
        assert(mid.elevators[k] == a.own().recovered_from(b.elevators[k]));
    }
}

/// The scalar hall slot merge does not depend on which side is which.
proof fn lemma_merged_slot_symmetric(sr: bool, se: u64, sc: bool, or: bool, oe: u64, oc: bool)
    ensures
        merged_slot(sr, se, sc, or, oe, oc) == merged_slot(or, oe, oc, sr, se, sc),
{
}

/// Merging a hall slot again with the same slot changes nothing.
proof fn lemma_merged_slot_idempotent(sr: bool, se: u64, sc: bool, or: bool, oe: u64, oc: bool)
    ensures
        ({
            let m = merged_slot(sr, se, sc, or, oe, oc);
            merged_slot(m.0, m.1, sc, or, oe, oc) == m
        }),
{
}

/// Hall requests converge: when two nodes merge each other's state, both end up with the same
/// hall requests and the same epochs, whatever their disagreement was.
pub proof fn lemma_hall_merge_converges(a: SystemView, b: SystemView)
    requires
        a.well_shaped(),
        b.well_shaped(),
    ensures
        a.merged_with(b).hall_requests == b.merged_with(a).hall_requests,
        a.merged_with(b).hall_epoch == b.merged_with(a).hall_epoch,
{
    let ab = a.merged_with(b);
    let ba = b.merged_with(a);
    let mid_a = SystemView { elevators: a.merged_elevators(b), ..a };
    let mid_b = SystemView { elevators: b.merged_elevators(a), ..b };
    assert forall|f: int, d: int|
        0 <= f < NUM_FLOORS && 0 <= d < 2 implies #[trigger] a.merged_slot_of(mid_a, b, f, d)
        == b.merged_slot_of(mid_b, a, f, d) by {
        lemma_merge_keeps_can_clear(a, b, f, d);
        lemma_merge_keeps_can_clear(b, a, f, d);
        lemma_merged_slot_symmetric(
            a.request(f, d),
            a.epoch(f, d),
            a.can_clear(f, d),
            b.request(f, d),
            b.epoch(f, d),
            b.can_clear(f, d),
        );
    }
    assert forall|f: int| 0 <= f < NUM_FLOORS implies #[trigger] ab.hall_requests[f]
        =~= ba.hall_requests[f] by {
        assert(a.merged_slot_of(mid_a, b, f, 0) == b.merged_slot_of(mid_b, a, f, 0));
        assert(a.merged_slot_of(mid_a, b, f, 1) == b.merged_slot_of(mid_b, a, f, 1));
    }
    assert forall|f: int| 0 <= f < NUM_FLOORS implies #[trigger] ab.hall_epoch[f]
        =~= ba.hall_epoch[f] by {
        assert(a.merged_slot_of(mid_a, b, f, 0) == b.merged_slot_of(mid_b, a, f, 0));
        assert(a.merged_slot_of(mid_a, b, f, 1) == b.merged_slot_of(mid_b, a, f, 1));
    }
    assert(ab.hall_requests =~= ba.hall_requests);
    assert(ab.hall_epoch =~= ba.hall_epoch);
}

/// Merging never lowers an epoch: each slot ends with the larger of the two epochs.
pub proof fn lemma_merge_takes_max_epoch(a: SystemView, b: SystemView, floor: int, dir: int)
    requires
        0 <= floor < NUM_FLOORS,
        0 <= dir < 2,
    ensures
        a.merged_with(b).epoch(floor, dir) == if a.epoch(floor, dir) >= b.epoch(floor, dir) {
            a.epoch(floor, dir)
        } else {
            b.epoch(floor, dir)
        },
{
}

/// Merging never replaces another node's record by an older copy: the record kept for a peer
/// is the one held before or one newer than it.
pub proof fn lemma_merge_keeps_newest(a: SystemView, b: SystemView, k: Seq<char>)
    requires
        k != a.my_id,
        a.elevators.contains_key(k),
    ensures
        a.merged_with(b).elevators.contains_key(k),
        a.merged_with(b).elevators[k] == a.elevators[k] || a.merged_with(b).elevators[k].newer_than(
            a.elevators[k],
        ),
{
}

/// Merging the same state twice has the effect of merging it once.
pub proof fn lemma_merge_idempotent(a: SystemView, b: SystemView)
    requires
        a.well_shaped(),
        b.well_shaped(),
    ensures
        a.merged_with(b).merged_with(b) == a.merged_with(b),
{
    let m = a.merged_with(b);
    let mm = m.merged_with(b);
    let mid_a = SystemView { elevators: a.merged_elevators(b), ..a };
    let mid_m = SystemView { elevators: m.merged_elevators(b), ..m };
    assert forall|k: Seq<char>| #[trigger] mm.elevators.contains_key(k) == m.elevators.contains_key(k) by {}
    assert forall|k: Seq<char>| #[trigger] mm.elevators.contains_key(k) implies mm.elevators[k]
        == m.elevators[k] by {
        if b.elevators.contains_key(k) && m.takes_record(k) {
            if k == a.my_id {
                let e = b.elevators[k];
                let r = a.own().recovered_from(e);
                assert(m.own() == r);
                assert(!r.misses_backup(e));
            }
        }
    }
    assert(mm.elevators =~= m.elevators);
    assert forall|f: int, d: int|
        0 <= f < NUM_FLOORS && 0 <= d < 2 implies #[trigger] m.merged_slot_of(mid_m, b, f, d) == (
        m.request(f, d),
        m.epoch(f, d),
    ) by {
        lemma_merge_keeps_can_clear(a, b, f, d);
        lemma_merge_keeps_can_clear(m, b, f, d);
        assert(m.can_clear(f, d) == mid_a.can_clear(f, d));
        assert((m.request(f, d), m.epoch(f, d)) == a.merged_slot_of(mid_a, b, f, d));
        lemma_merged_slot_idempotent(
            a.request(f, d),
            a.epoch(f, d),
            a.can_clear(f, d),
            b.request(f, d),
            b.epoch(f, d),
            b.can_clear(f, d),
        );
    }
    assert forall|f: int| 0 <= f < NUM_FLOORS implies #[trigger] mm.hall_requests[f]
        =~= m.hall_requests[f] by {
        assert(m.merged_slot_of(mid_m, b, f, 0) == (m.request(f, 0), m.epoch(f, 0)));
        assert(m.merged_slot_of(mid_m, b, f, 1) == (m.request(f, 1), m.epoch(f, 1)));
    }
    assert forall|f: int| 0 <= f < NUM_FLOORS implies #[trigger] mm.hall_epoch[f]
        =~= m.hall_epoch[f] by {
        assert(m.merged_slot_of(mid_m, b, f, 0) == (m.request(f, 0), m.epoch(f, 0)));
        assert(m.merged_slot_of(mid_m, b, f, 1) == (m.request(f, 1), m.epoch(f, 1)));
    }
    assert(mm.hall_requests =~= m.hall_requests);
    assert(mm.hall_epoch =~= m.hall_epoch);
    assert(mm =~= m);
}

/// What `merge_with` reports is exactly whether the state changed, as long as this node's own
/// record is present.
pub proof fn lemma_merge_reports_change(a: SystemView, b: SystemView)
    requires
        a.well_shaped(),
        a.elevators.contains_key(a.my_id),
    ensures
        a.merge_changes(b) == (a.merged_with(b) != a),
{
    let m = a.merged_with(b);
    let mid = SystemView { elevators: a.merged_elevators(b), ..a };
    if exists|k: Seq<char>| b.elevators.contains_key(k) && #[trigger] a.record_changes(k, b.elevators[k]) {
        let k = choose|k: Seq<char>| b.elevators.contains_key(k) && #[trigger] a.record_changes(k, b.elevators[k]);
        let e = b.elevators[k];
        if k == a.my_id {
            let f = choose|f: int|
                0 <= f < NUM_FLOORS && #[trigger] e.cab_requests[f] && !a.own().cab_requests[f];
            assert(m.elevators[k].cab_requests[f]);
            assert(m.elevators[k] != a.elevators[k]);
        } else if !a.elevators.contains_key(k) {
            assert(m.elevators.contains_key(k));
        } else {
            assert(m.elevators[k] == e);
            assert(m.elevators[k] != a.elevators[k]);
        }
        assert(m.elevators != a.elevators);
    } else if a.hall_changes(b) {
        let (f, d) = choose|f: int, d: int|
            0 <= f < NUM_FLOORS && 0 <= d < 2 && #[trigger] a.merged_slot_of(mid, b, f, d) != (
                a.request(f, d),
                a.epoch(f, d),
            );
        assert(m.request(f, d) != a.request(f, d) || m.epoch(f, d) != a.epoch(f, d));
        assert(m.hall_requests != a.hall_requests || m.hall_epoch != a.hall_epoch);
    } else {
        assert forall|k: Seq<char>| #[trigger] m.elevators.contains_key(k) == a.elevators.contains_key(k) by {
            if b.elevators.contains_key(k) && a.takes_record(k) && k != a.my_id {
                assert(!a.record_changes(k, b.elevators[k]));
            }
        }
        assert forall|k: Seq<char>| #[trigger] m.elevators.contains_key(k) implies m.elevators[k]
            == a.elevators[k] by {
            if b.elevators.contains_key(k) && a.takes_record(k) {
                assert(!a.record_changes(k, b.elevators[k]));
            }
        }
        assert(m.elevators =~= a.elevators);
        assert forall|f: int| 0 <= f < NUM_FLOORS implies #[trigger] m.hall_requests[f]
            =~= a.hall_requests[f] by {
            assert(a.merged_slot_of(mid, b, f, 0) == (a.request(f, 0), a.epoch(f, 0)));
            assert(a.merged_slot_of(mid, b, f, 1) == (a.request(f, 1), a.epoch(f, 1)));
        }
        assert forall|f: int| 0 <= f < NUM_FLOORS implies #[trigger] m.hall_epoch[f]
            =~= a.hall_epoch[f] by {
            assert(a.merged_slot_of(mid, b, f, 0) == (a.request(f, 0), a.epoch(f, 0)));
            assert(a.merged_slot_of(mid, b, f, 1) == (a.request(f, 1), a.epoch(f, 1)));
        }
        assert(m.hall_requests =~= a.hall_requests);
        assert(m.hall_epoch =~= a.hall_epoch);
        assert(m =~= a);
    }
}

/// A clear outranks any add made from an epoch no later than the one the clear started from:
/// clearing advances a slot's epoch by two and adding by one, so whichever node merges the
/// other's slot, the request ends cleared.
pub proof fn lemma_clear_outranks_stale_add(
    cleared_from: u64,
    added_from: u64,
    clearer_may_clear: bool,
    adder_may_clear: bool,
)
    requires
        added_from <= cleared_from,
        cleared_from + 2 <= u64::MAX,
    ensures
        merged_slot(
            false,
            cleared_from.saturating_add(2),
            clearer_may_clear,
            true,
            next_count(added_from),
            adder_may_clear,
        ) == (false, cleared_from.saturating_add(2)),
        merged_slot(
            true,
            next_count(added_from),
            adder_may_clear,
            false,
            cleared_from.saturating_add(2),
            clearer_may_clear,
        ) == (false, cleared_from.saturating_add(2)),
{
}

/// Local order changes never lower an epoch: adding or clearing orders leaves every hall slot's
/// epoch at least where it was, so peers take the local change over their older copies.
pub proof fn lemma_local_orders_never_lower_epochs(v: SystemView, floor: u8, order: OrderType, f: int, d: int)
    requires
        v.well_shaped(),
        0 <= f < NUM_FLOORS,
        0 <= d < 2,
    ensures
        v.order_added(floor, order).epoch(f, d) >= v.epoch(f, d),
        v.order_cleared(floor).epoch(f, d) >= v.epoch(f, d),
{
    if floor < NUM_FLOORS {
        let s = v.listed();
        if order != OrderType::Cab {
            lemma_with_slot(s, floor as int, hall_slot(order), true, next_count(s.epoch(floor as int, hall_slot(order))));
        }
        let s1 = s.with_own(s.own().without_cab_request(floor));
        lemma_with_slot(s1, floor as int, HALLUP as int, false, s1.epoch(floor as int, HALLUP as int).saturating_add(2));
        let s2 = s1.with_slot(floor as int, HALLUP as int, false, s1.epoch(floor as int, HALLUP as int).saturating_add(2));
        lemma_with_slot(s2, floor as int, HALLDOWN as int, false, s2.epoch(floor as int, HALLDOWN as int).saturating_add(2));
    }
}

/// One slot of a state whose flags agree with their epochs.
proof fn lemma_consistent_at(v: SystemView, f: int, d: int)
    requires
        v.epochs_consistent(),
        0 <= f < NUM_FLOORS,
        0 <= d < 2,
    ensures
        v.request(f, d) == (v.epoch(f, d) % 3 == 1),
        v.epoch(f, d) % 3 != 2,
{
}

/// The scalar slot merge keeps a flag in agreement with its epoch.
proof fn lemma_merged_slot_consistent(sr: bool, se: u64, sc: bool, or: bool, oe: u64, oc: bool)
    requires
        sr == (se % 3 == 1),
        se % 3 != 2,
        or == (oe % 3 == 1),
        oe % 3 != 2,
    ensures
        merged_slot(sr, se, sc, or, oe, oc).0 == (merged_slot(sr, se, sc, or, oe, oc).1 % 3 == 1),
        merged_slot(sr, se, sc, or, oe, oc).1 % 3 != 2,
{
}

/// Raising and clearing orders keep the hall request flags in agreement with their epochs, as
/// long as the epochs have not reached their limit.
pub proof fn lemma_orders_keep_epochs_consistent(v: SystemView, floor: u8, order: OrderType)
    requires
        v.well_shaped(),
        v.epochs_consistent(),
        v.epochs_have_room(),
    ensures
        v.order_added(floor, order).epochs_consistent(),
        v.order_cleared(floor).epochs_consistent(),
{
    if floor < NUM_FLOORS {
        let fl = floor as int;
        let s = v.listed();
        assert(s.hall_requests == v.hall_requests && s.hall_epoch == v.hall_epoch);
        let w = v.order_added(floor, order);
        if order != OrderType::Cab && !s.own().emergency_stop && !s.request(fl, hall_slot(order)) {
            let d = hall_slot(order);
            lemma_with_slot(s, fl, d, true, next_count(s.epoch(fl, d)));
            assert forall|g: int, e: int| 0 <= g < NUM_FLOORS && 0 <= e < 2 implies (w.request(g, e) == (
                w.epoch(g, e) % 3 == 1)) && w.epoch(g, e) % 3 != 2 by {
                lemma_consistent_at(v, g, e);
                if g != fl || e != d {
                    assert(w.request(g, e) == v.request(g, e));
                    assert(w.epoch(g, e) == v.epoch(g, e));
                }
            }
            assert(w.epochs_consistent());
        } else {
            assert(w.hall_requests == v.hall_requests && w.hall_epoch == v.hall_epoch);
            assert forall|g: int, e: int| 0 <= g < NUM_FLOORS && 0 <= e < 2 implies (w.request(g, e) == (
                w.epoch(g, e) % 3 == 1)) && w.epoch(g, e) % 3 != 2 by {
                lemma_consistent_at(v, g, e);
            }
            assert(w.epochs_consistent());
        }
        let s1 = s.with_own(s.own().without_cab_request(floor));
        let up = HALLUP as int;
        let down = HALLDOWN as int;
        let dir = s1.own().direction;
        let clear_up = s1.request(fl, up) && (dir == Direction::Up || dir == Direction::Stop);
        let clear_down = s1.request(fl, down) && (dir == Direction::Down || (dir == Direction::Stop
            && !s1.request(fl, up)));
        let e_up = s1.epoch(fl, up).saturating_add(2);
        lemma_with_slot(s1, fl, up, false, e_up);
        let s2 = if clear_up {
            s1.with_slot(fl, up, false, e_up)
        } else {
            s1
        };
        let e_down = s2.epoch(fl, down).saturating_add(2);
        lemma_with_slot(s2, fl, down, false, e_down);
        let c = v.order_cleared(floor);
        assert(c == (if clear_down {
            s2.with_slot(fl, down, false, e_down)
        } else {
            s2
        }));
        assert forall|g: int, e: int| 0 <= g < NUM_FLOORS && 0 <= e < 2 implies (c.request(g, e) == (
            c.epoch(g, e) % 3 == 1)) && c.epoch(g, e) % 3 != 2 by {
            lemma_consistent_at(v, g, e);
            assert(s2.request(g, e) == (if clear_up && g == fl && e == up {
                false
            } else {
                v.request(g, e)
            }));
            assert(s2.epoch(g, e) == (if clear_up && g == fl && e == up {
                e_up
            } else {
                v.epoch(g, e)
            }));
        }
    }
}

/// Merging keeps the hall request flags in agreement with their epochs. Two states that agree
/// so never disagree on a slot at equal epochs, so merging always takes one side's slot whole.
pub proof fn lemma_merge_keeps_epochs_consistent(a: SystemView, b: SystemView)
    requires
        a.well_shaped(),
        b.well_shaped(),
        a.epochs_consistent(),
        b.epochs_consistent(),
    ensures
        a.merged_with(b).epochs_consistent(),
        forall|f: int, d: int|
            0 <= f < NUM_FLOORS && 0 <= d < 2 && #[trigger] a.epoch(f, d) == b.epoch(f, d) ==> a.request(
                f,
                d,
            ) == b.request(f, d),
{
    let m = a.merged_with(b);
    let mid = SystemView { elevators: a.merged_elevators(b), ..a };
    assert forall|f: int, d: int| 0 <= f < NUM_FLOORS && 0 <= d < 2 implies (#[trigger] m.request(f, d)
        == (m.epoch(f, d) % 3 == 1)) && m.epoch(f, d) % 3 != 2 by {
        lemma_consistent_at(a, f, d);
        lemma_consistent_at(b, f, d);
        lemma_merged_slot_consistent(
            a.request(f, d),
            a.epoch(f, d),
            mid.can_clear(f, d),
            b.request(f, d),
            b.epoch(f, d),
            b.can_clear(f, d),
        );
        assert((m.request(f, d), m.epoch(f, d)) == a.merged_slot_of(mid, b, f, d));
    }
    assert forall|f: int, d: int|
        0 <= f < NUM_FLOORS && 0 <= d < 2 && #[trigger] a.epoch(f, d) == b.epoch(f, d) implies a.request(
        f,
        d,
    ) == b.request(f, d) by {
        lemma_consistent_at(a, f, d);
        lemma_consistent_at(b, f, d);
    }
}

} // verus!

verus! {

/// A copy of a live peer's record that is more recent by boot identifier, then sequence
/// number, replaces the record held, also when the peer has restarted with a lower sequence
/// number; and the merge reports a change.
pub proof fn lemma_merge_takes_more_recent_copy(a: SystemView, b: SystemView, k: Seq<char>)
    requires
        k != a.my_id,
        !a.dead.contains(k),
        b.elevators.contains_key(k),
        a.elevators.contains_key(k) ==> (b.elevators[k].boot_id > a.elevators[k].boot_id || (
        b.elevators[k].boot_id == a.elevators[k].boot_id && b.elevators[k].seq
            > a.elevators[k].seq)),
    ensures
        a.merged_with(b).elevators.contains_key(k),
        a.merged_with(b).elevators[k] == b.elevators[k],
        a.merge_changes(b),
{
    assert(a.record_changes(k, b.elevators[k]));
}

/// A copy of a peer's record that is not more recent than the one held leaves it in place.
pub proof fn lemma_merge_ignores_older_copy(a: SystemView, b: SystemView, k: Seq<char>)
    requires
        k != a.my_id,
        a.elevators.contains_key(k),
        b.elevators.contains_key(k),
        b.elevators[k].boot_id < a.elevators[k].boot_id || (b.elevators[k].boot_id
            == a.elevators[k].boot_id && b.elevators[k].seq <= a.elevators[k].seq),
    ensures
        a.merged_with(b).elevators[k] == a.elevators[k],
        !a.record_changes(k, b.elevators[k]),
{
}

/// Serving a floor clears the hall request in the car's direction there: heading up clears
/// the up request, heading down the down request, each with its epoch advanced by two; the
/// other direction's request is left alone.
pub proof fn lemma_clear_order_serves_direction(v: SystemView, floor: u8)
    requires
        v.well_shaped(),
        floor < NUM_FLOORS,
        v.epochs_have_room(),
    ensures
        ({
            let f = floor as int;
            let dir = v.own().direction;
            let w = v.order_cleared(floor);
            &&& dir == Direction::Down ==> {
                &&& !w.request(f, HALLDOWN as int)
                &&& w.epoch(f, HALLDOWN as int) == if v.request(f, HALLDOWN as int) {
                    v.epoch(f, HALLDOWN as int) + 2
                } else {
                    v.epoch(f, HALLDOWN as int) as int
                }
                &&& w.request(f, HALLUP as int) == v.request(f, HALLUP as int)
                &&& w.epoch(f, HALLUP as int) == v.epoch(f, HALLUP as int)
            }
            &&& dir == Direction::Up ==> {
                &&& !w.request(f, HALLUP as int)
                &&& w.epoch(f, HALLUP as int) == if v.request(f, HALLUP as int) {
                    v.epoch(f, HALLUP as int) + 2
                } else {
                    v.epoch(f, HALLUP as int) as int
                }
                &&& w.request(f, HALLDOWN as int) == v.request(f, HALLDOWN as int)
                &&& w.epoch(f, HALLDOWN as int) == v.epoch(f, HALLDOWN as int)
            }
            &&& dir == Direction::Stop ==> !w.request(f, HALLUP as int) && (v.request(
                f,
                HALLUP as int,
            ) || !w.request(f, HALLDOWN as int))
            &&& !w.own().cab_requests[f]
        }),
{
    let fl = floor as int;
    let s = v.listed();
    let s1 = s.with_own(s.own().without_cab_request(floor));
    let up = HALLUP as int;
    let down = HALLDOWN as int;
    let e_up = s1.epoch(fl, up).saturating_add(2);
    lemma_with_slot(s1, fl, up, false, e_up);
    let s2 = if s1.request(fl, up) && (s1.own().direction == Direction::Up
        || s1.own().direction == Direction::Stop) {
        s1.with_slot(fl, up, false, e_up)
    } else {
        s1
    };
    let e_down = s2.epoch(fl, down).saturating_add(2);
    lemma_with_slot(s2, fl, down, false, e_down);
    assert(s.hall_requests == v.hall_requests && s.hall_epoch == v.hall_epoch);
    assert(v.epoch(fl, up) + 2 <= u64::MAX);
    assert(v.epoch(fl, down) + 2 <= u64::MAX);
}

/// The assigner is given exactly the records of live peers that can take orders, whatever
/// they are doing, and this node's own record: a record is left out only when its node is
/// dead, or, for a peer, obstructed or emergency-stopped.
pub proof fn lemma_assigner_input_keeps_available(v: SystemView, k: Seq<char>)
    requires
        v.elevators.contains_key(k),
    ensures
        v.assigner_input().elevators.contains_key(k) <==> (!v.dead.contains(k) && (k == v.my_id || (
        !v.elevators[k].obstruction && !v.elevators[k].emergency_stop))),
        v.assigner_input().elevators.contains_key(k) ==> v.assigner_input().elevators[k]
            == v.elevators[k],
        v.assigner_input().my_id == v.my_id && v.assigner_input().hall_requests == v.hall_requests
            && v.assigner_input().hall_epoch == v.hall_epoch,
{
}

} // verus!
