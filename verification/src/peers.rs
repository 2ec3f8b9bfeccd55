//! Peer discovery bookkeeping: which peers have been heard from recently.
//!
//! Every node broadcasts its identifier periodically. The tracker records when each peer was
//! last heard; a peer not heard for longer than the timeout is reported lost, a peer heard for
//! the first time is reported new.

use crate::ids::{sort_ids, sorted_ids, views};
use vstd::prelude::*;

verus! {

/// A change in the set of live peers.
#[derive(Debug, Clone, PartialEq, Eq)]
pub struct PeerChange {
    /// All live peers, in ascending order.
    pub peers: Vec<String>,
    /// The peer heard for the first time, if any.
    pub new: Option<String>,
    /// The peers that timed out, in ascending order.
    pub lost: Vec<String>,
}

/// Whether a peer last heard at `when` has timed out at `now`.
pub open spec fn expired(when: u64, now: u64, timeout: u64) -> bool {
    now > when && now - when > timeout
}

/// The identifier carried by an optional string.
pub open spec fn opt_id(s: Option<String>) -> Option<Seq<char>> {
    match s {
        Some(x) => Some(x@),
        None => None,
    }
}

/// The last-heard times after hearing `heard` at `now`.
pub open spec fn heard_at(seen: Map<Seq<char>, u64>, heard: Option<Seq<char>>, now: u64) -> Map<Seq<char>, u64> {
    match heard {
        Some(id) => seen.insert(id, now),
        None => seen,
    }
}

/// The peer that is new when hearing `heard`.
pub open spec fn newly_heard(seen: Map<Seq<char>, u64>, heard: Option<Seq<char>>) -> Option<Seq<char>> {
    match heard {
        Some(id) => if seen.contains_key(id) {
            None
        } else {
            Some(id)
        },
        None => None,
    }
}

/// The peers that time out at `now` after hearing `heard`.
pub open spec fn lost_at(seen: Map<Seq<char>, u64>, heard: Option<Seq<char>>, now: u64, timeout: u64) -> Set<Seq<char>> {
    let s = heard_at(seen, heard, now);
    Set::new(|k: Seq<char>| s.contains_key(k) && expired(s[k], now, timeout))
}

/// The last-heard times kept after hearing `heard` at `now`: those of peers not timed out.
pub open spec fn kept_at(seen: Map<Seq<char>, u64>, heard: Option<Seq<char>>, now: u64, timeout: u64) -> Map<Seq<char>, u64> {
    let s = heard_at(seen, heard, now);
    Map::new(|k: Seq<char>| s.contains_key(k) && !expired(s[k], now, timeout), |k: Seq<char>| s[k])
}

/// A list of strings holding each identifier of `set` exactly once.
pub open spec fn lists_exactly(v: Seq<String>, set: Set<Seq<char>>) -> bool {
    &&& forall|i: int, j: int| 0 <= i < v.len() && 0 <= j < v.len() && i != j ==> #[trigger] v[i]@ != #[trigger] v[j]@
    &&& forall|k: Seq<char>| set.contains(k) <==> exists|i: int| 0 <= i < v.len() && #[trigger] v[i]@ == k
}

proof fn lemma_views_list_exactly(v: Seq<String>, set: Set<Seq<char>>)
    requires
        views(v).no_duplicates(),
        forall|k: Seq<char>| views(v).contains(k) <==> set.contains(k),
    ensures
        lists_exactly(v, set),
{
    assert forall|i: int, j: int| 0 <= i < v.len() && 0 <= j < v.len() && i != j implies #[trigger] v[i]@
        != #[trigger] v[j]@ by {
        assert(views(v)[i] == v[i]@);
        assert(views(v)[j] == v[j]@);
    }
    assert forall|k: Seq<char>| set.contains(k) <==> exists|i: int| 0 <= i < v.len() && #[trigger] v[i]@ == k by {
        if set.contains(k) {
            let i = choose|i: int| 0 <= i < views(v).len() && views(v)[i] == k;
            assert(v[i]@ == k);
        }
        if exists|i: int| 0 <= i < v.len() && #[trigger] v[i]@ == k {
            let i = choose|i: int| 0 <= i < v.len() && #[trigger] v[i]@ == k;
            assert(views(v)[i] == k);
        }
    }
}

/// Whether the list names the identifier `k`.
spec fn names(v: Seq<String>, k: Seq<char>) -> bool {
    exists|a: int| 0 <= a < v.len() && #[trigger] v[a]@ == k
}

/// Whether among the first `i` sightings `k` occurs, expired (`gone`) or not.
spec fn among_first(s: Seq<Sighting>, i: int, k: Seq<char>, gone: bool, now: u64, timeout: u64) -> bool {
    exists|j: int| 0 <= j < i && #[trigger] s[j].id@ == k && expired(s[j].when, now, timeout) == gone
}

/// One peer and when it was last heard.
struct Sighting {
    id: String,
    when: u64,
}

spec fn distinct_sightings(s: Seq<Sighting>) -> bool {
    forall|i: int, j: int| 0 <= i < s.len() && 0 <= j < s.len() && i != j ==> #[trigger] s[i].id@ != #[trigger] s[j].id@
}

spec fn sighted(s: Seq<Sighting>, k: Seq<char>) -> bool {
    exists|i: int| 0 <= i < s.len() && #[trigger] s[i].id@ == k
}

spec fn sighting_map(s: Seq<Sighting>) -> Map<Seq<char>, u64> {
    Map::new(
        |k: Seq<char>| sighted(s, k),
        |k: Seq<char>| s[choose|i: int| 0 <= i < s.len() && #[trigger] s[i].id@ == k].when,
    )
}

proof fn lemma_sighting_lookup(s: Seq<Sighting>, i: int)
    requires
        distinct_sightings(s),
        0 <= i < s.len(),
    ensures
        sighting_map(s).contains_key(s[i].id@),
        sighting_map(s)[s[i].id@] == s[i].when,
{
    let k = s[i].id@;
    assert(sighted(s, k));
    let j = choose|j: int| 0 <= j < s.len() && #[trigger] s[j].id@ == k;
    assert(j == i);
}

/// Remembers when each peer was last heard.
pub struct PeerTracker {
    last_seen: Vec<Sighting>,
}

impl View for PeerTracker {
    type V = Map<Seq<char>, u64>;

    closed spec fn view(&self) -> Map<Seq<char>, u64> {
        sighting_map(self.last_seen@)
    }
}

impl PeerTracker {
    /// The internal invariant: every peer is recorded once.
    pub closed spec fn wf(&self) -> bool {
        distinct_sightings(self.last_seen@)
    }

    /// A tracker that has heard no peer yet.
    pub fn new() -> (t: Self)
        ensures
            t.wf(),
            t@ == Map::<Seq<char>, u64>::empty(),
    {
        let t = PeerTracker { last_seen: Vec::new() };
        assert(t@ =~= Map::<Seq<char>, u64>::empty());
        t
    }

    /// Records the peer `heard` (if any) as heard at time `now`, forgets the peers not heard
    /// for longer than `timeout`, and reports the change when a peer is new or lost.
    pub fn observe(&mut self, heard: Option<String>, now: u64, timeout: u64) -> (change: Option<PeerChange>)
        requires
            old(self).wf(),
        ensures
            final(self).wf(),
            final(self)@ == kept_at(old(self)@, opt_id(heard), now, timeout),
            change is Some <==> (newly_heard(old(self)@, opt_id(heard)) is Some || exists|k: Seq<char>|
                #[trigger] lost_at(old(self)@, opt_id(heard), now, timeout).contains(k)),
            change matches Some(c) ==> {
                &&& opt_id(c.new) == newly_heard(old(self)@, opt_id(heard))
                &&& lists_exactly(c.peers@, kept_at(old(self)@, opt_id(heard), now, timeout).dom())
                &&& sorted_ids(c.peers@)
                &&& lists_exactly(c.lost@, lost_at(old(self)@, opt_id(heard), now, timeout))
                &&& sorted_ids(c.lost@)
            },
    {
        let ghost seen0 = self@;
        let mut new: Option<String> = None;
        if let Some(id) = heard {
            let mut found: Option<usize> = None;
            let mut i: usize = 0;
            while i < self.last_seen.len()
                invariant
                    i <= self.last_seen@.len(),
                    found is None ==> forall|j: int| 0 <= j < i ==> #[trigger] self.last_seen@[j].id@ != id@,
                    found matches Some(f) ==> f < self.last_seen@.len() && self.last_seen@[f as int].id@ == id@,
                decreases self.last_seen@.len() - i,
            {
                if found.is_none() && self.last_seen[i].id == id {
                    found = Some(i);
                }
                i = i + 1;
            }
            match found {
                Some(f) => {
                    let ghost before = self.last_seen@;
                    proof {
                        lemma_sighting_lookup(before, f as int);
                    }
                    self.last_seen.set(f, Sighting { id, when: now });
                    proof {
                        let after = self.last_seen@;
                        assert(distinct_sightings(after)) by {
                            assert forall|a: int, b: int| 0 <= a < after.len() && 0 <= b < after.len() && a != b
                                implies #[trigger] after[a].id@ != #[trigger] after[b].id@ by {
                                assert(before[a].id@ == after[a].id@);
                                assert(before[b].id@ == after[b].id@);
                            }
                        }
                        assert forall|k: Seq<char>| #[trigger] sighted(after, k) == sighted(before, k) by {
                            if sighted(after, k) {
                                let j = choose|j: int| 0 <= j < after.len() && #[trigger] after[j].id@ == k;
                                assert(before[j].id@ == k);
                            }
                            if sighted(before, k) {
                                let j = choose|j: int| 0 <= j < before.len() && #[trigger] before[j].id@ == k;
                                assert(after[j].id@ == k);
                            }
                        }
                        assert forall|k: Seq<char>| #[trigger] sighting_map(after).contains_key(k) implies
                            sighting_map(after)[k] == seen0.insert(id@, now)[k] by {
                            let j = choose|j: int| 0 <= j < after.len() && #[trigger] after[j].id@ == k;
                            lemma_sighting_lookup(after, j);
                            if j != f {
                                lemma_sighting_lookup(before, j);
                            }
                        }
                        assert(sighting_map(after) =~= seen0.insert(id@, now));
                    }
                },
                None => {
                    let ghost before = self.last_seen@;
                    proof {
                        assert(!sighted(before, id@));
                    }
                    new = Some(id.clone());
                    self.last_seen.push(Sighting { id, when: now });
                    proof {
                        let after = self.last_seen@;
                        let n = before.len() as int;
                        assert(distinct_sightings(after)) by {
                            assert forall|a: int, b: int| 0 <= a < after.len() && 0 <= b < after.len() && a != b
                                implies #[trigger] after[a].id@ != #[trigger] after[b].id@ by {
                                if a < n {
                                    assert(after[a] == before[a]);
                                }
                                if b < n {
                                    assert(after[b] == before[b]);
                                }
                            }
                        }
                        assert forall|k: Seq<char>| #[trigger] sighted(after, k) == (sighted(before, k) || k == id@) by {
                            if sighted(after, k) {
                                let j = choose|j: int| 0 <= j < after.len() && #[trigger] after[j].id@ == k;
                                if j < n {
                                    assert(before[j].id@ == k);
                                }
                            }
                            if sighted(before, k) {
                                let j = choose|j: int| 0 <= j < before.len() && #[trigger] before[j].id@ == k;
                                assert(after[j].id@ == k);
                            }
                            if k == id@ {
                                assert(after[n].id@ == k);
                            }
                        }
                        assert forall|k: Seq<char>| #[trigger] sighting_map(after).contains_key(k) implies
                            sighting_map(after)[k] == seen0.insert(id@, now)[k] by {
                            let j = choose|j: int| 0 <= j < after.len() && #[trigger] after[j].id@ == k;
                            lemma_sighting_lookup(after, j);
                            if j < n {
                                assert(after[j] == before[j]);
                                lemma_sighting_lookup(before, j);
                            }
                        }
                        assert(sighting_map(after) =~= seen0.insert(id@, now));
                    }
                },
            }
        }
        let ghost seen1 = self@;
        proof {
            assert(seen1 == heard_at(seen0, opt_id(heard), now));
            assert(opt_id(new) == newly_heard(seen0, opt_id(heard)));
        }
        let mut kept: Vec<Sighting> = Vec::new();
        let mut kept_ids: Vec<String> = Vec::new();
        let mut lost: Vec<String> = Vec::new();
        let mut i: usize = 0;
        while i < self.last_seen.len()
            invariant
                self.wf(),
                self@ == seen1,
                i <= self.last_seen@.len(),
                kept_ids@.len() == kept@.len(),
                forall|j: int| 0 <= j < kept@.len() ==> #[trigger] kept_ids@[j]@ == kept@[j].id@,
                distinct_sightings(kept@),
                forall|k: Seq<char>| #[trigger] sighted(kept@, k) <==> among_first(self.last_seen@, i as int, k, false, now, timeout),
                forall|j: int| 0 <= j < kept@.len() ==> !expired(#[trigger] kept@[j].when, now, timeout)
                    && seen1[kept@[j].id@] == kept@[j].when,
                forall|a: int, b: int| 0 <= a < lost@.len() && 0 <= b < lost@.len() && a != b ==> #[trigger] lost@[a]@ != #[trigger] lost@[b]@,
                forall|k: Seq<char>| #[trigger] names(lost@, k) <==> among_first(self.last_seen@, i as int, k, true, now, timeout),
            decreases self.last_seen@.len() - i,
        {
            let s = &self.last_seen[i];
            proof {
                lemma_sighting_lookup(self.last_seen@, i as int);
            }
            let is_expired = now > s.when && now - s.when > timeout;
            let ghost kid = s.id@;
            let ghost ls = self.last_seen@;
            proof {
                assert forall|k: Seq<char>, gone: bool|
                    #[trigger] among_first(ls, i + 1, k, gone, now, timeout) <==> (among_first(ls, i as int, k, gone, now, timeout)
                        || (k == kid && expired(ls[i as int].when, now, timeout) == gone)) by {
                    if among_first(ls, i + 1, k, gone, now, timeout) {
                        let j = choose|j: int| 0 <= j < i + 1 && #[trigger] ls[j].id@ == k && expired(ls[j].when, now, timeout) == gone;
                        if j < i {
                            assert(among_first(ls, i as int, k, gone, now, timeout));
                        }
                    }
                    if among_first(ls, i as int, k, gone, now, timeout) {
                        let j = choose|j: int| 0 <= j < i && #[trigger] ls[j].id@ == k && expired(ls[j].when, now, timeout) == gone;
                        assert(ls[j].id@ == k);
                    }
                    if k == kid && expired(ls[i as int].when, now, timeout) == gone {
                        assert(ls[i as int].id@ == k);
                    }
                }
                assert forall|gone: bool| !#[trigger] among_first(ls, i as int, kid, gone, now, timeout) by {
                    if among_first(ls, i as int, kid, gone, now, timeout) {
                        let j = choose|j: int| 0 <= j < i && #[trigger] ls[j].id@ == kid && expired(ls[j].when, now, timeout) == gone;
                        assert(j != i);
                    }
                }
            }
            if is_expired {
                let ghost before = lost@;
                lost.push(s.id.clone());
                proof {
                    let n = before.len() as int;
                    assert forall|k: Seq<char>| #[trigger] names(lost@, k) == (names(before, k) || k == kid) by {
                        if names(lost@, k) {
                            let a = choose|a: int| 0 <= a < lost@.len() && #[trigger] lost@[a]@ == k;
                            if a < n {
                                assert(before[a]@ == k);
                            }
                        }
                        if names(before, k) {
                            let a = choose|a: int| 0 <= a < before.len() && #[trigger] before[a]@ == k;
                            assert(lost@[a]@ == k);
                        }
                        if k == kid {
                            assert(lost@[n]@ == k);
                        }
                    }
                    assert(!names(before, kid));
                    assert forall|a: int, b: int| 0 <= a < lost@.len() && 0 <= b < lost@.len() && a != b
                        implies #[trigger] lost@[a]@ != #[trigger] lost@[b]@ by {
                        if a < n && b < n {
                            assert(lost@[a] == before[a]);
                            assert(lost@[b] == before[b]);
                        } else if a < n {
                            assert(lost@[a] == before[a]);
                            assert(names(before, before[a]@));
                        } else if b < n {
                            assert(lost@[b] == before[b]);
                            assert(names(before, before[b]@));
                        }
                    }
                }
            } else {
                let ghost before = kept@;
                let ghost before_ids = kept_ids@;
                kept_ids.push(s.id.clone());
                kept.push(Sighting { id: s.id.clone(), when: s.when });
                proof {
                    let n = before.len() as int;
                    assert(!sighted(before, kid));
                    assert forall|k: Seq<char>| #[trigger] sighted(kept@, k) == (sighted(before, k) || k == kid) by {
                        if sighted(kept@, k) {
                            let a = choose|a: int| 0 <= a < kept@.len() && #[trigger] kept@[a].id@ == k;
                            if a < n {
                                assert(before[a].id@ == k);
                            }
                        }
                        if sighted(before, k) {
                            let a = choose|a: int| 0 <= a < before.len() && #[trigger] before[a].id@ == k;
                            assert(kept@[a].id@ == k);
                        }
                        if k == kid {
                            assert(kept@[n].id@ == k);
                        }
                    }
                    assert forall|a: int, b: int| 0 <= a < kept@.len() && 0 <= b < kept@.len() && a != b
                        implies #[trigger] kept@[a].id@ != #[trigger] kept@[b].id@ by {
                        if a < n {
                            assert(kept@[a] == before[a]);
                        }
                        if b < n {
                            assert(kept@[b] == before[b]);
                        }
                        if a < n && b == n {
                            assert(sighted(before, before[a].id@));
                        }
                        if b < n && a == n {
                            assert(sighted(before, before[b].id@));
                        }
                    }
                    assert forall|j: int| 0 <= j < kept@.len() implies #[trigger] kept_ids@[j]@ == kept@[j].id@ by {
                        if j < n {
                            assert(kept@[j] == before[j]);
                            assert(kept_ids@[j] == before_ids[j]);
                        }
                    }
                    assert forall|j: int| 0 <= j < kept@.len() implies !expired(#[trigger] kept@[j].when, now, timeout)
                        && seen1[kept@[j].id@] == kept@[j].when by {
                        if j < n {
                            assert(kept@[j] == before[j]);
                        }
                    }
                }
            }
            i = i + 1;
        }
        let ghost ls = self.last_seen@;
        let ghost kept_view = kept@;
        self.last_seen = kept;
        proof {
            let target = kept_at(seen0, opt_id(heard), now, timeout);
            let gone = lost_at(seen0, opt_id(heard), now, timeout);
            assert forall|k: Seq<char>| #[trigger] sighted(ls, k) implies seen1.contains_key(k) by {}
            assert forall|j: int| 0 <= j < ls.len() implies #[trigger] seen1[ls[j].id@] == ls[j].when by {
                lemma_sighting_lookup(ls, j);
            }
            assert forall|k: Seq<char>| #[trigger] self@.contains_key(k) == target.contains_key(k) by {
                assert(self@.contains_key(k) == sighted(kept_view, k));
                assert(sighted(kept_view, k) == among_first(ls, ls.len() as int, k, false, now, timeout));
                if target.contains_key(k) {
                    let j = choose|j: int| 0 <= j < ls.len() && #[trigger] ls[j].id@ == k;
                    assert(seen1[ls[j].id@] == ls[j].when);
                    assert(among_first(ls, ls.len() as int, k, false, now, timeout));
                }
                if among_first(ls, ls.len() as int, k, false, now, timeout) {
                    let j = choose|j: int| 0 <= j < ls.len() && #[trigger] ls[j].id@ == k && expired(ls[j].when, now, timeout) == false;
                    assert(seen1[ls[j].id@] == ls[j].when);
                    assert(sighted(ls, k));
                }
            }
            assert forall|k: Seq<char>| #[trigger] self@.contains_key(k) implies self@[k] == target[k] by {
                let a = choose|a: int| 0 <= a < kept_view.len() && #[trigger] kept_view[a].id@ == k;
                lemma_sighting_lookup(kept_view, a);
            }
            assert(self@ =~= target);
            assert forall|k: Seq<char>| #[trigger] gone.contains(k) <==> names(lost@, k) by {
                assert(names(lost@, k) == among_first(ls, ls.len() as int, k, true, now, timeout));
                if gone.contains(k) {
                    let j = choose|j: int| 0 <= j < ls.len() && #[trigger] ls[j].id@ == k;
                    assert(seen1[ls[j].id@] == ls[j].when);
                    assert(among_first(ls, ls.len() as int, k, true, now, timeout));
                }
                if among_first(ls, ls.len() as int, k, true, now, timeout) {
                    let j = choose|j: int| 0 <= j < ls.len() && #[trigger] ls[j].id@ == k && expired(ls[j].when, now, timeout) == true;
                    assert(seen1[ls[j].id@] == ls[j].when);
                    assert(sighted(ls, k));
                }
            }
            assert((lost@.len() > 0) == exists|k: Seq<char>| #[trigger] gone.contains(k)) by {
                if lost@.len() > 0 {
                    assert(names(lost@, lost@[0]@));
                    assert(gone.contains(lost@[0]@));
                }
                if exists|k: Seq<char>| #[trigger] gone.contains(k) {
                    let k = choose|k: Seq<char>| #[trigger] gone.contains(k);
                    assert(names(lost@, k));
                }
            }
            assert forall|k: Seq<char>| views(kept_ids@).contains(k) <==> target.dom().contains(k) by {
                if views(kept_ids@).contains(k) {
                    let j = choose|j: int| 0 <= j < views(kept_ids@).len() && views(kept_ids@)[j] == k;
                    assert(kept_ids@[j]@ == kept_view[j].id@);
                    assert(sighted(kept_view, k));
                }
                if target.dom().contains(k) {
                    let a = choose|a: int| 0 <= a < kept_view.len() && #[trigger] kept_view[a].id@ == k;
                    assert(views(kept_ids@)[a] == k);
                }
            }
            assert(views(kept_ids@).no_duplicates()) by {
                assert forall|a: int, b: int| 0 <= a < views(kept_ids@).len() && 0 <= b < views(kept_ids@).len() && a != b
                    implies views(kept_ids@)[a] != views(kept_ids@)[b] by {
                    assert(kept_ids@[a]@ == kept_view[a].id@);
                    assert(kept_ids@[b]@ == kept_view[b].id@);
                }
            }
            assert forall|k: Seq<char>| views(lost@).contains(k) <==> gone.contains(k) by {
                if views(lost@).contains(k) {
                    let j = choose|j: int| 0 <= j < views(lost@).len() && views(lost@)[j] == k;
                    assert(lost@[j]@ == k);
                    assert(names(lost@, k));
                }
                if gone.contains(k) {
                    assert(names(lost@, k));
                    let a = choose|a: int| 0 <= a < lost@.len() && #[trigger] lost@[a]@ == k;
                    assert(views(lost@)[a] == k);
                }
            }
            assert(views(lost@).no_duplicates()) by {
                assert forall|a: int, b: int| 0 <= a < views(lost@).len() && 0 <= b < views(lost@).len() && a != b
                    implies views(lost@)[a] != views(lost@)[b] by {
                    assert(views(lost@)[a] == lost@[a]@);
                    assert(views(lost@)[b] == lost@[b]@);
                }
            }
        }
        if new.is_some() || lost.len() > 0 {
            let peers = sort_ids(&kept_ids);
            let lost_sorted = sort_ids(&lost);
            proof {
                lemma_views_list_exactly(peers@, kept_at(seen0, opt_id(heard), now, timeout).dom());
                lemma_views_list_exactly(lost_sorted@, lost_at(seen0, opt_id(heard), now, timeout));
            }
            Some(PeerChange { peers, new, lost: lost_sorted })
        } else {
            None
        }
    }
}

/// A peer heard for the first time is among the live peers right away, and every peer kept
/// was heard within the timeout.
pub proof fn lemma_heard_peer_is_live(
    seen: Map<Seq<char>, u64>,
    heard: Option<Seq<char>>,
    now: u64,
    timeout: u64,
)
    ensures
        heard matches Some(id) ==> kept_at(seen, heard, now, timeout).contains_key(id),
        forall|k: Seq<char>|
            #[trigger] kept_at(seen, heard, now, timeout).contains_key(k) ==> !expired(
                kept_at(seen, heard, now, timeout)[k],
                now,
                timeout,
            ),
        forall|k: Seq<char>|
            #[trigger] lost_at(seen, heard, now, timeout).contains(k) ==> !kept_at(
                seen,
                heard,
                now,
                timeout,
            ).contains_key(k),
{
}

} // verus!
