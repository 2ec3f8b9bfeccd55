//! The order of node identifiers and sorting by it.
//!
//! Identifiers are ordered as Rust orders strings: lexicographically by their UTF-8 bytes.

use vstd::prelude::*;
use vstd::utf8::encode_utf8;

verus! {

broadcast use vstd::seq_lib::group_to_multiset_ensures;

/// Lexicographic order on byte strings: `a` is a prefix of `b`, or at the first difference
/// `a` has the smaller byte.
pub open spec fn bytes_le(a: Seq<u8>, b: Seq<u8>) -> bool
    decreases a.len(),
{
    if a.len() == 0 {
        true
    } else if b.len() == 0 {
        false
    } else if a[0] != b[0] {
        a[0] < b[0]
    } else {
        bytes_le(a.drop_first(), b.drop_first())
    }
}

/// The order of identifiers: by their UTF-8 encodings.
pub open spec fn id_le(a: Seq<char>, b: Seq<char>) -> bool {
    bytes_le(encode_utf8(a), encode_utf8(b))
}

/// The identifiers that a list of strings stands for.
pub open spec fn views(s: Seq<String>) -> Seq<Seq<char>> {
    s.map_values(|x: String| x@)
}

/// A list of identifiers in ascending order.
pub open spec fn sorted_ids(s: Seq<String>) -> bool {
    forall|i: int, j: int| 0 <= i < j < s.len() ==> id_le(#[trigger] s[i]@, #[trigger] s[j]@)
}

pub proof fn lemma_bytes_le_total(a: Seq<u8>, b: Seq<u8>)
    ensures
        bytes_le(a, b) || bytes_le(b, a),
    decreases a.len(),
{
    if a.len() > 0 && b.len() > 0 && a[0] == b[0] {
        lemma_bytes_le_total(a.drop_first(), b.drop_first());
    }
}

pub proof fn lemma_bytes_le_transitive(a: Seq<u8>, b: Seq<u8>, c: Seq<u8>)
    requires
        bytes_le(a, b),
        bytes_le(b, c),
    ensures
        bytes_le(a, c),
    decreases a.len(),
{
    if a.len() > 0 && b.len() > 0 && c.len() > 0 && a[0] == b[0] && b[0] == c[0] {
        lemma_bytes_le_transitive(a.drop_first(), b.drop_first(), c.drop_first());
    }
}

pub proof fn lemma_bytes_le_antisymmetric(a: Seq<u8>, b: Seq<u8>)
    requires
        bytes_le(a, b),
        bytes_le(b, a),
    ensures
        a == b,
    decreases a.len(),
{
    if a.len() > 0 && b.len() > 0 {
        lemma_bytes_le_antisymmetric(a.drop_first(), b.drop_first());
        assert(a =~= seq![a[0]] + a.drop_first());
        assert(b =~= seq![b[0]] + b.drop_first());
    }
}

/// Whether identifier `a` comes before or equals `b`.
pub fn id_le_exec(a: &String, b: &String) -> (r: bool)
    ensures
        r == id_le(a@, b@),
{
    let ab = a.as_str().as_bytes();
    let bb = b.as_str().as_bytes();
    let ghost x = encode_utf8(a@);
    let ghost y = encode_utf8(b@);
    proof {
        assert(x.skip(0) =~= x);
        assert(y.skip(0) =~= y);
    }
    let mut i: usize = 0;
    while i < ab.len() && i < bb.len() && ab[i] == bb[i]
        invariant
            ab@ == x,
            bb@ == y,
            i <= ab@.len(),
            i <= bb@.len(),
            bytes_le(x, y) == bytes_le(x.skip(i as int), y.skip(i as int)),
        decreases ab@.len() - i,
    {
        proof {
            assert(x.skip(i as int).drop_first() =~= x.skip(i + 1));
            assert(y.skip(i as int).drop_first() =~= y.skip(i + 1));
        }
        i = i + 1;
    }
    if i == ab.len() {
        true
    } else if i == bb.len() {
        false
    } else {
        proof {
            assert(x.skip(i as int)[0] == ab@[i as int]);
            assert(y.skip(i as int)[0] == bb@[i as int]);
        }
        ab[i] < bb[i]
    }
}

/// The identifiers of `v` in ascending order.
pub fn sort_ids(v: &Vec<String>) -> (r: Vec<String>)
    ensures
        views(r@).to_multiset() == views(v@).to_multiset(),
        r@.len() == v@.len(),
        sorted_ids(r@),
        forall|k: Seq<char>| views(r@).contains(k) <==> views(v@).contains(k),
        views(v@).no_duplicates() ==> views(r@).no_duplicates(),
{
    let mut out: Vec<String> = Vec::new();
    let mut i: usize = 0;
    proof {
        assert(views(v@.take(0)) =~= views(out@));
    }
    while i < v.len()
        invariant
            i <= v@.len(),
            views(out@).to_multiset() == views(v@.take(i as int)).to_multiset(),
            sorted_ids(out@),
        decreases v@.len() - i,
    {
        let s = v[i].clone();
        let mut p: usize = 0;
        while p < out.len() && id_le_exec(&out[p], &s)
            invariant
                p <= out@.len(),
                forall|k: int| 0 <= k < p ==> id_le(#[trigger] out@[k]@, s@),
            decreases out@.len() - p,
        {
            p = p + 1;
        }
        let ghost before = out@;
        proof {
            if p < out@.len() {
                lemma_bytes_le_total(encode_utf8(out@[p as int]@), encode_utf8(s@));
            }
        }
        out.insert(p, s);
        proof {
            assert(views(out@) =~= views(before).insert(p as int, s@));
            assert(views(v@.take(i + 1)) =~= views(v@.take(i as int)).push(v@[i as int]@));
            vstd::seq_lib::to_multiset_insert(views(before), p as int, s@);
            vstd::seq_lib::to_multiset_build(views(v@.take(i as int)), v@[i as int]@);
            assert forall|a: int, b: int| 0 <= a < b < out@.len() implies id_le(
                #[trigger] out@[a]@,
                #[trigger] out@[b]@,
            ) by {
                if a < p && b == p {
                } else if a < p && b > p {
                    assert(out@[b] == before[b - 1]);
                    if p < before.len() {
                        assert(id_le(before[a]@, before[b - 1]@));
                    }
                } else if a == p {
                    assert(out@[b] == before[b - 1]);
                    if b - 1 > p {
                        assert(id_le(before[p as int]@, before[b - 1]@));
                        lemma_bytes_le_transitive(
                            encode_utf8(s@),
                            encode_utf8(before[p as int]@),
                            encode_utf8(before[b - 1]@),
                        );
                    }
                } else if a > p {
                    assert(out@[a] == before[a - 1]);
                    assert(out@[b] == before[b - 1]);
                } else {
                    assert(out@[a] == before[a]);
                    assert(out@[b] == before[b]);
                }
            }
        }
        i = i + 1;
    }
    proof {
        assert(v@.take(v@.len() as int) =~= v@);
        assert(out@.len() == views(out@).len());
        vstd::seq_lib::to_multiset_len(views(out@));
        vstd::seq_lib::to_multiset_len(views(v@));
        assert forall|k: Seq<char>| views(out@).contains(k) <==> views(v@).contains(k) by {
            vstd::seq_lib::to_multiset_contains(views(out@), k);
            vstd::seq_lib::to_multiset_contains(views(v@), k);
        }
        if views(v@).no_duplicates() {
            views(v@).lemma_multiset_has_no_duplicates();
            views(out@).lemma_multiset_has_no_duplicates_conv();
        }
    }
    out
}

} // verus!
