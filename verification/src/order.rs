//! The total order on keys that every collection in this crate relies on.
//!
//! Keys are compared through `Ord`. The collections are only meaningful when
//! that comparison is a total order in the sense of `vstd::laws_cmp`; the
//! predicates below give the three outcomes short names, and the lemma
//! collects the consequences of the order laws that the proofs use.

use vstd::prelude::*;
use core::cmp::Ordering;
use vstd::std_specs::cmp::{OrdSpec, PartialEqSpec, PartialOrdSpec};

verus! {

/// `K`'s comparison operators agree with each other and form a total order.
pub open spec fn total_order<K: Ord>() -> bool {
    vstd::laws_cmp::obeys_cmp::<K>()
}

/// `a` sorts strictly before `b`.
pub open spec fn key_lt<K: Ord>(a: K, b: K) -> bool {
    a.cmp_spec(&b) == Ordering::Less
}

/// `a` sorts before `b` or beside it.
pub open spec fn key_le<K: Ord>(a: K, b: K) -> bool {
    a.cmp_spec(&b) != Ordering::Greater
}

/// `a` and `b` sort at the same place. This need not be structural equality:
/// a key may carry data that the order ignores.
pub open spec fn key_eq<K: Ord>(a: K, b: K) -> bool {
    a.cmp_spec(&b) == Ordering::Equal
}

/// Consequences of the order laws for three arbitrary keys.
pub proof fn lemma_order<K: Ord>(a: K, b: K, c: K)
    requires
        total_order::<K>(),
    ensures
        key_eq(a, a),
        key_le(a, a),
        !key_lt(a, a),
        key_lt(a, b) <==> !key_le(b, a),
        key_eq(a, b) <==> key_eq(b, a),
        key_eq(a, b) <==> (key_le(a, b) && key_le(b, a)),
        key_lt(a, b) ==> key_le(a, b),
        key_le(a, b) <==> (key_lt(a, b) || key_eq(a, b)),
        key_le(a, b) || key_le(b, a),
        key_le(a, b) && key_le(b, c) ==> key_le(a, c),
        key_lt(a, b) && key_le(b, c) ==> key_lt(a, c),
        key_le(a, b) && key_lt(b, c) ==> key_lt(a, c),
        key_eq(a, b) && key_eq(b, c) ==> key_eq(a, c),
{
    reveal(vstd::laws_cmp::obeys_cmp_ord);
    reveal(vstd::laws_cmp::obeys_cmp_partial_ord);
    reveal(vstd::laws_cmp::obeys_partial_cmp_spec_properties);
    reveal(vstd::laws_eq::obeys_eq_spec_properties);
    let ab = a.partial_cmp_spec(&b);
    let ba = b.partial_cmp_spec(&a);
    let bc = b.partial_cmp_spec(&c);
    let cb = c.partial_cmp_spec(&b);
    let ac = a.partial_cmp_spec(&c);
    let ca = c.partial_cmp_spec(&a);
    let aa = a.partial_cmp_spec(&a);
    assert(a.eq_spec(&b) <==> b.eq_spec(&a));
    assert(b.eq_spec(&c) <==> c.eq_spec(&b));
    assert(a.eq_spec(&c) <==> c.eq_spec(&a));
    assert(a.eq_spec(&b) && b.eq_spec(&c) ==> a.eq_spec(&c));
    assert(a.eq_spec(&c) && c.eq_spec(&b) ==> a.eq_spec(&b));
    assert(b.eq_spec(&a) && a.eq_spec(&c) ==> b.eq_spec(&c));
    assert(ab == Some(Ordering::Less) && bc == Some(Ordering::Less) ==> ac == Some(Ordering::Less));
    assert(ac == Some(Ordering::Less) && cb == Some(Ordering::Less) ==> ab == Some(Ordering::Less));
    assert(ba == Some(Ordering::Less) && ac == Some(Ordering::Less) ==> bc == Some(Ordering::Less));
    assert(ca == Some(Ordering::Less) && ab == Some(Ordering::Less) ==> cb == Some(Ordering::Less));
    assert(bc == Some(Ordering::Less) && ca == Some(Ordering::Less) ==> ba == Some(Ordering::Less));
    assert(cb == Some(Ordering::Less) && ba == Some(Ordering::Less) ==> ca == Some(Ordering::Less));
}

/// Whether `a` sorts strictly before `b`.
pub fn is_less<K: Ord>(a: &K, b: &K) -> (r: bool)
    requires
        total_order::<K>(),
    ensures
        r == key_lt(*a, *b),
{
    proof {
        reveal(vstd::laws_cmp::obeys_cmp_ord);
        reveal(vstd::laws_cmp::obeys_cmp_partial_ord);
    }
    *a < *b
}

/// The three-way comparison of `a` with `b`.
pub fn three_way<K: Ord>(a: &K, b: &K) -> (r: Ordering)
    requires
        total_order::<K>(),
    ensures
        (r == Ordering::Less) == key_lt(*a, *b),
        (r == Ordering::Equal) == key_eq(*a, *b),
        (r == Ordering::Greater) == key_lt(*b, *a),
{
    proof {
        reveal(vstd::laws_cmp::obeys_cmp_ord);
        reveal(vstd::laws_cmp::obeys_cmp_partial_ord);
        lemma_order(*a, *b, *a);
    }
    a.cmp(b)
}

/// The entries are in non-decreasing order of their keys.
pub open spec fn sorted_by_key<K: Ord, V>(s: Seq<(K, V)>) -> bool {
    forall|i: int, j: int| 0 <= i < j < s.len() ==> key_le(#[trigger] s[i].0, #[trigger] s[j].0)
}

/// Position `q` is where an entry with `key` is inserted: behind every entry
/// whose key is not above `key` and before every entry whose key is.
pub open spec fn insert_point<K: Ord, V>(s: Seq<(K, V)>, key: K, q: int) -> bool {
    &&& 0 <= q <= s.len()
    &&& forall|t: int| 0 <= t < q ==> key_le(#[trigger] s[t].0, key)
    &&& forall|t: int| q <= t < s.len() ==> key_lt(key, #[trigger] s[t].0)
}

/// Some entry has a key equal to `key`.
pub open spec fn holds_key<K: Ord, V>(s: Seq<(K, V)>, key: K) -> bool {
    exists|t: int| 0 <= t < s.len() && key_eq(#[trigger] s[t].0, key)
}

/// The entry at position `p` has a key equal to `key`.
pub open spec fn hit<K: Ord, V>(s: Seq<(K, V)>, key: K, p: int) -> bool {
    0 <= p < s.len() && key_eq(s[p].0, key)
}

/// Position `p` answers a floor query for `key`: its key equals `key`, or it
/// is the last position whose key is below `key`.
pub open spec fn floor_at<K: Ord, V>(s: Seq<(K, V)>, key: K, p: int) -> bool {
    &&& 0 <= p < s.len()
    &&& key_le(s[p].0, key)
    &&& key_eq(s[p].0, key) || forall|t: int| p < t < s.len() ==> key_lt(key, #[trigger] s[t].0)
}

/// No entry has a key equal to or below `key`.
pub open spec fn all_above<K: Ord, V>(s: Seq<(K, V)>, key: K) -> bool {
    forall|t: int| 0 <= t < s.len() ==> key_lt(key, #[trigger] s[t].0)
}

/// Position `p` is the last whose key is below `key`.
pub open spec fn below_at<K: Ord, V>(s: Seq<(K, V)>, key: K, p: int) -> bool {
    &&& 0 <= p < s.len()
    &&& key_lt(s[p].0, key)
    &&& forall|t: int| p < t < s.len() ==> key_le(key, #[trigger] s[t].0)
}

/// No entry has a key below `key`.
pub open spec fn none_below<K: Ord, V>(s: Seq<(K, V)>, key: K) -> bool {
    forall|t: int| 0 <= t < s.len() ==> key_le(key, #[trigger] s[t].0)
}

/// `f` tells how a key compares with some fixed probe: it is defined on every
/// key, and along the key order its answers never step back from `Greater`
/// to `Equal` or from `Equal` to `Less`.
pub open spec fn is_probe<K: Ord, F: Fn(K) -> Ordering>(f: F) -> bool {
    &&& forall|k: K| #[trigger] f.requires((k,))
    &&& forall|a: K, b: K, x: Ordering, y: Ordering|
        key_le(a, b) && #[trigger] f.ensures((a,), x) && #[trigger] f.ensures((b,), y) ==> {
            &&& x == Ordering::Greater ==> y == Ordering::Greater
            &&& x == Ordering::Equal ==> y != Ordering::Less
        }
}

/// Position `p` answers a floor query for the probe `f`: `f` may call its key
/// equal to the probe, or it is the last position whose key `f` may call
/// less.
pub open spec fn floor_by<K: Ord, V, F: Fn(K) -> Ordering>(s: Seq<(K, V)>, f: F, p: int) -> bool {
    &&& 0 <= p < s.len()
    &&& exists|x: Ordering|
        {
            &&& #[trigger] f.ensures((s[p].0,), x)
            &&& x != Ordering::Greater
            &&& x == Ordering::Equal || forall|t: int, o: Ordering|
                p < t < s.len() && #[trigger] f.ensures((s[t].0,), o) ==> o == Ordering::Greater
        }
}

/// The probe `f` calls every key greater.
pub open spec fn all_above_by<K: Ord, V, F: Fn(K) -> Ordering>(s: Seq<(K, V)>, f: F) -> bool {
    forall|t: int, o: Ordering|
        0 <= t < s.len() && #[trigger] f.ensures((s[t].0,), o) ==> o == Ordering::Greater
}

/// No two entries have equal keys.
pub open spec fn distinct_keys<K: Ord, V>(s: Seq<(K, V)>) -> bool {
    forall|i: int, j: int| 0 <= i < j < s.len() ==> !key_eq(#[trigger] s[i].0, #[trigger] s[j].0)
}

/// An entry has but one place in a sorted sequence: two collections that hold
/// the same entries hold the same after each inserted the same entry.
pub proof fn lemma_insert_agrees<K: Ord, V>(s: Seq<(K, V)>, key: K, val: V, p: int, q: int)
    requires
        total_order::<K>(),
        insert_point(s, key, p),
        insert_point(s, key, q),
    ensures
        p == q,
        s.insert(p, (key, val)) == s.insert(q, (key, val)),
{
    if p < q {
        assert(key_le(s[p].0, key) && key_lt(key, s[p].0));
        lemma_order(key, s[p].0, key);
    }
    if q < p {
        assert(key_le(s[q].0, key) && key_lt(key, s[q].0));
        lemma_order(key, s[q].0, key);
    }
}

/// Where no two keys are equal a key is found at one place only: two
/// collections that hold the same entries give the same answer to a lookup
/// and hold the same after each deleted the key.
pub proof fn lemma_hit_agrees<K: Ord, V>(s: Seq<(K, V)>, key: K, p: int, q: int)
    requires
        total_order::<K>(),
        distinct_keys(s),
        hit(s, key, p),
        hit(s, key, q),
    ensures
        p == q,
{
    lemma_order(s[p].0, key, s[q].0);
    lemma_order(key, s[q].0, key);
    lemma_order(s[q].0, key, s[p].0);
    if p < q {
        assert(!key_eq(s[p].0, s[q].0));
    }
    if q < p {
        assert(!key_eq(s[q].0, s[p].0));
    }
}

/// Where no two keys are equal a floor query has one answer: two collections
/// that hold the same entries find the same entry, or both find none.
pub proof fn lemma_floor_agrees<K: Ord, V>(s: Seq<(K, V)>, key: K, p: int, q: int)
    requires
        total_order::<K>(),
        sorted_by_key(s),
        distinct_keys(s),
        floor_at(s, key, p),
        floor_at(s, key, q),
    ensures
        p == q,
        !all_above(s, key),
{
    lemma_order(s[p].0, key, s[q].0);
    lemma_order(s[q].0, key, s[p].0);
    lemma_order(key, s[p].0, key);
    lemma_order(key, s[q].0, key);
    if p < q {
        assert(!key_eq(s[p].0, s[q].0));
        assert(key_le(s[p].0, s[q].0));
        lemma_order(s[p].0, s[q].0, key);
    }
    if q < p {
        assert(!key_eq(s[q].0, s[p].0));
        assert(key_le(s[q].0, s[p].0));
        lemma_order(s[q].0, s[p].0, key);
    }
}

/// A floor query by a probe has one answer in a sorted sequence of which
/// the probe calls at most one key equal: two collections that hold the
/// same entries answer it alike.
pub proof fn lemma_floor_by_agrees<K: Ord, V, F: Fn(K) -> Ordering>(s: Seq<(K, V)>, f: F, p: int, q: int)
    requires
        total_order::<K>(),
        sorted_by_key(s),
        is_probe(f),
        forall|i: int, j: int|
            0 <= i < j < s.len() ==> !(#[trigger] f.ensures((s[i].0,), Ordering::Equal) && #[trigger] f.ensures(
                (s[j].0,),
                Ordering::Equal,
            )),
        floor_by(s, f, p),
        floor_by(s, f, q),
    ensures
        p == q,
        !all_above_by(s, f),
{
    let x = choose|x: Ordering|
        {
            &&& #[trigger] f.ensures((s[p].0,), x)
            &&& x != Ordering::Greater
            &&& x == Ordering::Equal || forall|t: int, o: Ordering|
                p < t < s.len() && #[trigger] f.ensures((s[t].0,), o) ==> o == Ordering::Greater
        };
    let y = choose|y: Ordering|
        {
            &&& #[trigger] f.ensures((s[q].0,), y)
            &&& y != Ordering::Greater
            &&& y == Ordering::Equal || forall|t: int, o: Ordering|
                q < t < s.len() && #[trigger] f.ensures((s[t].0,), o) ==> o == Ordering::Greater
        };
    if p < q {
        assert(key_le(s[p].0, s[q].0));
        assert(x == Ordering::Equal);
        assert(y == Ordering::Equal);
    }
    if q < p {
        assert(key_le(s[q].0, s[p].0));
        assert(y == Ordering::Equal);
        assert(x == Ordering::Equal);
    }
}

/// The last entry below a key is one entry.
pub proof fn lemma_below_agrees<K: Ord, V>(s: Seq<(K, V)>, key: K, p: int, q: int)
    requires
        total_order::<K>(),
        below_at(s, key, p),
        below_at(s, key, q),
    ensures
        p == q,
        !none_below(s, key),
{
    lemma_order(key, s[p].0, key);
    lemma_order(key, s[q].0, key);
}

} // verus!
