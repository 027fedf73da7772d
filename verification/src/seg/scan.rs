use vstd::prelude::*;
use vstd::multiset::Multiset;
use crate::{Expiration, ExpiredVal};

verus! {

/// The entries of `s` from position `i` on.
pub open spec fn tail<T>(s: Seq<T>, i: int) -> Seq<T> {
    s.subrange(i, s.len() as int)
}

/// Going past an entry takes it out of what is still to come.
pub proof fn lemma_tail_step<T>(s: Seq<T>, i: int)
    requires
        0 <= i < s.len(),
    ensures
        tail(s, i + 1).to_multiset() =~= tail(s, i).to_multiset().remove(s[i]),
        tail(s, i).to_multiset().count(s[i]) > 0,
{
    let t = tail(s, i);
    assert(t.remove(0) =~= tail(s, i + 1));
    assert(t[0] == s[i]);
    vstd::seq_lib::to_multiset_remove(t, 0);
    t.to_multiset_ensures();
    assert(t.contains(s[i]));
}

/// Taking an entry out and putting the last in its place takes it out of
/// what is still to come.
pub proof fn lemma_tail_swap<T>(s: Seq<T>, i: int)
    requires
        0 <= i < s.len(),
    ensures
        tail(s.update(i, s.last()).drop_last(), i).to_multiset() =~= tail(s, i).to_multiset().remove(s[i]),
{
    let n = s.len() as int;
    let after = s.update(i, s.last()).drop_last();
    lemma_tail_step(s, i);
    if i == n - 1 {
        assert(tail(after, i) =~= Seq::<T>::empty());
        assert(tail(s, i + 1) =~= Seq::<T>::empty());
    } else {
        let mid = s.subrange(i + 1, n - 1);
        assert(tail(s, i + 1) =~= mid.push(s.last()));
        assert(tail(after, i) =~= seq![s.last()] + mid);
        vstd::seq_lib::to_multiset_build(mid, s.last());
        vstd::seq_lib::lemma_multiset_commutative(seq![s.last()], mid);
        assert(seq![s.last()] =~= Seq::<T>::empty().push(s.last()));
        vstd::seq_lib::to_multiset_build(Seq::<T>::empty(), s.last());
        assert(Seq::<T>::empty().to_multiset() =~= Multiset::<T>::empty()) by {
            Seq::<T>::empty().to_multiset_ensures();
            vstd::multiset::lemma_multiset_empty_len(Seq::<T>::empty().to_multiset());
        }
    }
}

/// Taking an entry out of an array and putting the last in its place leaves
/// the other entries.
pub proof fn lemma_swap_remove<T>(s: Seq<T>, i: int)
    requires
        0 <= i < s.len(),
    ensures
        s.update(i, s.last()).drop_last().to_multiset() =~= s.to_multiset().remove(s[i]),
        s.to_multiset().count(s[i]) > 0,
{
    let after = s.update(i, s.last()).drop_last();
    let head = s.subrange(0, i);
    lemma_tail_swap(s, i);
    lemma_tail_step(s, i);
    assert(s =~= head + tail(s, i));
    assert(after =~= head + tail(after, i));
    vstd::seq_lib::lemma_multiset_commutative(head, tail(s, i));
    vstd::seq_lib::lemma_multiset_commutative(head, tail(after, i));
}

/// `after` holds the entries of `before` but for entries that are stale at
/// `time`: no entry is new, and none is gone that is not stale.
pub open spec fn dropped_stale<E: Expiration, V: ExpiredVal<E>>(
    before: Seq<Seq<(V, u64)>>,
    after: Seq<Seq<(V, u64)>>,
    time: E,
) -> bool {
    &&& before.len() == after.len()
    &&& forall|c: int, e: (V, u64)|
        0 <= c < before.len() ==> (#[trigger] after[c].to_multiset().count(e)) <= before[c].to_multiset().count(e)
            && (!crate::seg::tree::stale(e.0, time) ==> after[c].to_multiset().count(e)
            == before[c].to_multiset().count(e))
}

/// Taking out an entry that a filter rejects leaves what the filter lets
/// through; taking out one that it lets through takes it out there.
pub proof fn lemma_filter_remove<T>(m: Multiset<T>, f: spec_fn(T) -> bool, x: T)
    requires
        m.count(x) > 0,
    ensures
        !f(x) ==> m.remove(x).filter(f) =~= m.filter(f),
        f(x) ==> m.remove(x).filter(f) =~= m.filter(f).remove(x),
        f(x) ==> m.filter(f).count(x) > 0,
{
    assert forall|y: T| m.remove(x).filter(f).count(y) == (if f(x) {
        m.filter(f).remove(x).count(y)
    } else {
        m.filter(f).count(y)
    }) by {
        vstd::multiset::axiom_filter_count(m, f, y);
        vstd::multiset::axiom_filter_count(m.remove(x), f, y);
        vstd::multiset::axiom_filter_count(m, f, x);
    }
    vstd::multiset::axiom_filter_count(m, f, x);
}

/// From the node `k` on, a query hands out the same from buckets that are
/// the same where the set `rest` has a node.
pub proof fn lemma_yield_same<E: Expiration, V: ExpiredVal<E>>(
    a: Seq<Seq<(V, u64)>>,
    b: Seq<Seq<(V, u64)>>,
    rest: u64,
    other: u64,
    mask: u64,
    time: E,
    k: int,
)
    requires
        a.len() == b.len(),
        0 <= k,
        forall|c: int|
            k <= c < 64 ==> (crate::seg::bit::bit(rest, c as u64) <==> #[trigger] crate::seg::bit::bit(
                other,
                c as u64,
            )),
        forall|c: int| k <= c < 64 && c < a.len() && crate::seg::bit::bit(rest, c as u64) ==> #[trigger] a[c] == b[c],
    ensures
        crate::seg::tree::yield_from(a, rest, mask, time, k) == crate::seg::tree::yield_from(
            b,
            other,
            mask,
            time,
            k,
        ),
    decreases 64 - k,
{
    if k < 64 {
        lemma_yield_same(a, b, rest, other, mask, time, k + 1);
        assert(crate::seg::bit::bit(rest, k as u64) <==> crate::seg::bit::bit(other, k as u64));
        if crate::seg::bit::bit(rest, k as u64) && k < a.len() {
            assert(a[k] == b[k]);
        }
    }
}

/// Where the set `rest` has no node from `k` on a query hands out nothing.
pub proof fn lemma_yield_none<E: Expiration, V: ExpiredVal<E>>(
    a: Seq<Seq<(V, u64)>>,
    rest: u64,
    mask: u64,
    time: E,
    k: int,
)
    requires
        0 <= k,
        forall|c: int| k <= c < 64 ==> !#[trigger] crate::seg::bit::bit(rest, c as u64),
    ensures
        crate::seg::tree::yield_from(a, rest, mask, time, k) == Multiset::<(V, u64)>::empty(),
    decreases 64 - k,
{
    if k < 64 {
        lemma_yield_none(a, rest, mask, time, k + 1);
        assert(!crate::seg::bit::bit(rest, k as u64));
    }
}

/// What a query hands out from the nodes of `rest` is what it hands out from
/// the lowest of them and from the others.
pub proof fn lemma_yield_split<E: Expiration, V: ExpiredVal<E>>(
    a: Seq<Seq<(V, u64)>>,
    rest: u64,
    other: u64,
    mask: u64,
    time: E,
    p: int,
    k: int,
)
    requires
        0 <= k <= p < 64,
        p < a.len(),
        crate::seg::heap::lowest(rest, p as u64),
        forall|i: u64|
            i < 64 ==> (#[trigger] crate::seg::bit::bit(other, i) <==> crate::seg::bit::bit(rest, i) && i != p),
    ensures
        crate::seg::tree::yield_from(a, rest, mask, time, k) =~= crate::seg::tree::yield_of(
            a[p],
            p,
            mask,
            time,
        ).add(crate::seg::tree::yield_from(a, other, mask, time, k)),
    decreases p - k,
{
    if k < p {
        lemma_yield_split(a, rest, other, mask, time, p, k + 1);
        assert(!crate::seg::bit::bit(rest, k as u64));
        assert(!crate::seg::bit::bit(other, k as u64));
    } else {
        assert forall|c: int| p + 1 <= c < 64 implies (crate::seg::bit::bit(rest, c as u64)
            <==> #[trigger] crate::seg::bit::bit(other, c as u64)) by {
            assert(crate::seg::bit::bit(other, c as u64) <==> crate::seg::bit::bit(rest, c as u64) && c != p);
        }
        lemma_yield_same(a, a, rest, other, mask, time, p + 1);
        assert(crate::seg::bit::bit(rest, p as u64));
        assert(!crate::seg::bit::bit(other, p as u64));
    }
}

/// A word has one lowest set bit.
pub proof fn lemma_lowest_one(w: u64, p: u64, q: u64)
    requires
        crate::seg::heap::lowest(w, p),
        crate::seg::heap::lowest(w, q),
    ensures
        p == q,
{
    if p < q {
        assert(!crate::seg::bit::bit(w, p));
    }
    if q < p {
        assert(!crate::seg::bit::bit(w, q));
    }
}

/// From the node `k` on, a query hands out an entry as often as it stands
/// in the bucket of the first node that the query and the entry have in
/// common, if that node is yet to come and the value is not stale, and
/// never otherwise.
pub proof fn lemma_yield_count<E: Expiration, V: ExpiredVal<E>>(
    buckets: Seq<Seq<(V, u64)>>,
    rest: u64,
    mask: u64,
    time: E,
    e: (V, u64),
    k: int,
)
    requires
        0 <= k <= 64,
    ensures
        crate::seg::tree::yield_from(buckets, rest, mask, time, k).count(e) == (if (e.1 & mask) != 0 && !crate::seg::tree::stale(
            e.0,
            time,
        ) && k <= vstd::std_specs::bits::u64_trailing_zeros(e.1 & mask) < buckets.len()
            && crate::seg::bit::bit(rest, vstd::std_specs::bits::u64_trailing_zeros(e.1 & mask) as u64) {
            buckets[vstd::std_specs::bits::u64_trailing_zeros(e.1 & mask) as int].to_multiset().count(e)
        } else {
            0
        }),
    decreases 64 - k,
{
    let both = e.1 & mask;
    let first = vstd::std_specs::bits::u64_trailing_zeros(both);
    crate::seg::heap::lemma_lowest(both);
    if k < 64 {
        lemma_yield_count(buckets, rest, mask, time, e, k + 1);
        if crate::seg::bit::bit(rest, k as u64) && k < buckets.len() {
            let pick = |x: (V, u64)| crate::seg::tree::due(x, k, mask, time);
            vstd::multiset::axiom_filter_count(buckets[k].to_multiset(), pick, e);
            if crate::seg::heap::lowest(both, k as u64) {
                lemma_lowest_one(both, k as u64, first as u64);
            }
        }
    }
}

/// A value that is filed afresh under the range of leaves from `a` to `b` is
/// handed out once by a query for the leaves from `c` to `d` if the two
/// ranges have a leaf in common, and is not handed out otherwise.
pub proof fn lemma_found_once<E: Expiration, V: ExpiredVal<E>>(
    before: Seq<Seq<(V, u64)>>,
    after: Seq<Seq<(V, u64)>>,
    val: V,
    time: E,
    place: u64,
    query: u64,
    a: int,
    b: int,
    c: int,
    d: int,
)
    requires
        0 <= a <= b < 32,
        0 <= c <= d < 32,
        crate::seg::heap::is_place_mask(place, a, b),
        crate::seg::heap::is_intersect_mask(query, c, d),
        !crate::seg::tree::stale(val, time),
        before.len() == after.len(),
        forall|n: u64| n < 64 && #[trigger] crate::seg::bit::bit(place, n) ==> n < after.len(),
        forall|n: int| 0 <= n < before.len() ==> !(#[trigger] before[n]).contains((val, place)),
        forall|n: int|
            0 <= n < before.len() ==> #[trigger] after[n] == if n < 64 && crate::seg::bit::bit(place, n as u64) {
                before[n].push((val, place))
            } else {
                before[n]
            },
    ensures
        crate::seg::tree::yield_all(after, query, time).count((val, place)) == if a <= d && c <= b {
            1nat
        } else {
            0nat
        },
{
    let e = (val, place);
    let both = place & query;
    let first = vstd::std_specs::bits::u64_trailing_zeros(both);
    crate::seg::heap::lemma_masks_meet(place, query, a, b, c, d);
    crate::seg::heap::lemma_lowest(both);
    crate::seg::heap::lemma_and(place, query);
    lemma_yield_count(after, query, query, time, e, 0);
    if both != 0 {
        assert(crate::seg::bit::bit(both, first as u64));
        assert(crate::seg::bit::bit(place, first as u64) && crate::seg::bit::bit(query, first as u64));
        let n = first as int;
        assert(after[n] == before[n].push(e));
        before[n].to_multiset_ensures();
        vstd::seq_lib::to_multiset_build(before[n], e);
        assert(before[n].to_multiset().count(e) == 0);
    }
}

} // verus!
