use vstd::prelude::*;
use core::cmp::Ordering;
use crate::{Expiration, ExpiredKey};

verus! {

/// The key is expired at `time`: its expiration is not after `time`.
pub open spec fn expired<K: ExpiredKey<E>, E: Expiration>(key: K, time: E) -> bool {
    crate::order::key_le(crate::key_time(key), time)
}

/// `from` says where in `before` each entry of `after` stood: the order is
/// kept, and no entry is left out that is not expired at `time`.
pub open spec fn evicts_by<K: ExpiredKey<E>, E: Expiration, V>(
    before: Seq<(K, V)>,
    after: Seq<(K, V)>,
    time: E,
    from: Seq<int>,
) -> bool {
    &&& from.len() == after.len()
    &&& forall|j: int| 0 <= j < from.len() ==> 0 <= #[trigger] from[j] < before.len() && after[j] == before[from[j]]
    &&& forall|i: int, j: int| 0 <= i < j < from.len() ==> #[trigger] from[i] < #[trigger] from[j]
    &&& forall|i: int| 0 <= i < before.len() && !expired(#[trigger] before[i].0, time) ==> from.contains(i)
}

/// `after` is `before` without some entries that are expired at `time`.
pub open spec fn evicts_to<K: ExpiredKey<E>, E: Expiration, V>(
    before: Seq<(K, V)>,
    after: Seq<(K, V)>,
    time: E,
) -> bool {
    exists|from: Seq<int>| evicts_by(before, after, time, from)
}

/// Where anything is left, something is left that is not expired at
/// `time`: the entries were not passed over unseen.
pub open spec fn some_live<K: ExpiredKey<E>, E: Expiration, V>(s: Seq<(K, V)>, time: E) -> bool {
    s.len() == 0 || exists|i: int| 0 <= i < s.len() && !expired(#[trigger] s[i].0, time)
}

/// An eviction that leaves nothing, or that began with an entry that is not
/// expired, leaves nothing or an entry that is not expired.
pub proof fn lemma_some_live<K: ExpiredKey<E>, E: Expiration, V>(
    before: Seq<(K, V)>,
    after: Seq<(K, V)>,
    time: E,
    none: bool,
    kept: (K, V),
)
    requires
        evicts_to(before, after, time),
        none ==> after.len() == 0,
        !none ==> before.contains(kept) && !expired(kept.0, time),
    ensures
        some_live(after, time),
{
    if !none {
        lemma_evict_keeps(before, after, time);
        let i = choose|i: int| 0 <= i < before.len() && before[i] == kept;
        assert(after.contains(before[i]));
        let j = choose|j: int| 0 <= j < after.len() && after[j] == kept;
        assert(!expired(after[j].0, time));
    }
}

/// Dropping nothing is an eviction.
pub proof fn lemma_evict_none<K: ExpiredKey<E>, E: Expiration, V>(before: Seq<(K, V)>, time: E)
    ensures
        evicts_to(before, before, time),
{
    let from = Seq::new(before.len(), |j: int| j);
    assert forall|i: int| 0 <= i < before.len() implies from.contains(i) by {
        assert(from[i] == i);
    }
    assert(evicts_by(before, before, time, from));
}

/// Dropping one expired entry is an eviction.
pub proof fn lemma_evict_one<K: ExpiredKey<E>, E: Expiration, V>(before: Seq<(K, V)>, q: int, time: E)
    requires
        0 <= q < before.len(),
        expired(before[q].0, time),
    ensures
        evicts_to(before, before.remove(q), time),
{
    let after = before.remove(q);
    let from = Seq::new(
        after.len(),
        |j: int|
            if j < q {
                j
            } else {
                j + 1
            },
    );
    assert forall|i: int| 0 <= i < before.len() && !expired(#[trigger] before[i].0, time) implies from.contains(
        i,
    ) by {
        if i < q {
            assert(from[i] == i);
        } else {
            assert(from[i - 1] == i);
        }
    }
    assert(evicts_by(before, after, time, from));
}

/// Evictions at one time follow each other to an eviction.
pub proof fn lemma_evict_more<K: ExpiredKey<E>, E: Expiration, V>(
    a: Seq<(K, V)>,
    b: Seq<(K, V)>,
    c: Seq<(K, V)>,
    time: E,
)
    requires
        evicts_to(a, b, time),
        evicts_to(b, c, time),
    ensures
        evicts_to(a, c, time),
{
    let f = choose|from: Seq<int>| evicts_by(a, b, time, from);
    let g = choose|from: Seq<int>| evicts_by(b, c, time, from);
    let h = Seq::new(c.len(), |j: int| f[g[j]]);
    assert forall|j: int| 0 <= j < h.len() implies 0 <= #[trigger] h[j] < a.len() && c[j] == a[h[j]] by {
        assert(0 <= g[j] < b.len());
        assert(0 <= f[g[j]] < a.len());
    }
    assert forall|i: int, j: int| 0 <= i < j < h.len() implies #[trigger] h[i] < #[trigger] h[j] by {
        assert(g[i] < g[j]);
        assert(0 <= g[i] < b.len() && 0 <= g[j] < b.len());
        assert(f[g[i]] < f[g[j]]);
    }
    assert forall|i: int| 0 <= i < a.len() && !expired(#[trigger] a[i].0, time) implies h.contains(i) by {
        assert(f.contains(i));
        let m = choose|m: int| 0 <= m < f.len() && f[m] == i;
        assert(b[m] == a[i]);
        assert(!expired(b[m].0, time));
        assert(g.contains(m));
        let n = choose|n: int| 0 <= n < g.len() && g[n] == m;
        assert(h[n] == i);
    }
    assert(evicts_by(a, c, time, h));
}

/// An eviction leaves no more entries than there were.
pub proof fn lemma_evict_shorter<K: ExpiredKey<E>, E: Expiration, V>(
    before: Seq<(K, V)>,
    after: Seq<(K, V)>,
    time: E,
)
    requires
        evicts_to(before, after, time),
    ensures
        after.len() <= before.len(),
{
    let f = choose|from: Seq<int>| evicts_by(before, after, time, from);
    assert forall|i: int, j: int| 0 <= i < f.len() && 0 <= j < f.len() && i != j implies f[i] != f[j] by {
        if i < j {
            assert(f[i] < f[j]);
        } else {
            assert(f[j] < f[i]);
        }
    }
    crate::rb::walk::lemma_distinct_within(f, before.len() as int);
}

/// An entry that is not expired survives an eviction, and what an eviction
/// leaves was there before, in the same order.
pub proof fn lemma_evict_keeps<K: ExpiredKey<E>, E: Expiration, V>(
    before: Seq<(K, V)>,
    after: Seq<(K, V)>,
    time: E,
)
    requires
        evicts_to(before, after, time),
    ensures
        forall|i: int|
            0 <= i < before.len() && !expired(before[i].0, time) ==> after.contains(#[trigger] before[i]),
        forall|j: int| 0 <= j < after.len() ==> before.contains(#[trigger] after[j]),
        crate::order::sorted_by_key(before) ==> crate::order::sorted_by_key(after),
{
    let f = choose|from: Seq<int>| evicts_by(before, after, time, from);
    assert forall|i: int| 0 <= i < before.len() && !expired(before[i].0, time) implies after.contains(
        #[trigger] before[i],
    ) by {
        assert(f.contains(i));
        let m = choose|m: int| 0 <= m < f.len() && f[m] == i;
        assert(after[m] == before[i]);
    }
    assert forall|j: int| 0 <= j < after.len() implies before.contains(#[trigger] after[j]) by {
        assert(0 <= f[j] < before.len() && after[j] == before[f[j]]);
    }
    if crate::order::sorted_by_key(before) {
        assert forall|i: int, j: int| 0 <= i < j < after.len() implies crate::order::key_le(
            #[trigger] after[i].0,
            #[trigger] after[j].0,
        ) by {
            assert(f[i] < f[j]);
            assert(0 <= f[i] < before.len() && after[i] == before[f[i]]);
            assert(0 <= f[j] < before.len() && after[j] == before[f[j]]);
            assert(crate::order::key_le(before[f[i]].0, before[f[j]].0));
        }
    }
}

/// Position `p` is the last whose key the probe `f` may call less.
pub open spec fn below_by<K: Ord, V, F: Fn(K) -> Ordering>(s: Seq<(K, V)>, f: F, p: int) -> bool {
    &&& 0 <= p < s.len()
    &&& f.ensures((s[p].0,), Ordering::Less)
    &&& forall|t: int, o: Ordering| p < t < s.len() && #[trigger] f.ensures((s[t].0,), o) ==> o != Ordering::Less
}

/// The probe `f` calls no key less.
pub open spec fn none_below_by<K: Ord, V, F: Fn(K) -> Ordering>(s: Seq<(K, V)>, f: F) -> bool {
    forall|t: int, o: Ordering| 0 <= t < s.len() && #[trigger] f.ensures((s[t].0,), o) ==> o != Ordering::Less
}

/// An ordered collection of keys with values in which keys expire. Every
/// operation is told the time; it may drop entries that are expired at that
/// time, and it neither finds nor returns one.
pub trait KeyExpCollection<K: ExpiredKey<E>, E: Expiration, V> {
    /// The collection is consistent. Every operation needs and keeps this.
    spec fn wf(&self) -> bool;

    /// The entries in key order, those included that are expired and not yet
    /// dropped.
    spec fn entries(&self) -> Seq<(K, V)>;

    proof fn lemma_wf(&self)
        requires
            self.wf(),
        ensures
            crate::order::total_order::<K>(),
            crate::order::total_order::<E>(),
            crate::order::sorted_by_key(self.entries()),
            self.entries().len() <= crate::map::sort::MAX_LEN,
    ;

    fn is_empty(&self) -> (empty: bool)
        requires
            self.wf(),
        ensures
            empty == (self.entries().len() == 0),
    ;

    /// Adds an entry behind the entries whose keys are not above `key`.
    fn insert(&mut self, key: K, val: V, time: E)
        requires
            old(self).wf(),
            !expired(key, time),
            old(self).entries().len() < crate::map::sort::MAX_LEN,
        ensures
            final(self).wf(),
            exists|mid: Seq<(K, V)>, q: int|
                {
                    &&& evicts_to(old(self).entries(), mid, time)
                    &&& crate::order::insert_point(mid, key, q)
                    &&& final(self).entries() == #[trigger] mid.insert(q, (key, val))
                },
    ;

    /// The value of an entry whose key equals `key`.
    fn get_value(&mut self, time: E, key: K) -> (found: Option<V>)
        requires
            old(self).wf(),
        ensures
            final(self).wf(),
            evicts_to(old(self).entries(), final(self).entries(), time),
            some_live(final(self).entries(), time),
            found is None <==> !crate::order::holds_key(final(self).entries(), key),
            found is Some ==> exists|q: int|
                {
                    &&& #[trigger] crate::order::hit(final(self).entries(), key, q)
                    &&& final(self).entries()[q].1 == found->0
                    &&& !expired(final(self).entries()[q].0, time)
                },
    ;

    /// The value of the last entry whose key is below `key`, or `default`.
    fn first_less(&mut self, time: E, default: V, key: K) -> (val: V)
        requires
            old(self).wf(),
        ensures
            final(self).wf(),
            evicts_to(old(self).entries(), final(self).entries(), time),
            some_live(final(self).entries(), time),
            (crate::order::none_below(final(self).entries(), key) && val == default) || exists|p: int|
                {
                    &&& #[trigger] crate::order::below_at(final(self).entries(), key, p)
                    &&& final(self).entries()[p].1 == val
                    &&& !expired(final(self).entries()[p].0, time)
                },
    ;

    /// As `first_less`, for a probe `f` that says how a key compares with
    /// what is looked for.
    fn first_less_by<F>(&mut self, time: E, default: V, f: F) -> (val: V) where F: Fn(K) -> Ordering
        requires
            old(self).wf(),
            crate::order::is_probe(f),
        ensures
            final(self).wf(),
            evicts_to(old(self).entries(), final(self).entries(), time),
            some_live(final(self).entries(), time),
            (none_below_by(final(self).entries(), f) && val == default) || exists|p: int|
                {
                    &&& #[trigger] below_by(final(self).entries(), f, p)
                    &&& final(self).entries()[p].1 == val
                    &&& !expired(final(self).entries()[p].0, time)
                },
    ;

    /// The value of an entry whose key equals `key` or, where there is none,
    /// of the last entry whose key is below `key`, or `default`.
    fn first_less_or_equal(&mut self, time: E, default: V, key: K) -> (val: V)
        requires
            old(self).wf(),
        ensures
            final(self).wf(),
            evicts_to(old(self).entries(), final(self).entries(), time),
            some_live(final(self).entries(), time),
            (crate::order::all_above(final(self).entries(), key) && val == default) || exists|p: int|
                {
                    &&& #[trigger] crate::order::floor_at(final(self).entries(), key, p)
                    &&& final(self).entries()[p].1 == val
                    &&& !expired(final(self).entries()[p].0, time)
                },
    ;

    /// As `first_less_or_equal`, for a probe `f`.
    fn first_less_or_equal_by<F>(&mut self, time: E, default: V, f: F) -> (val: V) where F: Fn(K) -> Ordering
        requires
            old(self).wf(),
            crate::order::is_probe(f),
        ensures
            final(self).wf(),
            evicts_to(old(self).entries(), final(self).entries(), time),
            some_live(final(self).entries(), time),
            (crate::order::all_above_by(final(self).entries(), f) && val == default) || exists|p: int|
                {
                    &&& #[trigger] crate::order::floor_by(final(self).entries(), f, p)
                    &&& final(self).entries()[p].1 == val
                    &&& !expired(final(self).entries()[p].0, time)
                },
    ;

    fn clear(&mut self)
        requires
            old(self).wf(),
        ensures
            final(self).wf(),
            final(self).entries() == Seq::<(K, V)>::empty(),
    ;
}

/// The entries of `s` that are not expired at `time`, in their order.
pub open spec fn unexpired<K: ExpiredKey<E>, E: Expiration, V>(s: Seq<(K, V)>, time: E) -> Seq<(K, V)>
    decreases s.len(),
{
    if s.len() == 0 {
        s
    } else if expired(s.last().0, time) {
        unexpired(s.drop_last(), time)
    } else {
        unexpired(s.drop_last(), time).push(s.last())
    }
}

/// The values of the entries of `s`, in their order.
pub open spec fn values<K, V>(s: Seq<(K, V)>) -> Seq<V> {
    Seq::new(s.len(), |i: int| s[i].1)
}

/// Dropping every expired entry is an eviction, and leaves no expired entry.
pub proof fn lemma_unexpired<K: ExpiredKey<E>, E: Expiration, V>(s: Seq<(K, V)>, time: E)
    ensures
        evicts_to(s, unexpired(s, time), time),
        forall|j: int| 0 <= j < unexpired(s, time).len() ==> !expired(#[trigger] unexpired(s, time)[j].0, time),
        unexpired(s, time).len() <= s.len(),
    decreases s.len(),
{
    if s.len() == 0 {
        lemma_evict_none(s, time);
    } else {
        let rest = s.drop_last();
        let n = s.len() - 1;
        lemma_unexpired(rest, time);
        let f = choose|from: Seq<int>| evicts_by(rest, unexpired(rest, time), time, from);
        if expired(s.last().0, time) {
            assert forall|i: int| 0 <= i < s.len() && !expired(#[trigger] s[i].0, time) implies f.contains(i) by {
                assert(rest[i] == s[i]);
                assert(!expired(rest[i].0, time));
            }
            assert(evicts_by(s, unexpired(s, time), time, f)) by {
                assert forall|j: int| 0 <= j < f.len() implies 0 <= #[trigger] f[j] < s.len() && unexpired(
                    s,
                    time,
                )[j] == s[f[j]] by {
                    assert(rest[f[j]] == s[f[j]]);
                }
            }
        } else {
            let g = f.push(n);
            let out = unexpired(s, time);
            assert forall|j: int| 0 <= j < g.len() implies 0 <= #[trigger] g[j] < s.len() && out[j] == s[g[j]] by {
                if j < f.len() {
                    assert(g[j] == f[j]);
                    assert(rest[f[j]] == s[f[j]]);
                }
            }
            assert forall|i: int, j: int| 0 <= i < j < g.len() implies #[trigger] g[i] < #[trigger] g[j] by {
                if j < f.len() {
                    assert(f[i] < f[j]);
                } else {
                    assert(0 <= f[i] < rest.len());
                }
            }
            assert forall|i: int| 0 <= i < s.len() && !expired(#[trigger] s[i].0, time) implies g.contains(i) by {
                if i < n {
                    assert(rest[i] == s[i]);
                    assert(!expired(rest[i].0, time));
                    assert(f.contains(i));
                    let m = choose|m: int| 0 <= m < f.len() && f[m] == i;
                    assert(g[m] == i);
                } else {
                    assert(g[f.len() as int] == n);
                }
            }
            assert(evicts_by(s, out, time, g));
        }
    }
}

/// An eviction that leaves no expired entry dropped every expired entry.
pub proof fn lemma_evict_all<K: ExpiredKey<E>, E: Expiration, V>(
    before: Seq<(K, V)>,
    after: Seq<(K, V)>,
    time: E,
)
    requires
        evicts_to(before, after, time),
        forall|j: int| 0 <= j < after.len() ==> !expired(#[trigger] after[j].0, time),
    ensures
        after == unexpired(before, time),
    decreases before.len(),
{
    let f = choose|from: Seq<int>| evicts_by(before, after, time, from);
    if before.len() == 0 {
        if after.len() > 0 {
            assert(0 <= f[0] < before.len());
        }
        assert(after =~= before);
    } else {
        let rest = before.drop_last();
        let n = before.len() - 1;
        if expired(before.last().0, time) {
            assert forall|j: int| 0 <= j < f.len() implies 0 <= #[trigger] f[j] < rest.len() && after[j]
                == rest[f[j]] by {
                assert(0 <= f[j] < before.len() && after[j] == before[f[j]]);
                if f[j] == n {
                    assert(expired(after[j].0, time));
                }
            }
            assert forall|i: int| 0 <= i < rest.len() && !expired(#[trigger] rest[i].0, time) implies f.contains(
                i,
            ) by {
                assert(before[i] == rest[i]);
                assert(!expired(before[i].0, time));
            }
            assert(evicts_by(rest, after, time, f));
            lemma_evict_all(rest, after, time);
        } else {
            assert(!expired(before[n].0, time));
            assert(f.contains(n));
            let m = choose|m: int| 0 <= m < f.len() && f[m] == n;
            if m < f.len() - 1 {
                assert(f[m] < f[f.len() - 1]);
                assert(0 <= f[f.len() - 1] < before.len());
            }
            let g = f.drop_last();
            let cut = after.drop_last();
            assert forall|j: int| 0 <= j < g.len() implies 0 <= #[trigger] g[j] < rest.len() && cut[j]
                == rest[g[j]] by {
                assert(g[j] == f[j]);
                assert(f[j] < f[f.len() - 1]);
                assert(0 <= f[j] < before.len() && after[j] == before[f[j]]);
            }
            assert forall|i: int, j: int| 0 <= i < j < g.len() implies #[trigger] g[i] < #[trigger] g[j] by {
                assert(f[i] < f[j]);
            }
            assert forall|i: int| 0 <= i < rest.len() && !expired(#[trigger] rest[i].0, time) implies g.contains(
                i,
            ) by {
                assert(before[i] == rest[i]);
                assert(!expired(before[i].0, time));
                assert(f.contains(i));
                let k = choose|k: int| 0 <= k < f.len() && f[k] == i;
                assert(g[k] == i);
            }
            assert(evicts_by(rest, cut, time, g));
            assert forall|j: int| 0 <= j < cut.len() implies !expired(#[trigger] cut[j].0, time) by {
                assert(cut[j] == after[j]);
            }
            lemma_evict_all(rest, cut, time);
            assert(after =~= cut.push(before.last())) by {
                assert(after[after.len() - 1] == before[f[f.len() - 1]]);
            }
        }
    }
}

/// What is expired stays expired.
pub proof fn lemma_expired_later<K: ExpiredKey<E>, E: Expiration>(key: K, time: E, later: E)
    requires
        crate::order::total_order::<E>(),
        crate::order::key_le(time, later),
        expired(key, time),
    ensures
        expired(key, later),
{
    crate::order::lemma_order(crate::key_time(key), time, later);
}

/// An eviction does not change what is left once every expired entry is
/// dropped. A collection that drops expired entries where it passes them
/// and one that drops them all hold, after the same operations, the same
/// entries that are not expired.
pub proof fn lemma_evict_same<K: ExpiredKey<E>, E: Expiration, V>(
    before: Seq<(K, V)>,
    after: Seq<(K, V)>,
    time: E,
)
    requires
        evicts_to(before, after, time),
    ensures
        unexpired(after, time) == unexpired(before, time),
{
    lemma_unexpired(after, time);
    lemma_evict_more(before, after, unexpired(after, time), time);
    lemma_evict_all(before, unexpired(after, time), time);
}

/// An entry that is not expired and is not touched can be looked up after
/// any eviction: a lookup of its key does not come back empty.
pub proof fn lemma_retrievable<K: ExpiredKey<E>, E: Expiration, V>(
    before: Seq<(K, V)>,
    after: Seq<(K, V)>,
    time: E,
    i: int,
    found: Option<V>,
)
    requires
        crate::order::total_order::<K>(),
        evicts_to(before, after, time),
        0 <= i < before.len(),
        !expired(before[i].0, time),
        found is None <==> !crate::order::holds_key(after, before[i].0),
    ensures
        after.contains(before[i]),
        found is Some,
{
    lemma_evict_keeps(before, after, time);
    let j = choose|j: int| 0 <= j < after.len() && after[j] == before[i];
    crate::order::lemma_order(after[j].0, after[j].0, after[j].0);
    assert(crate::order::key_eq(after[j].0, before[i].0));
}

/// Two collections whose entries that are not expired are the same give the
/// same answer to a lookup, where no two of these entries have equal keys.
pub proof fn lemma_lookup_agrees<K: ExpiredKey<E>, E: Expiration, V>(
    one: Seq<(K, V)>,
    other: Seq<(K, V)>,
    time: E,
    key: K,
    p: int,
    q: int,
)
    requires
        crate::order::total_order::<K>(),
        unexpired(one, time) == unexpired(other, time),
        crate::order::distinct_keys(unexpired(one, time)),
        crate::order::hit(one, key, p),
        !expired(one[p].0, time),
        crate::order::hit(other, key, q),
        !expired(other[q].0, time),
    ensures
        one[p] == other[q],
{
    let live = unexpired(one, time);
    lemma_unexpired(one, time);
    lemma_unexpired(other, time);
    lemma_evict_keeps(one, live, time);
    lemma_evict_keeps(other, live, time);
    let a = choose|a: int| 0 <= a < live.len() && live[a] == one[p];
    let b = choose|b: int| 0 <= b < live.len() && live[b] == other[q];
    crate::order::lemma_order(live[a].0, key, live[b].0);
    crate::order::lemma_order(key, live[b].0, key);
    crate::order::lemma_order(live[b].0, key, live[a].0);
    if a < b {
        assert(!crate::order::key_eq(live[a].0, live[b].0));
    }
    if b < a {
        assert(!crate::order::key_eq(live[b].0, live[a].0));
    }
}

/// Two collections whose entries that are not expired are the same give the
/// same answer to a floor query, where no two of these entries have equal
/// keys: the entry that either finds is an entry of both.
pub proof fn lemma_floor_agrees<K: ExpiredKey<E>, E: Expiration, V>(
    one: Seq<(K, V)>,
    other: Seq<(K, V)>,
    time: E,
    key: K,
    p: int,
    q: int,
)
    requires
        crate::order::total_order::<K>(),
        crate::order::sorted_by_key(one),
        crate::order::sorted_by_key(other),
        unexpired(one, time) == unexpired(other, time),
        crate::order::distinct_keys(unexpired(one, time)),
        crate::order::floor_at(one, key, p),
        !expired(one[p].0, time),
        crate::order::floor_at(other, key, q),
        !expired(other[q].0, time),
    ensures
        one[p] == other[q],
{
    let live = unexpired(one, time);
    lemma_unexpired(one, time);
    lemma_unexpired(other, time);
    lemma_evict_keeps(one, live, time);
    lemma_evict_keeps(other, live, time);
    let a = choose|a: int| 0 <= a < live.len() && live[a] == one[p];
    let b = choose|b: int| 0 <= b < live.len() && live[b] == other[q];
    // each of the two entries stands in the other collection too
    assert(one.contains(live[b]));
    assert(other.contains(live[a]));
    let t = choose|t: int| 0 <= t < one.len() && one[t] == other[q];
    let u = choose|u: int| 0 <= u < other.len() && other[u] == one[p];
    crate::order::lemma_order(one[p].0, key, one[t].0);
    crate::order::lemma_order(one[t].0, key, one[p].0);
    crate::order::lemma_order(key, one[t].0, one[p].0);
    crate::order::lemma_order(key, one[p].0, one[t].0);
    crate::order::lemma_order(one[p].0, one[t].0, key);
    crate::order::lemma_order(one[t].0, one[p].0, key);
    if t < p {
        assert(crate::order::key_le(one[t].0, one[p].0));
    }
    if p < t {
        assert(crate::order::key_le(one[p].0, one[t].0));
    }
    if u < q {
        assert(crate::order::key_le(other[u].0, other[q].0));
    }
    if q < u {
        assert(crate::order::key_le(other[q].0, other[u].0));
    }
    if a < b {
        assert(!crate::order::key_eq(live[a].0, live[b].0));
    }
    if b < a {
        assert(!crate::order::key_eq(live[b].0, live[a].0));
    }
}

} // verus!
