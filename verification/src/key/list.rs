use vstd::prelude::*;
use core::cmp::Ordering;
use crate::{Expiration, ExpiredKey};
use crate::key::array::IntoArray;
use crate::key::exp::KeyExpCollection;
use crate::map::sort::MAX_LEN;
use crate::order::is_less;
use crate::rb::node::Entity;
use crate::sorted::{lower_bound, lower_bound_by, search_by, search_key, upper_bound};

verus! {

/// An ordered map whose keys expire, kept as a sorted array. Every operation
/// first drops all entries that are expired: the type is a plain model of
/// `KeyExpTree`.
pub struct KeyExpList<K, E, V> {
    pub buffer: Vec<Entity<K, V>>,
    /// No entry expires before this time.
    pub min_exp: E,
}

/// The earlier of two times.
#[inline]
pub fn earlier<E: Expiration>(a: E, b: E) -> (e: E)
    requires
        crate::order::total_order::<E>(),
    ensures
        e == a || e == b,
        crate::order::key_le(e, a),
        crate::order::key_le(e, b),
{
    proof {
        crate::order::lemma_order(a, b, a);
        crate::order::lemma_order(b, a, b);
    }
    if is_less(&b, &a) {
        b
    } else {
        a
    }
}

/// Where no entry is expired none is dropped.
pub proof fn lemma_all_live<K: ExpiredKey<E>, E: Expiration, V>(s: Seq<(K, V)>, time: E)
    requires
        forall|i: int| 0 <= i < s.len() ==> !crate::key::exp::expired(#[trigger] s[i].0, time),
    ensures
        crate::key::exp::unexpired(s, time) == s,
    decreases s.len(),
{
    if s.len() > 0 {
        let rest = s.drop_last();
        assert forall|i: int| 0 <= i < rest.len() implies !crate::key::exp::expired(#[trigger] rest[i].0, time) by {
            assert(rest[i] == s[i]);
        }
        lemma_all_live(rest, time);
        assert(!crate::key::exp::expired(s[s.len() - 1].0, time));
        assert(rest.push(s.last()) =~= s);
    }
}

impl<K: ExpiredKey<E>, E: Expiration, V: Copy> KeyExpList<K, E, V> {
    pub open spec fn inv(&self) -> bool {
        &&& crate::order::total_order::<K>()
        &&& crate::order::total_order::<E>()
        &&& crate::order::sorted_by_key(crate::sorted::pairs(self.buffer@))
        &&& self.buffer@.len() <= MAX_LEN
        &&& crate::keys_timed::<K, E>()
        &&& forall|i: int|
            0 <= i < self.buffer@.len() ==> crate::order::key_le(
                self.min_exp,
                crate::key_time((#[trigger] self.buffer@[i]).key),
            )
    }

    pub open spec fn seq(&self) -> Seq<(K, V)> {
        crate::sorted::pairs(self.buffer@)
    }

    /// An empty map with room for `capacity` entries.
    #[inline(always)]
    pub fn new(capacity: usize) -> (map: Self)
        requires
            crate::order::total_order::<K>(),
            crate::order::total_order::<E>(),
            crate::keys_timed::<K, E>(),
        ensures
            map.inv(),
            map.seq() == Seq::<(K, V)>::empty(),
    {
        let map = Self { buffer: Vec::with_capacity(capacity), min_exp: E::max_expiration() };
        proof {
            assert(map.seq() =~= Seq::<(K, V)>::empty());
        }
        map
    }

    /// Makes room for `capacity` entries in all.
    #[inline(always)]
    pub fn reserve_capacity(&mut self, capacity: usize)
        requires
            old(self).inv(),
        ensures
            final(self).inv(),
            final(self).seq() == old(self).seq(),
    {
        let have = self.buffer.len();
        let additional = if capacity > have {
            capacity - have
        } else {
            0
        };
        if additional > 0 {
            self.buffer.reserve(additional);
        }
    }

    /// `min_exp` is as a sweep leaves it: the time that never comes, or
    /// the expiration of an entry that is left where that is earlier.
    #[verifier::opaque]
    pub open spec fn swept_min(&self) -> bool {
        exists|m: E|
            {
                &&& #[trigger] call_ensures(E::max_expiration, (), m)
                &&& crate::order::key_le(self.min_exp, m)
                &&& self.min_exp == m || exists|i: int|
                    0 <= i < self.buffer@.len() && self.min_exp == crate::key_time((#[trigger] self.buffer@[i]).key)
            }
    }

    /// Drops every entry that is expired at `time`. Nothing is looked at
    /// where `time` lies before `min_exp`; otherwise `min_exp` is found
    /// anew.
    #[inline]
    pub fn clear_expired(&mut self, time: E)
        requires
            old(self).inv(),
        ensures
            final(self).inv(),
            final(self).seq() == crate::key::exp::unexpired(old(self).seq(), time),
            crate::order::key_lt(time, old(self).min_exp) ==> final(self).min_exp == old(self).min_exp
                && final(self).buffer@ == old(self).buffer@,
            !crate::order::key_lt(time, old(self).min_exp) ==> final(self).swept_min(),
    {
        if is_less(&time, &self.min_exp) {
            proof {
                assert forall|i: int| 0 <= i < self.seq().len() implies !crate::key::exp::expired(
                    #[trigger] self.seq()[i].0,
                    time,
                ) by {
                    let exp = crate::key_time(self.buffer@[i].key);
                    crate::order::lemma_order(time, self.min_exp, exp);
                    crate::order::lemma_order(exp, time, time);
                }
                lemma_all_live(self.seq(), time);
            }
            return ;
        }
        let mut new_min_exp = E::max_expiration();
        let ghost never = new_min_exp;
        proof {
            assert(call_ensures(E::max_expiration, (), never));
            crate::order::lemma_order(never, never, never);
        }
        let n = self.buffer.len();
        let mut kept: usize = 0;
        let mut next: usize = 0;
        let ghost all = self.seq();
        proof {
            assert(all.take(0) =~= Seq::<(K, V)>::empty());
            assert(self.seq().take(0) =~= Seq::<(K, V)>::empty());
        }
        while next < n
            invariant
                crate::order::total_order::<K>(),
                crate::order::total_order::<E>(),
                crate::keys_timed::<K, E>(),
                all == old(self).seq(),
                n == all.len(),
                self.buffer@.len() == n,
                kept <= next <= n,
                self.seq().take(kept as int) == crate::key::exp::unexpired(all.take(next as int), time),
                forall|i: int| next <= i < n ==> #[trigger] self.seq()[i] == all[i],
                forall|i: int|
                    0 <= i < kept ==> crate::order::key_le(
                        new_min_exp,
                        crate::key_time((#[trigger] self.buffer@[i]).key),
                    ),
                crate::order::key_le(new_min_exp, never),
                new_min_exp == never || exists|i: int|
                    0 <= i < kept && new_min_exp == crate::key_time((#[trigger] self.buffer@[i]).key),
            decreases n - next,
        {
            let key = self.buffer[next].key;
            let val = self.buffer[next].val;
            let exp = crate::expiration_of_key(&key);
            let keep = is_less(&time, &exp);
            let ghost before = self.seq();
            let ghost head = all.take(next as int);
            proof {
                crate::order::lemma_order(exp, time, time);
                assert(all.take(next + 1).drop_last() =~= head);
                assert(all.take(next + 1).last() == all[next as int]);
                assert(self.seq()[next as int] == all[next as int]);
            }
            if keep {
                let ghost old_min = new_min_exp;
                let ghost held = self.buffer@;
                new_min_exp = earlier(new_min_exp, exp);
                self.buffer[kept] = Entity::new(key, val);
                proof {
                    crate::order::lemma_order(new_min_exp, old_min, never);
                    if new_min_exp == exp {
                        assert(new_min_exp == crate::key_time(self.buffer@[kept as int].key));
                    } else if new_min_exp != never {
                        let i = choose|i: int|
                            0 <= i < kept && old_min == crate::key_time((#[trigger] held[i]).key);
                        assert(self.buffer@[i] == held[i]);
                    }
                    assert(self.seq().take(kept + 1) =~= before.take(kept as int).push((key, val)));
                    assert forall|i: int| next + 1 <= i < n implies #[trigger] self.seq()[i] == all[i] by {
                        assert(before[i] == all[i]);
                    }
                    assert forall|i: int| 0 <= i < kept + 1 implies crate::order::key_le(
                        new_min_exp,
                        crate::key_time((#[trigger] self.buffer@[i]).key),
                    ) by {
                        if i < kept {
                            crate::order::lemma_order(new_min_exp, old_min, crate::key_time(self.buffer@[i].key));
                        }
                    }
                }
                kept = kept + 1;
            }
            next = next + 1;
        }
        let ghost whole = self.buffer@;
        self.buffer.truncate(kept);
        self.min_exp = new_min_exp;
        proof {
            if new_min_exp != never {
                let i = choose|i: int|
                    0 <= i < kept && new_min_exp == crate::key_time((#[trigger] whole[i]).key);
                assert(self.buffer@[i] == whole[i]);
            }
            assert(self.swept_min()) by {
                reveal(KeyExpList::swept_min);
            }
            assert(all.take(n as int) =~= all);
            let out = crate::key::exp::unexpired(all, time);
            assert(self.seq() =~= out);
            crate::key::exp::lemma_unexpired(all, time);
            crate::key::exp::lemma_evict_keeps(all, out, time);
            crate::key::exp::lemma_evict_shorter(all, out, time);
        }
    }

    /// Once the expired entries are dropped none is left.
    pub proof fn lemma_cleared(&self, before: &Self, time: E)
        requires
            before.inv(),
            self.seq() == crate::key::exp::unexpired(before.seq(), time),
        ensures
            crate::key::exp::evicts_to(before.seq(), self.seq(), time),
            forall|j: int| 0 <= j < self.seq().len() ==> !crate::key::exp::expired(#[trigger] self.seq()[j].0, time),
            crate::key::exp::some_live(self.seq(), time),
    {
        crate::key::exp::lemma_unexpired(before.seq(), time);
        if self.seq().len() > 0 {
            assert(!crate::key::exp::expired(self.seq()[0].0, time));
        }
    }
}

impl<K: ExpiredKey<E>, E: Expiration, V: Copy> IntoArray<E, V> for KeyExpList<K, E, V> {
    open spec fn ready(&self) -> bool {
        self.inv()
    }

    open spec fn values_at(&self, time: E) -> Seq<V> {
        crate::key::exp::values(crate::key::exp::unexpired(self.seq(), time))
    }

    #[inline]
    fn into_ordered_vec(self, time: E) -> (values: Vec<V>) {
        let mut list = self;
        list.clear_expired(time);
        let n = list.buffer.len();
        let mut values: Vec<V> = Vec::with_capacity(n);
        let mut i: usize = 0;
        while i < n
            invariant
                n == list.buffer@.len(),
                i <= n,
                values@.len() == i,
                forall|j: int| 0 <= j < i ==> #[trigger] values@[j] == list.buffer@[j].val,
            decreases n - i,
        {
            values.push(list.buffer[i].val);
            i += 1;
        }
        proof {
            assert(values@ =~= crate::key::exp::values(list.seq()));
        }
        values
    }
}

impl<K: ExpiredKey<E>, E: Expiration, V: Copy> KeyExpCollection<K, E, V> for KeyExpList<K, E, V> {
    open spec fn wf(&self) -> bool {
        self.inv()
    }

    open spec fn entries(&self) -> Seq<(K, V)> {
        crate::sorted::pairs(self.buffer@)
    }

    proof fn lemma_wf(&self) {
    }

    #[inline]
    fn is_empty(&self) -> (empty: bool) {
        self.buffer.is_empty()
    }

    #[inline]
    fn insert(&mut self, key: K, val: V, time: E) {
        self.clear_expired(time);
        let ghost mid = self.seq();
        let ghost cleared = *self;
        proof {
            self.lemma_cleared(old(self), time);
            crate::key::exp::lemma_evict_shorter(old(self).seq(), mid, time);
        }
        self.min_exp = earlier(self.min_exp, crate::expiration_of_key(&key));
        let index = upper_bound(&self.buffer, key);
        self.buffer.insert(index, Entity::new(key, val));
        proof {
            let q = index as int;
            assert(self.seq() =~= mid.insert(q, (key, val)));
            assert forall|i: int, j: int| 0 <= i < j < self.seq().len() implies crate::order::key_le(
                #[trigger] self.seq()[i].0,
                #[trigger] self.seq()[j].0,
            ) by {
                if j < q {
                    assert(crate::order::key_le(mid[i].0, mid[j].0));
                } else if j == q {
                    assert(crate::order::key_le(mid[i].0, key));
                } else if i < q {
                    assert(crate::order::key_le(mid[i].0, mid[j - 1].0));
                } else if i == q {
                    assert(crate::order::key_lt(key, mid[j - 1].0));
                    crate::order::lemma_order(key, mid[j - 1].0, key);
                } else {
                    assert(crate::order::key_le(mid[i - 1].0, mid[j - 1].0));
                }
            }
            assert forall|i: int| 0 <= i < self.buffer@.len() implies crate::order::key_le(
                self.min_exp,
                crate::key_time((#[trigger] self.buffer@[i]).key),
            ) by {
                if i < q {
                    let e = cleared.buffer@[i];
                    crate::order::lemma_order(self.min_exp, cleared.min_exp, crate::key_time(e.key));
                } else if i > q {
                    let e = cleared.buffer@[i - 1];
                    crate::order::lemma_order(self.min_exp, cleared.min_exp, crate::key_time(e.key));
                }
            }
        }
    }

    #[inline]
    fn get_value(&mut self, time: E, key: K) -> (found: Option<V>) {
        self.clear_expired(time);
        proof {
            self.lemma_cleared(old(self), time);
        }
        match search_key(&self.buffer, key) {
            Ok(index) => {
                proof {
                    assert(crate::order::hit(self.seq(), key, index as int));
                }
                Some(self.buffer[index].val)
            },
            Err(q) => {
                proof {
                    let s = self.seq();
                    assert forall|t: int| 0 <= t < s.len() implies !crate::order::key_eq(#[trigger] s[t].0, key) by {
                        crate::order::lemma_order(s[t].0, key, key);
                    }
                }
                None
            },
        }
    }

    #[inline]
    fn first_less(&mut self, time: E, default: V, key: K) -> (val: V) {
        self.clear_expired(time);
        proof {
            self.lemma_cleared(old(self), time);
        }
        let index = lower_bound(&self.buffer, key);

        if index > 0 {
            proof {
                assert(crate::order::below_at(self.seq(), key, index - 1));
            }
            self.buffer[index - 1].val
        } else {
            default
        }
    }

    #[inline]
    fn first_less_by<F>(&mut self, time: E, default: V, f: F) -> (val: V) where F: Fn(K) -> Ordering {
        self.clear_expired(time);
        proof {
            self.lemma_cleared(old(self), time);
        }
        let index = lower_bound_by(&self.buffer, &f);

        if index > 0 {
            proof {
                assert(crate::key::exp::below_by(self.seq(), f, index - 1));
            }
            self.buffer[index - 1].val
        } else {
            default
        }
    }

    #[inline]
    fn first_less_or_equal(&mut self, time: E, default: V, key: K) -> (val: V) {
        self.clear_expired(time);
        proof {
            self.lemma_cleared(old(self), time);
        }
        match search_key(&self.buffer, key) {
            Ok(index) => {
                proof {
                    crate::order::lemma_order(self.seq()[index as int].0, key, key);
                    assert(crate::order::floor_at(self.seq(), key, index as int));
                }
                self.buffer[index].val
            },
            Err(index) => {
                if index > 0 {
                    proof {
                        crate::order::lemma_order(self.seq()[index - 1].0, key, key);
                        assert(crate::order::floor_at(self.seq(), key, index - 1));
                    }
                    self.buffer[index - 1].val
                } else {
                    default
                }
            },
        }
    }

    #[inline]
    fn first_less_or_equal_by<F>(&mut self, time: E, default: V, f: F) -> (val: V) where F: Fn(K) -> Ordering {
        self.clear_expired(time);
        proof {
            self.lemma_cleared(old(self), time);
        }
        match search_by(&self.buffer, &f) {
            Ok(index) => {
                proof {
                    assert(f.ensures((self.seq()[crate::sorted::at(index)].0,), Ordering::Equal));
                    assert(crate::order::floor_by(self.seq(), f, crate::sorted::at(index)));
                }
                self.buffer[index].val
            },
            Err(index) => {
                if index > 0 {
                    proof {
                        assert(f.ensures((self.seq()[index - 1].0,), Ordering::Less));
                        assert(crate::order::floor_by(self.seq(), f, index - 1));
                    }
                    self.buffer[index - 1].val
                } else {
                    default
                }
            },
        }
    }

    #[inline]
    fn clear(&mut self) {
        self.min_exp = E::max_expiration();
        self.buffer.clear();
        proof {
            assert(self.seq() =~= Seq::<(K, V)>::empty());
        }
    }
}

} // verus!
