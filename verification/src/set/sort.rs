use vstd::prelude::*;
use core::cmp::Ordering;

verus! {

/// A value that carries the key by which it is ordered.
pub trait KeyValue<K> {
    spec fn key_of(&self) -> K;

    fn key(&self) -> (k: &K)
        ensures
            *k == self.key_of(),
    ;
}

/// The values with their keys.
pub open spec fn keyed<K, V: KeyValue<K>>(s: Seq<V>) -> Seq<(K, V)> {
    Seq::new(s.len(), |i: int| (s[i].key_of(), s[i]))
}

/// The probe `f` takes a key by reference; this is the same probe on keys by
/// value.
pub open spec fn is_probe_ref<K: Ord, F: Fn(&K) -> Ordering>(f: F) -> bool {
    &&& forall|k: K| #[trigger] f.requires((&k,))
    &&& forall|a: K, b: K, x: Ordering, y: Ordering|
        crate::order::key_le(a, b) && #[trigger] f.ensures((&a,), x) && #[trigger] f.ensures((&b,), y) ==> {
            &&& x == Ordering::Greater ==> y == Ordering::Greater
            &&& x == Ordering::Equal ==> y != Ordering::Less
        }
}

/// Position `p` answers a floor query for the probe `f`.
pub open spec fn floor_by_ref<K: Ord, V, F: Fn(&K) -> Ordering>(s: Seq<(K, V)>, f: F, p: int) -> bool {
    &&& 0 <= p < s.len()
    &&& exists|x: Ordering|
        {
            &&& #[trigger] f.ensures((&s[p].0,), x)
            &&& x != Ordering::Greater
            &&& x == Ordering::Equal || forall|t: int, o: Ordering|
                p < t < s.len() && #[trigger] f.ensures((&s[t].0,), o) ==> o == Ordering::Greater
        }
}

/// The probe `f` calls every key greater.
pub open spec fn all_above_by_ref<K: Ord, V, F: Fn(&K) -> Ordering>(s: Seq<(K, V)>, f: F) -> bool {
    forall|t: int, o: Ordering|
        0 <= t < s.len() && #[trigger] f.ensures((&s[t].0,), o) ==> o == Ordering::Greater
}

/// An ordered collection of values that carry their keys. A value is reached
/// by its position.
pub trait SetCollection<K: Ord, V: KeyValue<K>> {
    /// The collection is consistent: the values are in key order.
    spec fn wf(&self) -> bool;

    /// The values in key order.
    spec fn entries(&self) -> Seq<V>;

    proof fn lemma_wf(&self)
        requires
            self.wf(),
        ensures
            crate::order::total_order::<K>(),
            crate::order::sorted_by_key(keyed(self.entries())),
            self.entries().len() <= crate::map::sort::MAX_LEN,
    ;

    fn is_empty(&self) -> (empty: bool)
        requires
            self.wf(),
        ensures
            empty == (self.entries().len() == 0),
    ;

    /// Adds a value where its key keeps the order.
    fn insert(&mut self, val: V)
        requires
            old(self).wf(),
            old(self).entries().len() < crate::map::sort::MAX_LEN,
        ensures
            final(self).wf(),
            exists|q: int|
                {
                    &&& 0 <= q <= old(self).entries().len()
                    &&& final(self).entries() == #[trigger] old(self).entries().insert(q, val)
                },
    ;

    /// Removes one value whose key equals `key`, if there is any.
    fn delete(&mut self, key: &K)
        requires
            old(self).wf(),
        ensures
            final(self).wf(),
            !crate::order::holds_key(keyed(old(self).entries()), *key) ==> final(self).entries() == old(
                self,
            ).entries(),
            crate::order::holds_key(keyed(old(self).entries()), *key) ==> exists|q: int|
                {
                    &&& crate::order::hit(keyed(old(self).entries()), *key, q)
                    &&& final(self).entries() == #[trigger] old(self).entries().remove(q)
                },
    ;

    /// Removes the value at position `index`.
    fn delete_by_index(&mut self, index: u32)
        requires
            old(self).wf(),
            index < old(self).entries().len(),
        ensures
            final(self).wf(),
            final(self).entries() == old(self).entries().remove(index as int),
    ;

    /// A value whose key equals `key`.
    fn get_value(&self, key: &K) -> (found: Option<&V>)
        requires
            self.wf(),
        ensures
            found is None <==> !crate::order::holds_key(keyed(self.entries()), *key),
            found is Some ==> exists|q: int|
                (#[trigger] crate::order::hit(keyed(self.entries()), *key, q)) && self.entries()[q] == *found->0,
    ;

    /// The position behind `index`.
    fn index_after(&self, index: u32) -> (next: u32)
        requires
            index < u32::MAX,
        ensures
            next == index + 1,
    ;

    /// The position before `index`.
    fn index_before(&self, index: u32) -> (prev: u32)
        requires
            index > 0,
        ensures
            prev == index - 1,
    ;

    fn value_by_index(&self, index: u32) -> (val: &V)
        requires
            self.wf(),
            index < self.entries().len(),
        ensures
            *val == self.entries()[index as int],
    ;

    /// The value at position `index`, for writing. The collection stays
    /// consistent if the key stays what it is.
    fn value_by_index_mut(&mut self, index: u32) -> (val: &mut V)
        requires
            old(self).wf(),
            index < old(self).entries().len(),
        ensures
            *val == old(self).entries()[index as int],
            final(self).entries() == old(self).entries().update(index as int, *final(val)),
            final(val).key_of() == old(self).entries()[index as int].key_of() ==> final(self).wf(),
    ;

    /// The position of a value whose key equals `key` or, where there is
    /// none, of the last value whose key is below `key`; `EMPTY_REF` where
    /// every key is above `key`.
    fn first_index_less(&self, key: &K) -> (index: u32)
        requires
            self.wf(),
        ensures
            index == crate::EMPTY_REF <==> crate::order::all_above(keyed(self.entries()), *key),
            index != crate::EMPTY_REF ==> crate::order::floor_at(keyed(self.entries()), *key, index as int),
    ;

    /// As `first_index_less`, for a probe `f` that says how a key compares
    /// with what is looked for.
    fn first_index_less_by<F>(&self, f: F) -> (index: u32) where F: Fn(&K) -> Ordering
        requires
            self.wf(),
            is_probe_ref(f),
        ensures
            index == crate::EMPTY_REF <==> all_above_by_ref(keyed(self.entries()), f),
            index != crate::EMPTY_REF ==> floor_by_ref(keyed(self.entries()), f, crate::sorted::at32(index)),
    ;

    fn clear(&mut self)
        requires
            old(self).wf(),
        ensures
            final(self).wf(),
            final(self).entries() == Seq::<V>::empty(),
    ;
}

impl KeyValue<i8> for i8 {
    open spec fn key_of(&self) -> i8 {
        *self
    }

    fn key(&self) -> (k: &i8) {
        self
    }
}

impl KeyValue<i16> for i16 {
    open spec fn key_of(&self) -> i16 {
        *self
    }

    fn key(&self) -> (k: &i16) {
        self
    }
}

impl KeyValue<i32> for i32 {
    open spec fn key_of(&self) -> i32 {
        *self
    }

    fn key(&self) -> (k: &i32) {
        self
    }
}

impl KeyValue<i64> for i64 {
    open spec fn key_of(&self) -> i64 {
        *self
    }

    fn key(&self) -> (k: &i64) {
        self
    }
}

impl KeyValue<u8> for u8 {
    open spec fn key_of(&self) -> u8 {
        *self
    }

    fn key(&self) -> (k: &u8) {
        self
    }
}

impl KeyValue<u16> for u16 {
    open spec fn key_of(&self) -> u16 {
        *self
    }

    fn key(&self) -> (k: &u16) {
        self
    }
}

impl KeyValue<u32> for u32 {
    open spec fn key_of(&self) -> u32 {
        *self
    }

    fn key(&self) -> (k: &u32) {
        self
    }
}

impl KeyValue<u64> for u64 {
    open spec fn key_of(&self) -> u64 {
        *self
    }

    fn key(&self) -> (k: &u64) {
        self
    }
}

impl KeyValue<usize> for usize {
    open spec fn key_of(&self) -> usize {
        *self
    }

    fn key(&self) -> (k: &usize) {
        self
    }
}

} // verus!
