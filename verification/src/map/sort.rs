use vstd::prelude::*;
use core::cmp::Ordering;

verus! {

/// The most entries a collection of this crate can hold: every entry is
/// reached by a `u32` index, and one index value stands for "none".
pub const MAX_LEN: usize = 0xFFFF_FFFE;

/// An ordered collection of keys with values. Equal keys may occur several
/// times; among them the entry inserted later stands later.
pub trait MapCollection<K: Ord, V> {
    /// The collection is consistent. Every operation needs and keeps this.
    spec fn wf(&self) -> bool;

    /// The entries in key order.
    spec fn entries(&self) -> Seq<(K, V)>;

    /// For each position of `entries`, the index under which the collection
    /// hands the entry out.
    spec fn indices(&self) -> Seq<u32>;

    /// The entries are sorted and each is reached by an index of its own.
    proof fn lemma_wf(&self)
        requires
            self.wf(),
        ensures
            crate::order::total_order::<K>(),
            crate::order::sorted_by_key(self.entries()),
            self.entries().len() <= MAX_LEN,
            self.indices().len() == self.entries().len(),
            self.indices().no_duplicates(),
            !self.indices().contains(crate::EMPTY_REF),
    ;

    fn is_empty(&self) -> (empty: bool)
        requires
            self.wf(),
        ensures
            empty == (self.entries().len() == 0),
    ;

    /// Adds an entry behind the entries whose keys are not above `key`.
    fn insert(&mut self, key: K, val: V)
        requires
            old(self).wf(),
            old(self).entries().len() < MAX_LEN,
        ensures
            final(self).wf(),
            exists|q: int|
                {
                    &&& crate::order::insert_point(old(self).entries(), key, q)
                    &&& final(self).entries() == #[trigger] old(self).entries().insert(q, (key, val))
                },
    ;

    /// Removes one entry whose key equals `key`, if there is any.
    fn delete(&mut self, key: K)
        requires
            old(self).wf(),
        ensures
            final(self).wf(),
            !crate::order::holds_key(old(self).entries(), key) ==> final(self).entries() == old(
                self,
            ).entries() && final(self).indices() == old(self).indices(),
            crate::order::holds_key(old(self).entries(), key) ==> exists|q: int|
                {
                    &&& crate::order::hit(old(self).entries(), key, q)
                    &&& final(self).entries() == #[trigger] old(self).entries().remove(q)
                },
    ;

    /// Removes the entry that is reached by `index`.
    fn delete_by_index(&mut self, index: u32)
        requires
            old(self).wf(),
            old(self).indices().contains(index),
        ensures
            final(self).wf(),
            final(self).entries() == old(self).entries().remove(old(self).indices().index_of(index)),
    ;

    /// The value of an entry whose key equals `key`.
    fn get_value(&self, key: K) -> (found: Option<&V>)
        requires
            self.wf(),
        ensures
            found is None <==> !crate::order::holds_key(self.entries(), key),
            found is Some ==> exists|q: int|
                (#[trigger] crate::order::hit(self.entries(), key, q)) && self.entries()[q].1 == *found->0,
    ;

    fn value_by_index(&self, index: u32) -> (val: &V)
        requires
            self.wf(),
            self.indices().contains(index),
        ensures
            *val == self.entries()[self.indices().index_of(index)].1,
    ;

    fn value_by_index_mut(&mut self, index: u32) -> (val: &mut V)
        requires
            old(self).wf(),
            old(self).indices().contains(index),
        ensures
            *val == old(self).entries()[old(self).indices().index_of(index)].1,
            final(self).wf(),
            final(self).indices() == old(self).indices(),
            final(self).entries() == old(self).entries().update(
                old(self).indices().index_of(index),
                (old(self).entries()[old(self).indices().index_of(index)].0, *final(val)),
            ),
    ;

    /// The index of an entry whose key equals `key` or, where there is none,
    /// of the last entry whose key is below `key`; `EMPTY_REF` where every
    /// key is above `key`.
    fn first_index_less(&self, key: K) -> (index: u32)
        requires
            self.wf(),
        ensures
            index == crate::EMPTY_REF <==> crate::order::all_above(self.entries(), key),
            index != crate::EMPTY_REF ==> self.indices().contains(index) && crate::order::floor_at(
                self.entries(),
                key,
                self.indices().index_of(index),
            ),
    ;

    /// As `first_index_less`, for a probe `f` that says how a key compares
    /// with what is looked for.
    fn first_index_less_by<F>(&self, f: F) -> (index: u32) where F: Fn(K) -> Ordering
        requires
            self.wf(),
            crate::order::is_probe(f),
        ensures
            index == crate::EMPTY_REF <==> crate::order::all_above_by(self.entries(), f),
            index != crate::EMPTY_REF ==> self.indices().contains(index) && crate::order::floor_by(
                self.entries(),
                f,
                self.indices().index_of(index),
            ),
    ;

    /// Removes every entry: no index reaches one afterwards.
    fn clear(&mut self)
        requires
            old(self).wf(),
        ensures
            final(self).wf(),
            final(self).entries() == Seq::<(K, V)>::empty(),
            final(self).indices() == Seq::<u32>::empty(),
    ;
}

} // verus!
