use vstd::prelude::*;

verus! {

/// The coordinates from `min` to `max`.
#[derive(Debug, Clone, Copy)]
pub struct SegRange<R> {
    pub min: R,
    pub max: R,
}

/// A collection of values that are filed under ranges of coordinates.
pub trait SegExpCollection<R, E, V> {
    /// The collection is consistent, and the range lies within the
    /// coordinates that the collection was made for.
    spec fn takes(&self, range: SegRange<R>) -> bool;

    /// The values filed under each node, each with the set of the nodes under
    /// which it is filed.
    spec fn buckets(&self) -> Seq<Seq<(V, u64)>>;

    /// The nodes under which a value for `range` is filed.
    spec fn place_of(&self, range: SegRange<R>) -> u64;

    /// Files `val` under every node of `place_of(range)`.
    fn insert_by_range(&mut self, range: SegRange<R>, val: V)
        requires
            old(self).takes(range),
        ensures
            final(self).takes(range),
            final(self).buckets().len() == old(self).buckets().len(),
            forall|c: int|
                0 <= c < old(self).buckets().len() ==> #[trigger] final(self).buckets()[c] == if c < 64
                    && crate::seg::bit::bit(old(self).place_of(range), c as u64) {
                    old(self).buckets()[c].push((val, old(self).place_of(range)))
                } else {
                    old(self).buckets()[c]
                },
            forall|r: SegRange<R>| old(self).takes(r) ==> final(self).takes(r) && final(self).place_of(r) == old(self).place_of(r),
    ;

    /// Empties every bucket.
    fn clear(&mut self)
        ensures
            final(self).buckets().len() == old(self).buckets().len(),
            forall|c: int|
                0 <= c < old(self).buckets().len() ==> #[trigger] final(self).buckets()[c] == Seq::<
                    (V, u64),
                >::empty(),
            forall|r: SegRange<R>| old(self).takes(r) ==> final(self).takes(r) && final(self).place_of(r) == old(self).place_of(r),
    ;
}

} // verus!
