use vstd::prelude::*;
use vstd::multiset::Multiset;
use core::marker::PhantomData;
use crate::{Expiration, ExpiredVal};
use crate::order::is_less;
use crate::seg::chunk::Chunk;
use crate::seg::entity::Entity;
use crate::seg::exp::{SegExpCollection, SegRange};
use crate::seg::heap::BitIter;
use crate::seg::layout::Layout;

verus! {

/// An index of values that expire, filed under ranges of coordinates of type
/// `R`. A value is filed under the fewest nodes of the tree of `Heap32`
/// whose buckets make up the buckets of its range.
pub struct SegExpTree<R, E, V> {
    pub layout: Layout,
    pub chunks: Vec<Chunk<V>>,
    pub phantom_data: PhantomData<(R, E)>,
}

/// The coordinate `r` as a number.
pub open spec fn coord<R>(r: R) -> i64 where i64: From<R> {
    <i64 as vstd::std_specs::convert::FromSpec<R>>::from_spec(r)
}

/// The value is stale at `time`: its expiration is not after `time`.
pub open spec fn stale<E: Expiration, V: ExpiredVal<E>>(val: V, time: E) -> bool {
    crate::order::key_le(crate::val_time(val), time)
}

/// A query with the node set `mask` hands out the entry `e` when it looks
/// into node `c`: the value is not stale, and of the nodes that the query and
/// the entry have in common `c` is the first.
pub open spec fn due<E: Expiration, V: ExpiredVal<E>>(e: (V, u64), c: int, mask: u64, time: E) -> bool {
    0 <= c < 64 && !stale(e.0, time) && crate::seg::heap::lowest(e.1 & mask, c as u64)
}

/// The entries of one bucket that a query hands out when it looks into node
/// `c`.
pub open spec fn yield_of<E: Expiration, V: ExpiredVal<E>>(
    bucket: Seq<(V, u64)>,
    c: int,
    mask: u64,
    time: E,
) -> Multiset<(V, u64)> {
    bucket.to_multiset().filter(|e: (V, u64)| due(e, c, mask, time))
}

/// The entries that a query hands out from the nodes `c, c + 1, ..` of the
/// node set `rest`.
pub open spec fn yield_from<E: Expiration, V: ExpiredVal<E>>(
    buckets: Seq<Seq<(V, u64)>>,
    rest: u64,
    mask: u64,
    time: E,
    c: int,
) -> Multiset<(V, u64)>
    decreases 64 - c,
{
    if c >= 64 || c < 0 {
        Multiset::empty()
    } else if crate::seg::bit::bit(rest, c as u64) && c < buckets.len() {
        yield_of(buckets[c], c, mask, time).add(yield_from(buckets, rest, mask, time, c + 1))
    } else {
        yield_from(buckets, rest, mask, time, c + 1)
    }
}

/// The value `val` was handed out: of the entries `before` one with this
/// value is gone, and `after` holds the others.
pub open spec fn handed<V>(before: Multiset<(V, u64)>, after: Multiset<(V, u64)>, val: V) -> bool {
    exists|filed: u64|
        {
            &&& (#[trigger] before.count((val, filed))) > 0
            &&& after =~= before.remove((val, filed))
        }
}

/// The entries that a query with the node set `mask` hands out.
pub open spec fn yield_all<E: Expiration, V: ExpiredVal<E>>(
    buckets: Seq<Seq<(V, u64)>>,
    mask: u64,
    time: E,
) -> Multiset<(V, u64)> {
    yield_from(buckets, mask, mask, time, 0)
}

impl<R, E: Expiration, V: ExpiredVal<E>> SegExpTree<R, E, V> where i64: From<R> {
    pub open spec fn wf(&self) -> bool {
        &&& self.layout.wf()
        &&& self.chunks@.len() == self.layout.index_of(self.layout.max) + 32
        &&& <i64 as vstd::std_specs::convert::FromSpec<R>>::obeys_from_spec()
        &&& crate::order::total_order::<E>()
        &&& crate::vals_timed::<V, E>()
    }

    /// The range lies within the coordinates of the index.
    pub open spec fn within(&self, range: SegRange<R>) -> bool {
        self.layout.min <= coord(range.min) <= coord(range.max) <= self.layout.max
    }

    /// The first and the last bucket of a range.
    pub open spec fn first_leaf(&self, range: SegRange<R>) -> int {
        self.layout.index_of(coord(range.min))
    }

    pub open spec fn last_leaf(&self, range: SegRange<R>) -> int {
        self.layout.index_of(coord(range.max))
    }

    /// The nodes that a query for `range` looks into.
    pub open spec fn query_of(&self, range: SegRange<R>) -> u64 {
        choose|m: u64| crate::seg::heap::is_intersect_mask(m, self.first_leaf(range), self.last_leaf(range))
    }

    pub open spec fn bins(&self) -> Seq<Seq<(V, u64)>> {
        Seq::new(self.chunks@.len(), |c: int| self.chunks@[c].items())
    }

    /// An empty index for the coordinates from `range.min` to `range.max`,
    /// if there are at least 32 of them.
    #[inline]
    pub fn new(range: SegRange<R>) -> (tree: Option<Self>)
        requires
            <i64 as vstd::std_specs::convert::FromSpec<R>>::obeys_from_spec(),
            crate::order::total_order::<E>(),
            crate::vals_timed::<V, E>(),
        ensures
            tree is None <==> coord(range.max) - coord(range.min) < crate::seg::layout::MIN_WIDTH,
            tree is Some ==> {
                &&& tree->0.wf()
                &&& tree->0.layout.min == coord(range.min)
                &&& tree->0.layout.max == coord(range.max)
                &&& forall|c: int| 0 <= c < tree->0.bins().len() ==> (#[trigger] tree->0.bins()[c]).len() == 0
            },
    {
        let end: i64 = i64::from(range.max);
        let start: i64 = i64::from(range.min);
        let layout = match Layout::new(start, end) {
            Some(layout) => layout,
            None => {
                return None;
            },
        };
        let count = layout.count();
        let mut chunks: Vec<Chunk<V>> = Vec::with_capacity(count);
        let mut i: usize = 0;
        while i < count
            invariant
                i <= count,
                chunks@.len() == i,
                forall|c: int| 0 <= c < i ==> (#[trigger] chunks@[c]).items().len() == 0,
            decreases count - i,
        {
            chunks.push(Chunk::new());
            i += 1;
        }

        Some(Self { layout, chunks, phantom_data: PhantomData })
    }

    /// Two words with the same bits are the same word.
    pub proof fn lemma_same_mask(x: u64, y: u64)
        requires
            forall|i: u64| i < 64 ==> (#[trigger] crate::seg::bit::bit(x, i) <==> crate::seg::bit::bit(y, i)),
        ensures
            x == y,
    {
        if x != y {
            let z = x ^ y;
            assert(x != y ==> (x ^ y) != 0) by (bit_vector);
            crate::seg::heap::lemma_lowest(z);
            let i = choose|i: u64| i < 64 && #[trigger] crate::seg::bit::bit(z, i);
            assert(i < 64 && ((x ^ y) >> i) & 1u64 == 1u64 ==> (((x >> i) & 1u64 == 1u64) != ((y >> i) & 1u64
                == 1u64))) by (bit_vector);
            assert(crate::seg::bit::bit(x, i) <==> crate::seg::bit::bit(y, i));
        }
    }

    /// A range that the index takes has its buckets among those of the
    /// index, and the two sets of nodes that go with them.
    pub proof fn lemma_masks(&self, range: SegRange<R>)
        requires
            self.wf(),
            self.within(range),
        ensures
            0 <= self.first_leaf(range) <= self.last_leaf(range) < 32,
            self.last_leaf(range) + 32 <= self.chunks@.len(),
            crate::seg::heap::is_place_mask(self.place_of(range), self.first_leaf(range), self.last_leaf(range)),
            crate::seg::heap::is_intersect_mask(self.query_of(range), self.first_leaf(range), self.last_leaf(range)),
    {
        let a = self.first_leaf(range);
        let b = self.last_leaf(range);
        let lo = (coord(range.min) - self.layout.min) as u64;
        let hi = (coord(range.max) - self.layout.min) as u64;
        let top = (self.layout.max - self.layout.min) as u64;
        crate::seg::layout::lemma_bucket(lo, hi, self.layout.scale as u64);
        crate::seg::layout::lemma_bucket(hi, top, self.layout.scale as u64);
        let m = crate::seg::heap::lemma_place_mask(a, b);
        let q = crate::seg::heap::lemma_intersect_mask(a, b);
    }

    /// A value that is not stale, once it is filed under `range`, is handed
    /// out once by a query for `query` if the two ranges have a bucket in
    /// common, and is not handed out by it otherwise. Here `before` is the
    /// index in which the value is not yet filed under these nodes, and
    /// `after` the index in which it is.
    pub proof fn lemma_query_finds(before: Self, after: Self, range: SegRange<R>, query: SegRange<R>, val: V, time: E)
        requires
            before.wf(),
            before.within(range),
            before.within(query),
            after.layout == before.layout,
            after.buckets().len() == before.buckets().len(),
            forall|c: int|
                0 <= c < before.buckets().len() ==> #[trigger] after.buckets()[c] == if c < 64
                    && crate::seg::bit::bit(before.place_of(range), c as u64) {
                    before.buckets()[c].push((val, before.place_of(range)))
                } else {
                    before.buckets()[c]
                },
            forall|c: int|
                0 <= c < before.buckets().len() ==> !(#[trigger] before.buckets()[c]).contains(
                    (val, before.place_of(range)),
                ),
            !stale(val, time),
        ensures
            yield_all(after.buckets(), after.query_of(query), time).count((val, before.place_of(range))) == if before.first_leaf(
                range,
            ) <= before.last_leaf(query) && before.first_leaf(query) <= before.last_leaf(range) {
                1nat
            } else {
                0nat
            },
    {
        before.lemma_masks(range);
        before.lemma_masks(query);
        let place = before.place_of(range);
        assert(after.query_of(query) == before.query_of(query));
        assert forall|n: u64| n < 64 && #[trigger] crate::seg::bit::bit(place, n) implies n
            < after.buckets().len() by {
            assert(crate::seg::heap::placed(n as int, before.first_leaf(range), before.last_leaf(range)));
        }
        crate::seg::scan::lemma_found_once(
            before.buckets(),
            after.buckets(),
            val,
            time,
            place,
            before.query_of(query),
            before.first_leaf(range),
            before.last_leaf(range),
            before.first_leaf(query),
            before.last_leaf(query),
        );
    }

    #[inline]
    pub fn chunk(&self, index: usize) -> (chunk: &Chunk<V>)
        requires
            index < self.chunks@.len(),
        ensures
            chunk.items() == self.bins()[index as int],
    {
        &self.chunks[index]
    }
}

impl<R, E: Expiration, V: ExpiredVal<E>> SegExpCollection<R, E, V> for SegExpTree<R, E, V> where i64: From<R> {
    open spec fn takes(&self, range: SegRange<R>) -> bool {
        self.wf() && self.within(range)
    }

    open spec fn buckets(&self) -> Seq<Seq<(V, u64)>> {
        self.bins()
    }

    open spec fn place_of(&self, range: SegRange<R>) -> u64 {
        choose|m: u64| crate::seg::heap::is_place_mask(m, self.first_leaf(range), self.last_leaf(range))
    }

    #[inline]
    fn insert_by_range(&mut self, range: SegRange<R>, val: V)
        ensures
            final(self).layout == old(self).layout,
    {
        let mask = self.layout.insert_mask(i64::from(range.min), i64::from(range.max));
        proof {
            let m = self.place_of(range);
            assert(crate::seg::heap::is_place_mask(m, self.first_leaf(range), self.last_leaf(range)));
            Self::lemma_same_mask(mask, m);
        }
        let mut iter = BitIter::new(mask);
        let ghost a = self.first_leaf(range);
        let ghost b = self.last_leaf(range);
        loop
            invariant
                self.wf(),
                self.layout == old(self).layout,
                self.chunks@.len() == old(self).chunks@.len(),
                crate::seg::heap::is_place_mask(mask, a, b),
                0 <= a <= b <= self.layout.index_of(self.layout.max),
                forall|i: u64|
                    i < 64 && #[trigger] crate::seg::bit::bit(iter.value, i) ==> crate::seg::bit::bit(mask, i),
                forall|c: int|
                    0 <= c < self.chunks@.len() ==> #[trigger] self.bins()[c] == if c < 64
                        && crate::seg::bit::bit(mask, c as u64) && !crate::seg::bit::bit(iter.value, c as u64) {
                        old(self).bins()[c].push((val, mask))
                    } else {
                        old(self).bins()[c]
                    },
            ensures
                forall|c: int|
                    0 <= c < self.chunks@.len() ==> #[trigger] self.bins()[c] == if c < 64
                        && crate::seg::bit::bit(mask, c as u64) {
                        old(self).bins()[c].push((val, mask))
                    } else {
                        old(self).bins()[c]
                    },
            decreases iter.value,
        {
            let ghost before = iter.value;
            let ghost bins0 = self.bins();
            match iter.next() {
                Some(index) => {
                    proof {
                        let i = index as u64;
                        assert(crate::seg::bit::bit(before, i));
                        assert(crate::seg::bit::bit(mask, i));
                        assert(crate::seg::heap::placed(i as int, a, b));
                    }
                    self.chunks[index].insert(Entity::new(val, mask));
                    proof {
                        assert forall|c: int| 0 <= c < self.chunks@.len() implies #[trigger] self.bins()[c]
                            == if c < 64 && crate::seg::bit::bit(mask, c as u64) && !crate::seg::bit::bit(
                            iter.value,
                            c as u64,
                        ) {
                            old(self).bins()[c].push((val, mask))
                        } else {
                            old(self).bins()[c]
                        } by {
                            assert(bins0[c] == if c < 64 && crate::seg::bit::bit(mask, c as u64)
                                && !crate::seg::bit::bit(before, c as u64) {
                                old(self).bins()[c].push((val, mask))
                            } else {
                                old(self).bins()[c]
                            });
                            if c < 64 {
                                assert(crate::seg::bit::bit(iter.value, c as u64) <==> crate::seg::bit::bit(
                                    before,
                                    c as u64,
                                ) && c != index);
                            }
                        }
                    }
                },
                None => {
                    proof {
                        assert forall|i: u64| i < 64 implies !#[trigger] crate::seg::bit::bit(0u64, i) by {
                            assert(i < 64 ==> ((0u64 >> i) & 1u64) == 0u64) by (bit_vector);
                        }
                    }
                    break ;
                },
            }
        }
    }

    #[inline]
    fn clear(&mut self)
        ensures
            final(self).layout == old(self).layout,
    {
        let n = self.chunks.len();
        let mut i: usize = 0;
        while i < n
            invariant
                i <= n,
                n == self.chunks@.len(),
                self.layout == old(self).layout,
                forall|c: int| 0 <= c < i ==> #[trigger] self.bins()[c] == Seq::<(V, u64)>::empty(),
            decreases n - i,
        {
            let ghost bins0 = self.bins();
            self.chunks[i].clear();
            proof {
                assert forall|c: int| 0 <= c < i + 1 implies #[trigger] self.bins()[c] == Seq::<
                    (V, u64),
                >::empty() by {
                    if c < i {
                        assert(bins0[c] == Seq::<(V, u64)>::empty());
                    }
                }
            }
            i += 1;
        }
    }
}

/// A query in progress: it hands out one by one the values whose ranges
/// share a bucket with the range of the query, each once, and drops the
/// stale entries that it comes across.
pub struct SegExpTreeIterator<'a, R, E, V> {
    pub tree: &'a mut SegExpTree<R, E, V>,
    pub time: E,
    /// The node that is looked into, or `usize::MAX` at the end.
    pub i0: usize,
    /// The position in the bucket of that node from which the entries are
    /// still to be looked at.
    pub i1: usize,
    /// The nodes that the query looks into.
    pub mask: u64,
    /// Those of them that are still to come.
    pub bit_iter: BitIter,
}

impl<'a, R, E: Expiration, V: ExpiredVal<E>> SegExpTreeIterator<'a, R, E, V> where i64: From<R> {
    /// The cursor is consistent but for the node that is looked into.
    pub open spec fn ready(&self) -> bool {
        &&& self.tree.wf()
        &&& forall|i: u64| i < 64 && #[trigger] crate::seg::bit::bit(self.mask, i) ==> i < self.tree.chunks@.len()
        &&& forall|i: u64|
            i < 64 && #[trigger] crate::seg::bit::bit(self.bit_iter.value, i) ==> crate::seg::bit::bit(
                self.mask,
                i,
            )
    }

    /// No entry that the query has looked at and left is stale: the
    /// entries of the nodes of the query that are not still to come, and of
    /// the node `at` those before the position `upto`.
    pub open spec fn swept(&self, at: usize, upto: usize) -> bool {
        forall|c: int, k: int|
            0 <= c < 64 && c < self.tree.bins().len() && crate::seg::bit::bit(self.mask, c as u64)
                && !crate::seg::bit::bit(self.bit_iter.value, c as u64) && 0 <= k < self.tree.bins()[c].len() && (c
                == at ==> k < upto) ==> !stale((#[trigger] self.tree.bins()[c][k]).0, self.time)
    }

    /// No bucket of a node of the query holds a stale entry.
    pub open spec fn all_swept(&self) -> bool {
        forall|c: int, k: int|
            0 <= c < 64 && c < self.tree.bins().len() && crate::seg::bit::bit(self.mask, c as u64) && 0 <= k
                < self.tree.bins()[c].len() ==> !stale((#[trigger] self.tree.bins()[c][k]).0, self.time)
    }

    pub open spec fn inv(&self) -> bool {
        &&& self.ready()
        &&& self.swept(self.i0, self.i1)
        &&& if self.i0 < self.tree.chunks@.len() {
            &&& self.i0 < 64
            &&& self.i1 <= self.tree.bins()[self.i0 as int].len()
            &&& self.ahead(self.i0)
        } else {
            self.bit_iter.value == 0
        }
    }

    /// The nodes that are still to come lie behind the node `c`.
    pub open spec fn ahead(&self, c: usize) -> bool {
        forall|i: u64| i < 64 && #[trigger] crate::seg::bit::bit(self.bit_iter.value, i) ==> c < i
    }

    /// The entries that are still to be handed out, each with the set of the
    /// nodes under which it is filed.
    pub open spec fn coming(&self) -> Multiset<(V, u64)> {
        (if self.i0 < self.tree.chunks@.len() {
            crate::seg::scan::tail(self.tree.bins()[self.i0 as int], self.i1 as int).to_multiset().filter(
                |e: (V, u64)| due(e, self.i0 as int, self.mask, self.time),
            )
        } else {
            Multiset::empty()
        }).add(yield_from(self.tree.bins(), self.bit_iter.value, self.mask, self.time, 0))
    }

    #[inline]
    fn new(mask: u64, time: E, tree: &'a mut SegExpTree<R, E, V>) -> (iter: Self)
        requires
            old(tree).wf(),
            forall|i: u64| i < 64 && #[trigger] crate::seg::bit::bit(mask, i) ==> i < old(tree).chunks@.len(),
        ensures
            iter.inv(),
            iter.mask == mask,
            iter.time == time,
            iter.coming() =~= yield_all(old(tree).bins(), mask, time),
            *iter.tree == *old(tree),
            *final(iter.tree) == *final(tree),
    {
        let mut iter = SegExpTreeIterator { tree, time, i0: 0, i1: 0, mask, bit_iter: BitIter::new(mask) };
        let ghost start = iter;

        // the first node with a bucket that is not empty
        iter.i0 = iter.find_next_not_empty_chunk();
        proof {
            if iter.i0 < iter.tree.chunks@.len() {
                let s = iter.tree.bins()[iter.i0 as int];
                assert(crate::seg::scan::tail(s, 0) =~= s);
            }
            let bins = iter.tree.bins();
            assert forall|c: int, k: int|
                0 <= c < 64 && c < bins.len() && crate::seg::bit::bit(iter.mask, c as u64)
                    && !crate::seg::bit::bit(iter.bit_iter.value, c as u64) && 0 <= k < bins[c].len() && (c
                    == iter.i0 ==> k < 0) implies !stale((#[trigger] bins[c][k]).0, iter.time) by {
                assert(crate::seg::bit::bit(start.bit_iter.value, c as u64));
                assert(c as u64 != iter.i0);
                assert(bins[c].len() == 0);
            }
        }

        iter
    }

    /// The next node of the query whose bucket is not empty, or
    /// `usize::MAX` where there is none.
    #[inline]
    fn find_next_not_empty_chunk(&mut self) -> (next: usize)
        requires
            old(self).ready(),
        ensures
            final(self).ready(),
            *final(self).tree == *old(self).tree,
            *final(final(self).tree) == *final(old(self).tree),
            final(self).time == old(self).time,
            final(self).mask == old(self).mask,
            final(self).i0 == old(self).i0,
            final(self).i1 == old(self).i1,
            forall|c: u64|
                c < 64 && #[trigger] crate::seg::bit::bit(old(self).bit_iter.value, c) && !crate::seg::bit::bit(
                    final(self).bit_iter.value,
                    c,
                ) && c != next ==> final(self).tree.bins()[c as int].len() == 0,
            forall|c: u64|
                c < 64 && #[trigger] crate::seg::bit::bit(final(self).bit_iter.value, c) ==> crate::seg::bit::bit(
                    old(self).bit_iter.value,
                    c,
                ),
            if next < final(self).tree.chunks@.len() {
                &&& next < 64
                &&& final(self).ahead(next)
                &&& final(self).bit_iter.value < old(self).bit_iter.value
                &&& yield_from(
                    old(self).tree.bins(),
                    old(self).bit_iter.value,
                    old(self).mask,
                    old(self).time,
                    0,
                ) =~= yield_of(old(self).tree.bins()[next as int], next as int, old(self).mask, old(self).time).add(
                    yield_from(
                        old(self).tree.bins(),
                        final(self).bit_iter.value,
                        old(self).mask,
                        old(self).time,
                        0,
                    ),
                )
            } else {
                &&& final(self).bit_iter.value == 0
                &&& yield_from(
                    old(self).tree.bins(),
                    old(self).bit_iter.value,
                    old(self).mask,
                    old(self).time,
                    0,
                ) =~= Multiset::<(V, u64)>::empty()
                &&& yield_from(old(self).tree.bins(), 0, old(self).mask, old(self).time, 0) =~= Multiset::<
                    (V, u64),
                >::empty()
            },
    {
        let ghost bins = self.tree.bins();
        loop
            invariant
                self.ready(),
                *self.tree == *old(self).tree,
                *final(self.tree) == *final(old(self).tree),
                self.time == old(self).time,
                self.mask == old(self).mask,
                self.i0 == old(self).i0,
                self.i1 == old(self).i1,
                bins == self.tree.bins(),
                self.bit_iter.value <= old(self).bit_iter.value,
                forall|c: u64|
                    c < 64 && #[trigger] crate::seg::bit::bit(old(self).bit_iter.value, c)
                        && !crate::seg::bit::bit(self.bit_iter.value, c) ==> bins[c as int].len() == 0,
                forall|c: u64|
                    c < 64 && #[trigger] crate::seg::bit::bit(self.bit_iter.value, c) ==> crate::seg::bit::bit(
                        old(self).bit_iter.value,
                        c,
                    ),
                yield_from(bins, old(self).bit_iter.value, self.mask, self.time, 0) =~= yield_from(
                    bins,
                    self.bit_iter.value,
                    self.mask,
                    self.time,
                    0,
                ),
            decreases self.bit_iter.value,
        {
            let ghost before = self.bit_iter.value;
            match self.bit_iter.next() {
                Some(next) => {
                    proof {
                        assert(crate::seg::bit::bit(before, next as u64));
                        assert(crate::seg::bit::bit(self.mask, next as u64));
                        crate::seg::scan::lemma_yield_split(
                            bins,
                            before,
                            self.bit_iter.value,
                            self.mask,
                            self.time,
                            next as int,
                            0,
                        );
                    }
                    if !self.tree.chunk(next).is_empty() {
                        proof {
                            assert forall|i: u64|
                                i < 64 && #[trigger] crate::seg::bit::bit(self.bit_iter.value, i) implies next
                                < i by {
                                assert(crate::seg::bit::bit(before, i) && i != next);
                                if i < next {
                                    assert(!crate::seg::bit::bit(before, i));
                                }
                            }
                        }
                        return next;
                    }
                    proof {
                        let s = bins[next as int];
                        assert(s =~= Seq::<(V, u64)>::empty());
                        s.to_multiset_ensures();
                        vstd::multiset::lemma_multiset_empty_len(s.to_multiset());
                        assert(yield_of(s, next as int, self.mask, self.time) =~= Multiset::<(V, u64)>::empty()) by {
                            assert forall|e: (V, u64)|
                                yield_of(s, next as int, self.mask, self.time).count(e) == 0 by {
                                vstd::multiset::axiom_filter_count(
                                    s.to_multiset(),
                                    |e: (V, u64)| due(e, next as int, self.mask, self.time),
                                    e,
                                );
                            }
                        }
                    }
                },
                None => {
                    proof {
                        assert forall|c: int| 0 <= c < 64 implies !#[trigger] crate::seg::bit::bit(
                            0u64,
                            c as u64,
                        ) by {
                            let i = c as u64;
                            assert(i < 64 ==> ((0u64 >> i) & 1u64) == 0u64) by (bit_vector);
                        }
                        crate::seg::scan::lemma_yield_none(bins, 0u64, self.mask, self.time, 0);
                    }
                    return usize::MAX;
                },
            }
        }
    }

    /// The next value of the query, if any is left.
    #[inline]
    pub fn next(&mut self) -> (item: Option<V>)
        requires
            old(self).inv(),
        ensures
            final(self).inv(),
            final(self).time == old(self).time,
            final(self).mask == old(self).mask,
            *final(final(self).tree) == *final(old(self).tree),
            final(self).tree.layout == old(self).tree.layout,
            crate::seg::scan::dropped_stale(old(self).tree.bins(), final(self).tree.bins(), old(self).time),
            item is Some ==> handed(old(self).coming(), final(self).coming(), item->0),
            item is Some ==> !stale(item->0, old(self).time),
            item is None ==> old(self).coming() =~= Multiset::<(V, u64)>::empty() && final(self).coming()
                =~= Multiset::<(V, u64)>::empty(),
            item is None ==> final(self).all_swept(),
    {
        while self.i0 < self.tree.chunks.len()
            invariant
                self.inv(),
                self.time == old(self).time,
                self.mask == old(self).mask,
                *final(self.tree) == *final(old(self).tree),
                self.tree.layout == old(self).tree.layout,
                crate::seg::scan::dropped_stale(old(self).tree.bins(), self.tree.bins(), self.time),
                self.coming() =~= old(self).coming(),
            decreases self.bit_iter.value + (if self.i0 < self.tree.chunks@.len() {
                1int
            } else {
                0int
            }),
        {
            let i0 = self.i0;
            let mut i = self.i1;
            let ghost rest = yield_from(self.tree.bins(), self.bit_iter.value, self.mask, self.time, 0);
            let ghost pick = |e: (V, u64)| due(e, i0 as int, self.mask, self.time);
            let ghost pending = self.bit_iter.value;
            while i < self.tree.chunks[i0].buffer.len()
                invariant
                    self.ready(),
                    self.bit_iter.value == pending,
                    i0 == self.i0,
                    i0 < self.tree.chunks@.len(),
                    i0 < 64,
                    self.ahead(i0),
                    i <= self.tree.bins()[i0 as int].len(),
                    self.swept(i0, i),
                    self.time == old(self).time,
                    self.mask == old(self).mask,
                    *final(self.tree) == *final(old(self).tree),
                    self.tree.layout == old(self).tree.layout,
                    crate::seg::scan::dropped_stale(old(self).tree.bins(), self.tree.bins(), self.time),
                    pick == |e: (V, u64)| due(e, i0 as int, self.mask, self.time),
                    rest == yield_from(self.tree.bins(), self.bit_iter.value, self.mask, self.time, 0),
                    crate::seg::scan::tail(self.tree.bins()[i0 as int], i as int).to_multiset().filter(pick).add(
                        rest,
                    ) =~= old(self).coming(),
                decreases self.tree.bins()[i0 as int].len() - i,
            {
                let ghost bins = self.tree.bins();
                let ghost s = bins[i0 as int];
                let val = self.tree.chunks[i0].buffer[i].val;
                let filed = self.tree.chunks[i0].buffer[i].mask;
                proof {
                    assert(s[i as int] == (val, filed));
                    crate::order::lemma_order(self.time, crate::val_time(val), self.time);
                }

                if !is_less(&self.time, &crate::expiration_of_val(&val)) {
                    self.tree.chunks[i0].swap_remove(i);
                    proof {
                        let after = self.tree.bins();
                        assert(after[i0 as int] == s.update(i as int, s.last()).drop_last());
                        crate::seg::scan::lemma_tail_swap(s, i as int);
                        crate::seg::scan::lemma_tail_step(s, i as int);
                        crate::seg::scan::lemma_swap_remove(s, i as int);
                        assert forall|c: int, e: (V, u64)| 0 <= c < bins.len() implies (#[trigger] after[c].to_multiset().count(
                            e,
                        )) <= old(self).tree.bins()[c].to_multiset().count(e) && (!stale(e.0, self.time)
                            ==> after[c].to_multiset().count(e) == old(self).tree.bins()[c].to_multiset().count(
                            e,
                        )) by {
                            assert(bins[c].to_multiset().count(e) <= old(self).tree.bins()[c].to_multiset().count(
                                e,
                            ));
                            if c != i0 {
                                assert(after[c] == bins[c]);
                            }
                        }
                        crate::seg::scan::lemma_filter_remove(
                            crate::seg::scan::tail(s, i as int).to_multiset(),
                            pick,
                            (val, filed),
                        );
                        assert forall|c: int|
                            0 <= c < 64 && c < bins.len() && crate::seg::bit::bit(
                                self.bit_iter.value,
                                c as u64,
                            ) implies #[trigger] bins[c] == after[c] by {
                            assert(i0 < c);
                        }
                        crate::seg::scan::lemma_yield_same(
                            bins,
                            after,
                            self.bit_iter.value,
                            self.bit_iter.value,
                            self.mask,
                            self.time,
                            0,
                        );
                        assert forall|c: int, k: int|
                            0 <= c < 64 && c < after.len() && crate::seg::bit::bit(self.mask, c as u64)
                                && !crate::seg::bit::bit(self.bit_iter.value, c as u64) && 0 <= k < after[c].len()
                                && (c == i0 ==> k < i) implies !stale((#[trigger] after[c][k]).0, self.time) by {
                            if c != i0 {
                                assert(after[c] == bins[c]);
                            }
                            assert(after[c][k] == bins[c][k]);
                        }
                    }
                    continue ;
                }
                i += 1;
                proof {
                    assert forall|c: int, k: int|
                        0 <= c < 64 && c < bins.len() && crate::seg::bit::bit(self.mask, c as u64)
                            && !crate::seg::bit::bit(self.bit_iter.value, c as u64) && 0 <= k < bins[c].len() && (c
                            == i0 ==> k < i) implies !stale((#[trigger] bins[c][k]).0, self.time) by {
                        if c == i0 && k == i - 1 {
                            assert(bins[c][k] == (val, filed));
                        }
                    }
                    crate::seg::scan::lemma_tail_step(s, i - 1);
                    crate::seg::scan::lemma_filter_remove(
                        crate::seg::scan::tail(s, i - 1).to_multiset(),
                        pick,
                        (val, filed),
                    );
                }

                // a value that is filed under several nodes of the query is handed
                // out at the first of them only
                let mask_int = filed & self.mask;
                let first_index = mask_int.trailing_zeros() as usize;
                proof {
                    crate::seg::heap::lemma_lowest(mask_int);
                    if crate::seg::heap::lowest(mask_int, i0 as u64) {
                        crate::seg::scan::lemma_lowest_one(mask_int, i0 as u64, first_index as u64);
                    }
                }

                if first_index == self.i0 {
                    self.i1 = i;
                    proof {
                        assert(pick((val, filed)));
                        let here = crate::seg::scan::tail(s, i - 1).to_multiset().filter(pick);
                        assert(here.count((val, filed)) > 0);
                        assert(old(self).coming().count((val, filed)) > 0);
                        assert(self.coming() =~= old(self).coming().remove((val, filed)));
                        assert(handed(old(self).coming(), self.coming(), val));
                    }
                    return Some(val);
                }
            }
            proof {
                let s = self.tree.bins()[i0 as int];
                assert(crate::seg::scan::tail(s, i as int) =~= Seq::<(V, u64)>::empty());
                Seq::<(V, u64)>::empty().to_multiset_ensures();
                vstd::multiset::lemma_multiset_empty_len(Seq::<(V, u64)>::empty().to_multiset());
                assert(crate::seg::scan::tail(s, i as int).to_multiset().filter(pick) =~= Multiset::<
                    (V, u64),
                >::empty()) by {
                    assert forall|e: (V, u64)|
                        crate::seg::scan::tail(s, i as int).to_multiset().filter(pick).count(e) == 0 by {
                        vstd::multiset::axiom_filter_count(
                            crate::seg::scan::tail(s, i as int).to_multiset(),
                            pick,
                            e,
                        );
                    }
                }
            }
            let ghost spent = self.bit_iter.value;
            let ghost done = self.tree.bins();

            self.i0 = self.find_next_not_empty_chunk();
            self.i1 = 0;
            proof {
                if self.i0 < self.tree.chunks@.len() {
                    let s = self.tree.bins()[self.i0 as int];
                    assert(crate::seg::scan::tail(s, 0) =~= s);
                }
                assert forall|c: int, k: int|
                    0 <= c < 64 && c < done.len() && crate::seg::bit::bit(self.mask, c as u64)
                        && !crate::seg::bit::bit(self.bit_iter.value, c as u64) && 0 <= k < done[c].len() && (c
                        == self.i0 ==> k < 0) implies !stale((#[trigger] done[c][k]).0, self.time) by {
                    if crate::seg::bit::bit(spent, c as u64) {
                        assert(c as u64 != self.i0);
                        assert(done[c].len() == 0);
                    }
                }
            }
        }
        proof {
            assert forall|c: int| 0 <= c < 64 implies !#[trigger] crate::seg::bit::bit(0u64, c as u64) by {
                let k = c as u64;
                assert(k < 64 ==> ((0u64 >> k) & 1u64) == 0u64) by (bit_vector);
            }
            crate::seg::scan::lemma_yield_none(self.tree.bins(), 0u64, self.mask, self.time, 0);
            assert(self.all_swept());
        }

        None
    }
}

impl<R, E: Expiration, V: ExpiredVal<E>> SegExpTree<R, E, V> where i64: From<R> {
    /// A query for the values whose ranges share a bucket with `range`, the
    /// stale ones left out.
    #[inline]
    pub fn iter_by_range(&mut self, range: SegRange<R>, time: E) -> (iter: SegExpTreeIterator<'_, R, E, V>)
        requires
            old(self).wf(),
            old(self).within(range),
        ensures
            iter.inv(),
            iter.time == time,
            iter.mask == old(self).query_of(range),
            iter.coming() =~= yield_all(old(self).bins(), old(self).query_of(range), time),
            *final(iter.tree) == *final(self),
    {
        let mask = self.layout.intersect_mask(i64::from(range.min), i64::from(range.max));
        proof {
            let m = self.query_of(range);
            assert(crate::seg::heap::is_intersect_mask(m, self.first_leaf(range), self.last_leaf(range)));
            Self::lemma_same_mask(mask, m);
            assert forall|i: u64| i < 64 && #[trigger] crate::seg::bit::bit(mask, i) implies i
                < self.chunks@.len() by {
                assert(crate::seg::heap::hits(i as int, self.first_leaf(range), self.last_leaf(range)));
            }
        }
        SegExpTreeIterator::new(mask, time, self)
    }
}

} // verus!
