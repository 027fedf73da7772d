use vstd::prelude::*;
use core::cmp::Ordering;
use crate::bin_key::index::{BinKey, BinLayout, BinLayoutOp};
use crate::sort::key_sort::{sort_window_by, sort_window_unstable_by, Bin};

verus! {

/// The bins of a layout.
pub struct BinStore<U> {
    pub layout: BinLayout<U>,
    pub bins: Vec<Bin>,
}

/// The cursors after the first `k` of the items were put into their bins.
pub open spec fn cursors<U: Copy + Ord + BinLayoutOp, T: BinKey<U>>(
    layout: BinLayout<U>,
    start: Seq<usize>,
    items: Seq<T>,
    k: int,
) -> Seq<usize>
    decreases k,
{
    if k <= 0 {
        start
    } else {
        let before = cursors(layout, start, items, k - 1);
        let bin = layout.index_of(items[k - 1].key_of());
        before.update(bin, (before[bin] + 1) as usize)
    }
}

/// The array after the first `k` of the items were put into their bins, each
/// at the cursor of its bin.
pub open spec fn placed<U: Copy + Ord + BinLayoutOp, T: BinKey<U>>(
    layout: BinLayout<U>,
    start: Seq<usize>,
    blank: Seq<T>,
    items: Seq<T>,
    k: int,
) -> Seq<T>
    decreases k,
{
    if k <= 0 {
        blank
    } else {
        let before = placed(layout, start, blank, items, k - 1);
        let at = cursors(layout, start, items, k - 1)[layout.index_of(items[k - 1].key_of())];
        before.update(at as int, items[k - 1])
    }
}

/// The cursors of the bins.
pub open spec fn cursors_of(bins: Seq<Bin>) -> Seq<usize> {
    Seq::new(bins.len(), |i: int| bins[i].data)
}

/// The bin of an item.
pub open spec fn bin_of<U: Copy + Ord + BinLayoutOp, T: BinKey<U>>(layout: BinLayout<U>, item: T) -> int {
    layout.index_of(item.key_of())
}

/// The number of those of the first `k` items that belong in the bin `bin`.
pub open spec fn held<U: Copy + Ord + BinLayoutOp, T: BinKey<U>>(
    layout: BinLayout<U>,
    items: Seq<T>,
    bin: int,
    k: int,
) -> int
    decreases k,
{
    if k <= 0 {
        0
    } else {
        held(layout, items, bin, k - 1) + if bin_of(layout, items[k - 1]) == bin {
            1int
        } else {
            0int
        }
    }
}

/// The number of those of the first `k` items that belong in one of the
/// first `bins` bins.
pub open spec fn held_below<U: Copy + Ord + BinLayoutOp, T: BinKey<U>>(
    layout: BinLayout<U>,
    items: Seq<T>,
    bins: int,
    k: int,
) -> int
    decreases bins,
{
    if bins <= 0 {
        0
    } else {
        held_below(layout, items, bins - 1, k) + held(layout, items, bins - 1, k)
    }
}

/// How the counts grow from item to item.
pub proof fn lemma_held<U: Copy + Ord + BinLayoutOp, T: BinKey<U>>(
    layout: BinLayout<U>,
    items: Seq<T>,
    bin: int,
    k: int,
    n: int,
)
    requires
        0 <= k <= n,
    ensures
        0 <= held(layout, items, bin, k) <= held(layout, items, bin, n),
        held(layout, items, bin, n) - held(layout, items, bin, k) <= n - k,
        k < n && bin_of(layout, items[k]) == bin ==> held(layout, items, bin, k) < held(layout, items, bin, n),
    decreases n,
{
    if k < n {
        lemma_held(layout, items, bin, k, n - 1);
    } else if n > 0 {
        lemma_held(layout, items, bin, n - 1, n - 1);
    }
}

/// How the counts below a bin grow from item to item and from bin to bin.
pub proof fn lemma_held_below<U: Copy + Ord + BinLayoutOp, T: BinKey<U>>(
    layout: BinLayout<U>,
    items: Seq<T>,
    bins: int,
    more: int,
    k: int,
)
    requires
        0 <= bins <= more,
        0 <= k,
    ensures
        0 <= held_below(layout, items, bins, k) <= held_below(layout, items, more, k),
        held_below(layout, items, bins, k + 1) == held_below(layout, items, bins, k) + if 0 <= bin_of(
            layout,
            items[k],
        ) < bins {
            1int
        } else {
            0int
        },
    decreases more,
{
    if bins < more {
        lemma_held_below(layout, items, bins, more - 1, k);
        lemma_held(layout, items, more - 1, k, k);
    } else if bins > 0 {
        lemma_held_below(layout, items, bins - 1, bins - 1, k);
        lemma_held(layout, items, bins - 1, k, k);
    }
}

/// Items that all belong in one of the first `bins` bins are counted once
/// each.
pub proof fn lemma_held_all<U: Copy + Ord + BinLayoutOp, T: BinKey<U>>(
    layout: BinLayout<U>,
    items: Seq<T>,
    bins: int,
    k: int,
)
    requires
        0 <= bins,
        0 <= k <= items.len(),
        forall|i: int| 0 <= i < items.len() ==> 0 <= bin_of(layout, #[trigger] items[i]) < bins,
    ensures
        held_below(layout, items, bins, k) == k,
    decreases k,
{
    if k > 0 {
        lemma_held_all(layout, items, bins, k - 1);
        lemma_held_below(layout, items, bins, bins, k - 1);
    } else {
        lemma_held_none(layout, items, bins);
    }
}

/// Of no items none is counted.
pub proof fn lemma_held_none<U: Copy + Ord + BinLayoutOp, T: BinKey<U>>(
    layout: BinLayout<U>,
    items: Seq<T>,
    bins: int,
)
    requires
        0 <= bins,
    ensures
        held_below(layout, items, bins, 0) == 0,
    decreases bins,
{
    if bins > 0 {
        lemma_held_none(layout, items, bins - 1);
    }
}

/// Where the cursors stand after the first `k` items.
pub proof fn lemma_cursors<U: Copy + Ord + BinLayoutOp, T: BinKey<U>>(
    layout: BinLayout<U>,
    start: Seq<usize>,
    items: Seq<T>,
    k: int,
    bin: int,
)
    requires
        0 <= k <= items.len(),
        0 <= bin < start.len(),
        forall|i: int| 0 <= i < items.len() ==> 0 <= bin_of(layout, #[trigger] items[i]) < start.len(),
        forall|b: int|
            0 <= b < start.len() ==> (#[trigger] start[b]) + held(layout, items, b, items.len() as int)
                <= usize::MAX,
    ensures
        cursors(layout, start, items, k).len() == start.len(),
        cursors(layout, start, items, k)[bin] == start[bin] + held(layout, items, bin, k),
    decreases k,
{
    if k > 0 {
        lemma_cursors(layout, start, items, k - 1, bin);
        let at = bin_of(layout, items[k - 1]);
        lemma_cursors(layout, start, items, k - 1, at);
        lemma_held(layout, items, at, k - 1, items.len() as int);
        lemma_held(layout, items, at, 0, k - 1);
    }
}

/// Two arrays hold the same items if each item of the one stands at a place
/// of its own in the other.
pub proof fn lemma_same_items<T>(a: Seq<T>, b: Seq<T>, place: Seq<int>)
    requires
        a.len() == b.len(),
        place.len() == a.len(),
        forall|k: int| 0 <= k < a.len() ==> 0 <= #[trigger] place[k] < b.len() && b[place[k]] == a[k],
        forall|j: int, k: int| 0 <= j < k < a.len() ==> #[trigger] place[j] != #[trigger] place[k],
    ensures
        a.to_multiset() =~= b.to_multiset(),
    decreases a.len(),
{
    if a.len() == 0 {
        assert(a =~= b);
    } else {
        let n = a.len() - 1;
        let at = place[n];
        let less = a.drop_last();
        let rest = b.remove(at);
        let moved = Seq::new(
            n as nat,
            |k: int|
                if place[k] > at {
                    place[k] - 1
                } else {
                    place[k]
                },
        );
        assert forall|k: int| 0 <= k < less.len() implies 0 <= #[trigger] moved[k] < rest.len() && rest[moved[k]]
            == less[k] by {
            assert(place[k] != place[n]);
            assert(0 <= place[k] < b.len() && b[place[k]] == a[k]);
        }
        assert forall|j: int, k: int| 0 <= j < k < less.len() implies #[trigger] moved[j] != #[trigger] moved[k] by {
            assert(place[j] != place[k]);
            assert(place[j] != place[n]);
            assert(place[k] != place[n]);
        }
        lemma_same_items(less, rest, moved);
        vstd::seq_lib::to_multiset_remove(b, at);
        assert(a =~= less.push(a[n]));
        vstd::seq_lib::to_multiset_build(less, a[n]);
        assert(0 <= place[n] < b.len() && b[place[n]] == a[n]);
        b.to_multiset_ensures();
        assert(b.contains(b[at]));
    }
}

/// The sum of the `data` of the first `n` bins.
pub open spec fn filled(bins: Seq<Bin>, n: int) -> int
    decreases n,
{
    if n <= 0 {
        0
    } else {
        filled(bins, n - 1) + bins[n - 1].data
    }
}

impl<U: Copy + Ord + BinLayoutOp> BinStore<U> {
    /// The store has a bin for every key of its layout.
    pub open spec fn wf(&self) -> bool {
        &&& self.layout.wf()
        &&& self.bins@.len() == self.layout.index_of(self.layout.max_key) + 1
    }

    /// A store without bins for the one key `min_key`.
    #[inline]
    pub fn empty(min_key: U, capacity: usize) -> (store: Self)
        ensures
            store.bins@.len() == 0,
            store.layout.min_key == min_key,
            store.layout.max_key == min_key,
            store.layout.power == 0,
    {
        let layout = BinLayout { min_key, max_key: min_key, power: 0 };
        let bins = Vec::with_capacity(capacity);

        Self { layout, bins }
    }

    /// Takes the layout and starts with a zeroed bin for each of its bins.
    #[inline]
    pub fn init(&mut self, layout: BinLayout<U>)
        requires
            layout.wf(),
        ensures
            final(self).wf(),
            final(self).layout == layout,
            forall|i: int|
                0 <= i < final(self).bins@.len() ==> (#[trigger] final(self).bins@[i]).offset == 0 && final(self).bins@[i].data == 0,
    {
        let bin_count = layout.count();
        self.layout = layout;
        self.bins.clear();
        self.bins.reserve(bin_count);
        let mut i: usize = 0;
        while i < bin_count
            invariant
                i <= bin_count,
                self.bins@.len() == i,
                self.layout == layout,
                forall|k: int| 0 <= k < i ==> (#[trigger] self.bins@[k]).offset == 0 && self.bins@[k].data == 0,
            decreases bin_count - i,
        {
            self.bins.push(Bin { offset: 0, data: 0 });
            i += 1;
        }
    }

    /// A store with zeroed bins for `count` items with keys from `min` to
    /// `max`, if a layout can be made for them.
    #[inline]
    pub fn new(min: U, max: U, count: usize) -> (store: Option<Self>)
        requires
            min.number() <= max.number(),
            max.number() - min.number() < usize::MAX,
        ensures
            store is None <==> crate::bin_key::index::most_bins(max.number() - min.number() + 1, count) <= 1,
            store is Some ==> {
                &&& store->0.layout.min_key == min
                &&& store->0.layout.max_key == max
                &&& store->0.layout.power == crate::bin_key::index::power_for(
                    max.number() - min.number() + 1,
                    count,
                )
                &&& store->0.wf()
                &&& forall|i: int|
                    0 <= i < store->0.bins@.len() ==> (#[trigger] store->0.bins@[i]).offset == 0
                        && store->0.bins@[i].data == 0
            },
    {
        let layout = match BinLayout::new(min..max, count) {
            Some(layout) => layout,
            None => {
                return None;
            },
        };
        let bin_count = layout.count();
        let mut bins: Vec<Bin> = Vec::with_capacity(bin_count);
        let mut i: usize = 0;
        while i < bin_count
            invariant
                i <= bin_count,
                bins@.len() == i,
                forall|k: int| 0 <= k < i ==> (#[trigger] bins@[k]).offset == 0 && bins@[k].data == 0,
            decreases bin_count - i,
        {
            bins.push(Bin { offset: 0, data: 0 });
            i += 1;
        }

        Some(Self { layout, bins })
    }

    /// Counts in `data` of each bin the items that belong there.
    #[inline]
    pub fn reserve_bins_space<T>(&mut self, items: &Vec<T>) where T: BinKey<U> + Clone
        requires
            old(self).wf(),
            forall|i: int|
                0 <= i < items@.len() ==> old(self).layout.min_key.number() <= (#[trigger] items@[i]).key_of().number()
                    <= old(self).layout.max_key.number(),
            forall|i: int|
                0 <= i < old(self).bins@.len() ==> (#[trigger] old(self).bins@[i]).data + items@.len()
                    <= usize::MAX,
        ensures
            final(self).wf(),
            final(self).layout == old(self).layout,
            forall|i: int|
                0 <= i < final(self).bins@.len() ==> (#[trigger] final(self).bins@[i]).offset == old(
                    self,
                ).bins@[i].offset && final(self).bins@[i].data == old(self).bins@[i].data + held(
                    old(self).layout,
                    items@,
                    i,
                    items@.len() as int,
                ),
    {
        let mut k: usize = 0;
        while k < items.len()
            invariant
                k <= items@.len(),
                self.wf(),
                self.layout == old(self).layout,
                forall|i: int|
                    0 <= i < items@.len() ==> self.layout.min_key.number() <= (#[trigger] items@[i]).key_of().number()
                        <= self.layout.max_key.number(),
                forall|i: int|
                    0 <= i < self.bins@.len() ==> (#[trigger] old(self).bins@[i]).data + items@.len()
                        <= usize::MAX,
                forall|i: int|
                    0 <= i < self.bins@.len() ==> (#[trigger] self.bins@[i]).offset == old(self).bins@[i].offset
                        && self.bins@[i].data == old(self).bins@[i].data + held(self.layout, items@, i, k as int),
            decreases items@.len() - k,
        {
            let index = items[k].bin_index(&self.layout);
            let ghost before = self.bins@;
            proof {
                assert(before[index as int].data == old(self).bins@[index as int].data + held(
                    self.layout,
                    items@,
                    index as int,
                    k as int,
                ));
                lemma_held(self.layout, items@, index as int, 0, k as int);
            }
            let data = self.bins[index].data;
            self.bins[index].data = data + 1;
            proof {
                assert forall|i: int| 0 <= i < self.bins@.len() implies (#[trigger] self.bins@[i]).offset == old(
                    self,
                ).bins@[i].offset && self.bins@[i].data == old(self).bins@[i].data + held(
                    self.layout,
                    items@,
                    i,
                    k + 1,
                ) by {
                    assert(before[i].offset == old(self).bins@[i].offset);
                }
            }
            k += 1;
        }
    }

    /// Turns the counts into the places of the bins: each bin starts where
    /// the one before it ends, and its cursor stands at its start. Returns
    /// the number of items in all.
    #[inline]
    pub fn prepare_bins(&mut self) -> (total: usize)
        requires
            filled(old(self).bins@, old(self).bins@.len() as int) <= usize::MAX,
            forall|i: int| 0 <= i < old(self).bins@.len() ==> (#[trigger] old(self).bins@[i]).data >= 0,
        ensures
            final(self).layout == old(self).layout,
            final(self).bins@.len() == old(self).bins@.len(),
            total == filled(old(self).bins@, old(self).bins@.len() as int),
            forall|i: int|
                0 <= i < final(self).bins@.len() ==> (#[trigger] final(self).bins@[i]).offset == filled(
                    old(self).bins@,
                    i,
                ) && final(self).bins@[i].data == final(self).bins@[i].offset,
    {
        // each bin starts where the one before it ends
        let mut offset: usize = 0;
        let n = self.bins.len();
        let mut i: usize = 0;
        proof {
            Self::lemma_filled(old(self).bins@, n as int, 0);
        }
        while i < n
            invariant
                i <= n,
                n == self.bins@.len(),
                n == old(self).bins@.len(),
                self.layout == old(self).layout,
                offset == filled(old(self).bins@, i as int),
                filled(old(self).bins@, n as int) <= usize::MAX,
                forall|k: int| i <= k < n ==> #[trigger] self.bins@[k] == old(self).bins@[k],
                forall|k: int|
                    0 <= k < i ==> (#[trigger] self.bins@[k]).offset == filled(old(self).bins@, k)
                        && self.bins@[k].data == self.bins@[k].offset,
            decreases n - i,
        {
            proof {
                Self::lemma_filled(old(self).bins@, n as int, i + 1);
            }
            let next_offset = offset + self.bins[i].data;
            self.bins[i].offset = offset;
            self.bins[i].data = offset;
            offset = next_offset;
            i += 1;
        }
        offset
    }

    /// The sum over the first bins is no more than the sum over all.
    pub proof fn lemma_filled(bins: Seq<Bin>, n: int, k: int)
        requires
            0 <= k <= n <= bins.len(),
        ensures
            0 <= filled(bins, k) <= filled(bins, n),
        decreases n,
    {
        if k < n {
            Self::lemma_filled(bins, n - 1, k);
        } else if n > 0 {
            Self::lemma_filled(bins, n - 1, n - 1);
        }
    }

    /// Bins to whose `data` the counts of the items were added hold
    /// together what they held and the items of the first bins.
    pub proof fn lemma_filled_more<T: BinKey<U>>(
        layout: BinLayout<U>,
        before: Seq<Bin>,
        bins: Seq<Bin>,
        items: Seq<T>,
        n: int,
    )
        requires
            0 <= n <= bins.len(),
            bins.len() == before.len(),
            forall|i: int|
                0 <= i < bins.len() ==> (#[trigger] bins[i]).data == before[i].data + held(
                    layout,
                    items,
                    i,
                    items.len() as int,
                ),
        ensures
            filled(bins, n) == filled(before, n) + held_below(layout, items, n, items.len() as int),
        decreases n,
    {
        if n > 0 {
            Self::lemma_filled_more(layout, before, bins, items, n - 1);
        }
    }

    /// Bins that hold nothing hold nothing together.
    pub proof fn lemma_filled_none(bins: Seq<Bin>, n: int)
        requires
            0 <= n <= bins.len(),
            forall|i: int| 0 <= i < bins.len() ==> (#[trigger] bins[i]).data == 0,
        ensures
            filled(bins, n) == 0,
        decreases n,
    {
        if n > 0 {
            Self::lemma_filled_none(bins, n - 1);
        }
    }

    /// Adds to `data` of each bin the number of the items that belong there
    /// and turns the sums into the places of the bins: each bin starts where
    /// the one before it ends, and its cursor stands at its start. In a
    /// store whose `data` were 0 the bins are then laid out for the items.
    #[inline]
    pub fn layout_bins<T>(&mut self, items: &Vec<T>) where T: BinKey<U> + Clone
        requires
            old(self).wf(),
            forall|i: int|
                0 <= i < items@.len() ==> old(self).layout.min_key.number() <= (#[trigger] items@[i]).key_of().number()
                    <= old(self).layout.max_key.number(),
            filled(old(self).bins@, old(self).bins@.len() as int) + items@.len() <= usize::MAX,
        ensures
            final(self).layout == old(self).layout,
            final(self).bins@.len() == old(self).bins@.len(),
            forall|i: int|
                0 <= i < final(self).bins@.len() ==> (#[trigger] final(self).bins@[i]).offset == filled(
                    old(self).bins@,
                    i,
                ) + held_below(old(self).layout, items@, i, items@.len() as int) && final(self).bins@[i].data
                    == final(self).bins@[i].offset,
            (forall|i: int| 0 <= i < old(self).bins@.len() ==> (#[trigger] old(self).bins@[i]).data == 0) ==> {
                &&& final(self).takes(items.len(), items@)
                &&& final(self).laid_for(items@)
            },
    {
        let count = items.len();
        proof {
            let total = self.bins@.len() as int;
            assert forall|i: int| 0 <= i < self.bins@.len() implies (#[trigger] self.bins@[i]).data + items@.len()
                <= usize::MAX by {
                Self::lemma_filled(self.bins@, total, i + 1);
                Self::lemma_filled(self.bins@, total, i);
            }
        }
        self.reserve_bins_space(items);
        let ghost counted = self.bins@;
        proof {
            let n = items@.len() as int;
            let bins = self.bins@.len() as int;
            assert forall|i: int| 0 <= i < items@.len() implies 0 <= bin_of(self.layout, #[trigger] items@[i])
                < bins by {
                self.layout.lemma_index(items@[i].key_of());
            }
            Self::lemma_filled_more(self.layout, old(self).bins@, counted, items@, bins);
            lemma_held_all(self.layout, items@, bins, n);
        }
        let _ = self.prepare_bins();
        proof {
            let n = items@.len() as int;
            let bins = self.bins@.len() as int;
            assert forall|i: int| 0 <= i < bins implies (#[trigger] self.bins@[i]).offset == filled(
                old(self).bins@,
                i,
            ) + held_below(self.layout, items@, i, n) && self.bins@[i].data == self.bins@[i].offset by {
                Self::lemma_filled_more(self.layout, old(self).bins@, counted, items@, i);
            }
            if forall|i: int| 0 <= i < old(self).bins@.len() ==> (#[trigger] old(self).bins@[i]).data == 0 {
                assert forall|i: int| 0 <= i < bins implies (#[trigger] self.bins@[i]).offset == held_below(
                    self.layout,
                    items@,
                    i,
                    n,
                ) by {
                    Self::lemma_filled_none(old(self).bins@, i);
                }
                self.lemma_takes(items@);
            }
        }
    }

    /// The bins are laid out for the items: each starts behind as many
    /// places as there are items in the bins before it, and its cursor stands
    /// at its start.
    pub open spec fn laid_for<T: BinKey<U>>(&self, items: Seq<T>) -> bool {
        &&& self.wf()
        &&& items.len() <= usize::MAX
        &&& forall|i: int|
            0 <= i < items.len() ==> self.layout.min_key.number() <= (#[trigger] items[i]).key_of().number()
                <= self.layout.max_key.number()
        &&& forall|i: int|
            0 <= i < self.bins@.len() ==> (#[trigger] self.bins@[i]).offset == held_below(
                self.layout,
                items,
                i,
                items.len() as int,
            ) && self.bins@[i].data == self.bins@[i].offset
    }

    /// The place at which the item `k` is put.
    pub open spec fn place_of<T: BinKey<U>>(&self, items: Seq<T>, k: int) -> int {
        cursors(self.layout, cursors_of(self.bins@), items, k)[bin_of(self.layout, items[k])] as int
    }

    /// In bins that are laid out for the items no two items are put at the
    /// same place, and each is put within the array.
    pub proof fn lemma_place<T: BinKey<U>>(&self, items: Seq<T>, j: int, k: int)
        requires
            self.laid_for(items),
            0 <= j < k < items.len(),
        ensures
            self.place_of(items, j) != self.place_of(items, k),
            0 <= self.place_of(items, j) < items.len(),
            0 <= self.place_of(items, k) < items.len(),
    {
        let n = items.len() as int;
        let bins = self.bins@.len() as int;
        let start = cursors_of(self.bins@);
        self.lemma_takes(items);
        assert forall|i: int| 0 <= i < items.len() implies 0 <= bin_of(self.layout, #[trigger] items[i])
            < start.len() by {
            self.layout.lemma_index(items[i].key_of());
        }
        lemma_held_all(self.layout, items, bins, n);
        assert forall|b: int| 0 <= b < start.len() implies (#[trigger] start[b]) + held(
            self.layout,
            items,
            b,
            n,
        ) <= usize::MAX by {
            assert(start[b] == self.bins@[b].data);
            lemma_held_below(self.layout, items, b + 1, bins, n);
        }
        let bj = bin_of(self.layout, items[j]);
        let bk = bin_of(self.layout, items[k]);
        lemma_cursors(self.layout, start, items, j, bj);
        lemma_cursors(self.layout, start, items, k, bk);
        assert(start[bj] == self.bins@[bj].data);
        assert(start[bk] == self.bins@[bk].data);
        lemma_held(self.layout, items, bj, j, n);
        lemma_held(self.layout, items, bk, k, n);
        lemma_held(self.layout, items, bj, 0, j);
        lemma_held(self.layout, items, bk, 0, k);
        if bj == bk {
            lemma_held(self.layout, items, bj, j, k);
        } else if bj < bk {
            lemma_held_below(self.layout, items, bj + 1, bk, n);
        } else {
            lemma_held_below(self.layout, items, bk + 1, bj, n);
        }
        lemma_held_below(self.layout, items, bj + 1, bins, n);
        lemma_held_below(self.layout, items, bk + 1, bins, n);
    }

    /// An item that was put into the array stands there when more items are
    /// put in.
    pub proof fn lemma_placed<T: BinKey<U>>(&self, blank: Seq<T>, items: Seq<T>, k: int, m: int)
        requires
            self.laid_for(items),
            blank.len() == items.len(),
            0 <= k < m <= items.len(),
        ensures
            placed(self.layout, cursors_of(self.bins@), blank, items, m).len() == blank.len(),
            placed(self.layout, cursors_of(self.bins@), blank, items, m)[self.place_of(items, k)] == items[k],
        decreases m,
    {
        let start = cursors_of(self.bins@);
        self.lemma_placed_len(blank, items, m - 1);
        if k < m - 1 {
            self.lemma_placed(blank, items, k, m - 1);
            self.lemma_place(items, k, m - 1);
        } else if m - 1 > 0 {
            self.lemma_place(items, 0, m - 1);
        } else {
            self.lemma_first_place(items);
        }
    }

    /// Putting items into the array leaves its length.
    pub proof fn lemma_placed_len<T: BinKey<U>>(&self, blank: Seq<T>, items: Seq<T>, m: int)
        requires
            self.laid_for(items),
            blank.len() == items.len(),
            0 <= m <= items.len(),
        ensures
            placed(self.layout, cursors_of(self.bins@), blank, items, m).len() == blank.len(),
        decreases m,
    {
        if m > 0 {
            self.lemma_placed_len(blank, items, m - 1);
            if m - 1 > 0 {
                self.lemma_place(items, 0, m - 1);
            } else {
                self.lemma_first_place(items);
            }
        }
    }

    /// The first item is put within the array.
    pub proof fn lemma_first_place<T: BinKey<U>>(&self, items: Seq<T>)
        requires
            self.laid_for(items),
            0 < items.len(),
        ensures
            0 <= self.place_of(items, 0) < items.len(),
    {
        self.lemma_takes(items);
        let c = cursors(self.layout, cursors_of(self.bins@), items, 0);
        assert(c[bin_of(self.layout, items[0])] < items.len());
    }

    /// An array into which every item was put, in bins that are laid out for
    /// the items, holds the items and nothing else.
    pub proof fn lemma_laid_same<T: BinKey<U>>(&self, items: Seq<T>, array: Seq<T>)
        requires
            self.laid_for(items),
            self.laid_out(items.len() as usize, items, array),
        ensures
            array.to_multiset() =~= items.to_multiset(),
    {
        let n = items.len() as int;
        let blank = choose|blank: Seq<T>|
            blank.len() == items.len() as usize && array == #[trigger] placed(
                self.layout,
                cursors_of(self.bins@),
                blank,
                items,
                items.len() as int,
            );
        let place = Seq::new(n as nat, |k: int| self.place_of(items, k));
        self.lemma_placed_len(blank, items, n);
        assert forall|k: int| 0 <= k < items.len() implies 0 <= #[trigger] place[k] < array.len()
            && array[place[k]] == items[k] by {
            self.lemma_placed(blank, items, k, n);
            if k > 0 {
                self.lemma_place(items, 0, k);
            } else {
                self.lemma_first_place(items);
            }
        }
        assert forall|j: int, k: int| 0 <= j < k < items.len() implies #[trigger] place[j] != #[trigger] place[k] by {
            self.lemma_place(items, j, k);
        }
        lemma_same_items(items, array, place);
    }

    /// Bins that are laid out for the items take them.
    pub proof fn lemma_takes<T: BinKey<U>>(&self, items: Seq<T>)
        requires
            self.wf(),
            items.len() <= usize::MAX,
            forall|i: int|
                0 <= i < items.len() ==> self.layout.min_key.number() <= (#[trigger] items[i]).key_of().number()
                    <= self.layout.max_key.number(),
            forall|i: int|
                0 <= i < self.bins@.len() ==> (#[trigger] self.bins@[i]).offset == held_below(
                    self.layout,
                    items,
                    i,
                    items.len() as int,
                ) && self.bins@[i].data == self.bins@[i].offset,
        ensures
            self.takes(items.len() as usize, items),
    {
        let n = items.len() as int;
        let bins = self.bins@.len() as int;
        let start = cursors_of(self.bins@);
        assert forall|i: int| 0 <= i < items.len() implies 0 <= bin_of(self.layout, #[trigger] items[i])
            < start.len() by {
            self.layout.lemma_index(items[i].key_of());
        }
        lemma_held_all(self.layout, items, bins, n);
        assert forall|b: int| 0 <= b < start.len() implies (#[trigger] start[b]) + held(
            self.layout,
            items,
            b,
            n,
        ) <= n by {
            assert(start[b] == self.bins@[b].data);
            lemma_held_below(self.layout, items, b + 1, bins, n);
        }
        assert forall|k: int| 0 <= k < items.len() implies (#[trigger] cursors(self.layout, start, items, k))[bin_of(
            self.layout,
            items[k],
        )] < n by {
            let at = bin_of(self.layout, items[k]);
            lemma_cursors(self.layout, start, items, k, at);
            lemma_held(self.layout, items, at, k, n);
            assert(start[at] + held(self.layout, items, at, n) <= n);
        }
        assert forall|b: int| 0 <= b < self.bins@.len() implies (#[trigger] self.bins@[b]).offset <= cursors(
            self.layout,
            start,
            items,
            n,
        )[b] <= n by {
            lemma_cursors(self.layout, start, items, n, b);
            lemma_held(self.layout, items, b, 0, n);
            assert(start[b] == self.bins@[b].offset);
            assert(start[b] + held(self.layout, items, b, n) <= n);
        }
        let count = items.len() as usize;
        assert(count == n);
        assert(self.takes(count, items));
    }

    /// Bins that hold at most `m` each hold at most `n m` together.
    pub proof fn lemma_filled_bound(bins: Seq<Bin>, n: int, m: int)
        requires
            0 <= n <= bins.len(),
            0 <= m,
            forall|i: int| 0 <= i < bins.len() ==> (#[trigger] bins[i]).data <= m,
        ensures
            filled(bins, n) <= n * m,
        decreases n,
    {
        if n > 0 {
            Self::lemma_filled_bound(bins, n - 1, m);
            assert((n - 1) * m + m == n * m) by (nonlinear_arith);
        }
    }

    /// Puts `item` at the cursor of its bin and moves the cursor on.
    #[inline]
    pub fn feed_vec<T>(&mut self, vec: &mut Vec<T>, item: T) where T: BinKey<U>
        requires
            old(self).wf(),
            old(self).layout.min_key.number() <= item.key_of().number() <= old(self).layout.max_key.number(),
            old(self).bins@[old(self).layout.index_of(item.key_of())].data < old(vec)@.len(),
        ensures
            final(self).wf(),
            final(self).layout == old(self).layout,
            0 <= old(self).layout.index_of(item.key_of()) < old(self).bins@.len(),
            final(vec)@.len() == old(vec)@.len(),
            final(vec)@ == old(vec)@.update(
                old(self).bins@[old(self).layout.index_of(item.key_of())].data as int,
                item,
            ),
            final(self).bins@ == old(self).bins@.update(
                old(self).layout.index_of(item.key_of()),
                (Bin {
                    data: (old(self).bins@[old(self).layout.index_of(item.key_of())].data + 1) as usize,
                    ..old(self).bins@[old(self).layout.index_of(item.key_of())]
                }),
            ),
    {
        let index = item.bin_index(&self.layout);
        let item_index = self.bins[index].data;
        let room = vec.len();
        self.bins[index].data = item_index + 1;
        vec[item_index] = item;
        proof {
            assert(self.bins@ =~= old(self).bins@.update(
                index as int,
                (Bin { data: (item_index + 1) as usize, ..old(self).bins@[index as int] }),
            ));
        }
    }

    /// The cursors stay within an array of `count` items while the items are
    /// put into their bins, and each ends behind the start of its bin.
    pub open spec fn takes<T: BinKey<U>>(&self, count: usize, items: Seq<T>) -> bool {
        &&& self.wf()
        &&& forall|i: int|
            0 <= i < items.len() ==> self.layout.min_key.number() <= (#[trigger] items[i]).key_of().number()
                <= self.layout.max_key.number()
        &&& forall|k: int|
            0 <= k < items.len() ==> (#[trigger] cursors(self.layout, cursors_of(self.bins@), items, k))[bin_of(
                self.layout,
                items[k],
            )] < count
        &&& forall|b: int|
            0 <= b < self.bins@.len() ==> (#[trigger] self.bins@[b]).offset <= cursors(
                self.layout,
                cursors_of(self.bins@),
                items,
                items.len() as int,
            )[b] <= count
    }

    /// `array` holds the items, each at the place where the cursor of its bin
    /// stood when it was put in, in an array of `count` items.
    pub open spec fn laid_out<T: BinKey<U>>(&self, count: usize, items: Seq<T>, array: Seq<T>) -> bool {
        exists|blank: Seq<T>|
            blank.len() == count && array == #[trigger] placed(
                self.layout,
                cursors_of(self.bins@),
                blank,
                items,
                items.len() as int,
            )
    }

    /// Every bin ends behind its start and within `count`.
    pub open spec fn closed(&self, count: usize) -> bool {
        forall|i: int|
            0 <= i < self.bins@.len() ==> (#[trigger] self.bins@[i]).offset <= self.bins@[i].data <= count
    }

    /// Every place from the start of a bin up to its cursor holds an item of
    /// that bin.
    pub open spec fn binned<T: BinKey<U>>(&self, array: Seq<T>) -> bool {
        forall|b: int, i: int|
            0 <= b < self.bins@.len() && (#[trigger] self.bins@[b]).offset <= i < self.bins@[b].data && i
                < array.len() ==> bin_of(self.layout, #[trigger] array[i]) == b
    }

    /// In bins that are laid out for the items the cursor of a bin runs from
    /// the start of the bin to the start of the next.
    pub proof fn lemma_cursor<T: BinKey<U>>(&self, items: Seq<T>, k: int, b: int, c: int)
        requires
            self.laid_for(items),
            0 <= k <= items.len(),
            0 <= b <= c < self.bins@.len(),
        ensures
            cursors(self.layout, cursors_of(self.bins@), items, k).len() == self.bins@.len(),
            cursors(self.layout, cursors_of(self.bins@), items, k)[b] == self.bins@[b].offset + held(
                self.layout,
                items,
                b,
                k,
            ),
            0 <= held(self.layout, items, b, k) <= held(self.layout, items, b, items.len() as int),
            k < items.len() && bin_of(self.layout, items[k]) == b ==> held(self.layout, items, b, k) < held(
                self.layout,
                items,
                b,
                items.len() as int,
            ),
            self.bins@[b].offset + held(self.layout, items, b, items.len() as int) <= items.len(),
            b < c ==> self.bins@[b].offset + held(self.layout, items, b, items.len() as int)
                <= self.bins@[c].offset,
    {
        let n = items.len() as int;
        let bins = self.bins@.len() as int;
        let start = cursors_of(self.bins@);
        assert forall|i: int| 0 <= i < items.len() implies 0 <= bin_of(self.layout, #[trigger] items[i])
            < start.len() by {
            self.layout.lemma_index(items[i].key_of());
        }
        lemma_held_all(self.layout, items, bins, n);
        assert forall|x: int| 0 <= x < start.len() implies (#[trigger] start[x]) + held(
            self.layout,
            items,
            x,
            n,
        ) <= usize::MAX by {
            assert(start[x] == self.bins@[x].data);
            lemma_held_below(self.layout, items, x + 1, bins, n);
        }
        lemma_cursors(self.layout, start, items, k, b);
        assert(start[b] == self.bins@[b].data);
        lemma_held(self.layout, items, b, k, n);
        lemma_held(self.layout, items, b, 0, k);
        lemma_held_below(self.layout, items, b + 1, bins, n);
        if b < c {
            lemma_held_below(self.layout, items, b + 1, c, n);
        }
    }

    /// Puts each of the items at the cursor of its bin in the array `blank`.
    /// If the bins are laid out for these items and the array is as long as
    /// they are many, every bin ends up with its own items.
    #[inline]
    pub fn place_over<T>(&mut self, blank: Vec<T>, items: Vec<T>) -> (array: Vec<T>) where T: BinKey<U>
        requires
            old(self).takes(blank@.len() as usize, items@),
        ensures
            array@ == placed(
                old(self).layout,
                cursors_of(old(self).bins@),
                blank@,
                items@,
                items@.len() as int,
            ),
            array@.len() == blank@.len(),
            final(self).layout == old(self).layout,
            final(self).bins@.len() == old(self).bins@.len(),
            forall|b: int|
                0 <= b < final(self).bins@.len() ==> (#[trigger] final(self).bins@[b]).offset == old(
                    self,
                ).bins@[b].offset && final(self).bins@[b].data == cursors(
                    old(self).layout,
                    cursors_of(old(self).bins@),
                    items@,
                    items@.len() as int,
                )[b],
            old(self).laid_for(items@) && blank@.len() == items@.len() ==> final(self).binned(array@),
    {
        let ghost start = cursors_of(self.bins@);
        let ghost first = *self;
        let ghost empty = blank@;
        let count = blank.len();
        let mut result = blank;

        let mut items = items;
        let ghost all = items@;
        let total = items.len();
        let mut k: usize = 0;
        let mut fed: Vec<T> = Vec::new();
        // the items are taken from the end; to put them in in their order
        // they are turned round first
        while items.len() > 0
            invariant
                fed@.len() + items@.len() == all.len(),
                forall|i: int| 0 <= i < items@.len() ==> #[trigger] items@[i] == all[i],
                forall|i: int| 0 <= i < fed@.len() ==> #[trigger] fed@[i] == all[all.len() - 1 - i],
            decreases items@.len(),
        {
            let item = items.pop().unwrap();
            fed.push(item);
        }
        while fed.len() > 0
            invariant
                self.wf(),
                first.takes(count, all),
                start == cursors_of(first.bins@),
                self.layout == first.layout,
                self.bins@.len() == first.bins@.len(),
                total == all.len(),
                k + fed@.len() == all.len(),
                result@.len() == count,
                forall|i: int| 0 <= i < fed@.len() ==> #[trigger] fed@[i] == all[all.len() - 1 - i],
                cursors_of(self.bins@) =~= cursors(first.layout, start, all, k as int),
                forall|b: int| 0 <= b < self.bins@.len() ==> (#[trigger] self.bins@[b]).offset == first.bins@[b].offset,
                result@ == placed(first.layout, start, empty, all, k as int),
                first.laid_for(all) && count == all.len() ==> self.binned(result@),
            decreases fed@.len(),
        {
            let item = fed.pop().unwrap();
            proof {
                assert(item == all[k as int]);
                let c = cursors(first.layout, start, all, k as int);
                let at = bin_of(first.layout, all[k as int]);
                first.layout.lemma_index(all[k as int].key_of());
                assert(c[at] < count);
                assert(0 <= at < self.bins@.len());
                assert(cursors_of(self.bins@)[at] == self.bins@[at].data);
            }
            let ghost bins0 = self.bins@;
            let ghost array0 = result@;
            self.feed_vec(&mut result, item);
            proof {
                let bin = first.layout.index_of(all[k as int].key_of());
                assert(cursors_of(self.bins@) =~= cursors_of(bins0).update(bin, (bins0[bin].data + 1) as usize));
                assert forall|b: int| 0 <= b < self.bins@.len() implies (#[trigger] self.bins@[b]).offset
                    == first.bins@[b].offset by {
                    assert(bins0[b].offset == first.bins@[b].offset);
                }
                if first.laid_for(all) && count == all.len() {
                    let at = bins0[bin].data as int;
                    first.lemma_cursor(all, k as int, bin, bin);
                    assert(cursors_of(bins0)[bin] == bins0[bin].data);
                    assert forall|b: int, i: int|
                        0 <= b < self.bins@.len() && (#[trigger] self.bins@[b]).offset <= i < self.bins@[b].data
                            && i < result@.len() implies bin_of(self.layout, #[trigger] result@[i]) == b by {
                        assert(cursors_of(bins0)[b] == bins0[b].data);
                        assert(bins0[b].offset == first.bins@[b].offset);
                        if b < bin {
                            first.lemma_cursor(all, k as int, b, bin);
                        } else if bin < b {
                            first.lemma_cursor(all, k as int, bin, b);
                            first.lemma_cursor(all, k as int, b, b);
                        }
                        if b != bin || i != at {
                            assert(bins0[b].offset <= i < bins0[b].data);
                            assert(result@[i] == array0[i]);
                            assert(bin_of(self.layout, array0[i]) == b);
                        }
                    }
                }
            }
            k += 1;
        }
        proof {
            assert forall|b: int| 0 <= b < self.bins@.len() implies (#[trigger] self.bins@[b]).offset == old(
                self,
            ).bins@[b].offset && self.bins@[b].data == cursors(
                first.layout,
                start,
                all,
                all.len() as int,
            )[b] by {
                assert(cursors_of(self.bins@)[b] == self.bins@[b].data);
            }
        }
        result
    }

    /// Puts each of the items at the cursor of its bin in an array of `count`
    /// items; what no item is put on is `T::default()`.
    #[inline]
    pub fn place_all<T>(&mut self, count: usize, items: Vec<T>) -> (array: Vec<T>) where T: BinKey<U> + Default
        requires
            old(self).takes(count, items@),
        ensures
            array@.len() == count,
            old(self).laid_out(count, items@, array@),
            final(self).layout == old(self).layout,
            final(self).bins@.len() == old(self).bins@.len(),
            final(self).closed(count),
    {
        let mut blank: Vec<T> = Vec::with_capacity(count);
        let mut n: usize = 0;
        while n < count
            invariant
                n <= count,
                blank@.len() == n,
            decreases count - n,
        {
            blank.push(T::default());
            n += 1;
        }
        self.place_over(blank, items)
    }

    /// The items, each put at the cursor of its bin, sorted by `compare`:
    /// first the part of each bin, then the whole array. `count` is the
    /// length of the array; what no item is put on is `T::default()`.
    #[inline]
    pub fn into_sorted_by_bins_vec<T, F>(self, count: usize, items: Vec<T>, compare: F) -> (sorted: Vec<T>) where
        T: BinKey<U> + Clone + Default,
        F: Fn(&T, &T) -> Ordering,

        requires
            self.takes(count, items@),
            crate::sort::key_sort::is_total::<T, F>(compare),
        ensures
            sorted@.len() == count,
            crate::sort::key_sort::in_order(sorted@, compare),
            exists|array: Seq<T>|
                #[trigger] self.laid_out(count, items@, array) && sorted@.to_multiset() == array.to_multiset(),
            self.laid_for(items@) && count == items@.len() ==> sorted@.to_multiset() =~= items@.to_multiset(),
    {
        let mut store = self;
        let mut result = store.place_all(count, items);
        let ghost laid = result@;

        let bins = store.bins.len();
        let mut b: usize = 0;
        while b < bins
            invariant
                b <= bins,
                bins == store.bins@.len(),
                result@.len() == count,
                crate::sort::key_sort::is_total::<T, F>(compare),
                result@.to_multiset() == laid.to_multiset(),
                store.closed(count),
            decreases bins - b,
        {
            let start = store.bins[b].offset;
            let end = store.bins[b].data;
            proof {
                store.lemma_closed(count, b);
            }
            if start < end {
                let ghost before = result@;
                sort_window_unstable_by(&mut result, start, end, &compare);
                proof {
                    lemma_window_sorted(before, result@, start, end, count);
                }
            }
            b += 1;
        }

        let ghost binned = result@;
        sort_window_by(&mut result, 0, count, &compare);
        proof {
            assert(crate::sort::key_sort::window(result@, 0, count) =~= result@);
            assert(crate::sort::key_sort::window(binned, 0, count) =~= binned);
            vstd::seq_lib::to_multiset_len(result@);
            vstd::seq_lib::to_multiset_len(laid);
            if self.laid_for(items@) && count == items@.len() {
                self.lemma_laid_same(items@, laid);
            }
        }

        result
    }

    /// What `closed` says of the bin `b`.
    pub proof fn lemma_closed(&self, count: usize, b: usize)
        requires
            self.closed(count),
            b < self.bins@.len(),
        ensures
            self.bins@[b as int].offset <= self.bins@[b as int].data <= count,
    {
    }
}

/// An array of which one part was rearranged holds the same items.
pub proof fn lemma_window_sorted<T>(before: Seq<T>, after: Seq<T>, start: usize, end: usize, len: usize)
    requires
        start <= end <= before.len(),
        after.len() == before.len(),
        len == before.len(),
        crate::sort::key_sort::window(after, start, end).to_multiset() == crate::sort::key_sort::window(
            before,
            start,
            end,
        ).to_multiset(),
        crate::sort::key_sort::window(after, 0, start) == crate::sort::key_sort::window(before, 0, start),
        crate::sort::key_sort::window(after, end, len) == crate::sort::key_sort::window(before, end, len),
    ensures
        after.to_multiset() == before.to_multiset(),
{
    let n = before.len() as int;
    let a0 = before.subrange(0, start as int);
    let a1 = before.subrange(start as int, end as int);
    let a2 = before.subrange(end as int, n);
    let b0 = after.subrange(0, start as int);
    let b1 = after.subrange(start as int, end as int);
    let b2 = after.subrange(end as int, n);
    assert(before =~= a0 + a1 + a2);
    assert(after =~= b0 + b1 + b2);
    assert(a0 == b0 && a2 == b2);
    assert(a1.to_multiset() == b1.to_multiset());
    vstd::seq_lib::lemma_multiset_commutative(a0 + a1, a2);
    vstd::seq_lib::lemma_multiset_commutative(a0, a1);
    vstd::seq_lib::lemma_multiset_commutative(b0 + b1, b2);
    vstd::seq_lib::lemma_multiset_commutative(b0, b1);
    assert(after.to_multiset() =~= before.to_multiset());
}

} // verus!
