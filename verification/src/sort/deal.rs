//! The order in which a sort by bins puts the items into their bins, and
//! what is counted of it.

use vstd::prelude::*;
use crate::bin_key::index::{BinKey, BinLayout, BinLayoutOp};
use crate::order::is_less;
use crate::sort::key_sort::Bin;
use crate::sort::layout::{bin_of, cursors_of, held, held_below, placed, BinStore};

verus! {

/// The least of the numbers of the keys of the first `k` items.
pub open spec fn least<U: Copy + Ord + BinLayoutOp, T: BinKey<U>>(items: Seq<T>, k: int) -> int
    decreases k,
{
    if k <= 1 {
        items[0].key_of().number()
    } else {
        let rest = least::<U, T>(items, k - 1);
        let x = items[k - 1].key_of().number();
        if x < rest {
            x
        } else {
            rest
        }
    }
}

/// The greatest of the numbers of the keys of the first `k` items.
pub open spec fn greatest<U: Copy + Ord + BinLayoutOp, T: BinKey<U>>(items: Seq<T>, k: int) -> int
    decreases k,
{
    if k <= 1 {
        items[0].key_of().number()
    } else {
        let rest = greatest::<U, T>(items, k - 1);
        let x = items[k - 1].key_of().number();
        if rest < x {
            x
        } else {
            rest
        }
    }
}

/// The number of keys from the least to the greatest of the items.
pub open spec fn key_count<U: Copy + Ord + BinLayoutOp, T: BinKey<U>>(items: Seq<T>) -> int {
    greatest::<U, T>(items, items.len() as int) - least::<U, T>(items, items.len() as int) + 1
}

/// Bins are made for the items: there are items, their keys can be
/// counted, and more than one bin falls to them.
pub open spec fn has_bins<U: Copy + Ord + BinLayoutOp, T: BinKey<U>>(items: Seq<T>) -> bool {
    &&& 0 < items.len() <= usize::MAX
    &&& key_count::<U, T>(items) <= usize::MAX
    &&& crate::bin_key::index::most_bins(key_count::<U, T>(items), items.len() as usize) > 1
}

/// `layout` is the layout that is made for the items: it reaches from
/// their least key to their greatest.
pub open spec fn fits<U: Copy + Ord + BinLayoutOp, T: BinKey<U>>(layout: BinLayout<U>, items: Seq<T>) -> bool {
    &&& layout.wf()
    &&& layout.min_key.number() == least::<U, T>(items, items.len() as int)
    &&& layout.max_key.number() == greatest::<U, T>(items, items.len() as int)
    &&& layout.power == crate::bin_key::index::power_for(key_count::<U, T>(items), items.len() as usize)
}

/// The item `k` stands behind the start of its bin.
pub open spec fn stands<U: Copy + Ord + BinLayoutOp, T: BinKey<U>>(
    layout: BinLayout<U>,
    items: Seq<T>,
    k: int,
) -> bool {
    held_below(layout, items, bin_of(layout, items[k]), items.len() as int) <= k
}

/// Those of the first `k` items that stand behind the start of their bin,
/// in their order. They are put into their bins first.
pub open spec fn direct<U: Copy + Ord + BinLayoutOp, T: BinKey<U>>(
    layout: BinLayout<U>,
    items: Seq<T>,
    k: int,
) -> Seq<T>
    decreases k,
{
    if k <= 0 {
        Seq::empty()
    } else if stands(layout, items, k - 1) {
        direct(layout, items, k - 1).push(items[k - 1])
    } else {
        direct(layout, items, k - 1)
    }
}

/// Those of the first `k` items that stand before the start of their bin,
/// in their order. They wait until the others are put into their bins.
pub open spec fn waiting<U: Copy + Ord + BinLayoutOp, T: BinKey<U>>(
    layout: BinLayout<U>,
    items: Seq<T>,
    k: int,
) -> Seq<T>
    decreases k,
{
    if k <= 0 {
        Seq::empty()
    } else if stands(layout, items, k - 1) {
        waiting(layout, items, k - 1)
    } else {
        waiting(layout, items, k - 1).push(items[k - 1])
    }
}

/// The items in the order in which they are put into their bins.
pub open spec fn turn<U: Copy + Ord + BinLayoutOp, T: BinKey<U>>(layout: BinLayout<U>, items: Seq<T>) -> Seq<T> {
    direct(layout, items, items.len() as int) + waiting(layout, items, items.len() as int)
}

/// Where the bins start.
pub open spec fn starts(bins: Seq<Bin>) -> Seq<usize> {
    Seq::new(bins.len(), |b: int| bins[b].offset)
}

/// Every place from the start of a bin up to its end holds an item of that
/// bin.
pub open spec fn binned<U: Copy + Ord + BinLayoutOp, T: BinKey<U>>(
    layout: BinLayout<U>,
    bins: Seq<Bin>,
    array: Seq<T>,
) -> bool {
    forall|b: int, i: int|
        0 <= b < bins.len() && (#[trigger] bins[b]).offset <= i < bins[b].data ==> bin_of(
            layout,
            #[trigger] array[i],
        ) == b
}

/// `array` and `bins` are what dealing the items into the bins of `layout`
/// gives: bin `b` starts behind the items of the bins before it and ends
/// where the next starts, the items stand where they were put, each at the
/// next free place of its bin, and so every bin holds its own items.
pub open spec fn dealt<U: Copy + Ord + BinLayoutOp, T: BinKey<U>>(
    layout: BinLayout<U>,
    items: Seq<T>,
    array: Seq<T>,
    bins: Seq<Bin>,
) -> bool {
    &&& array.len() == items.len()
    &&& bins.len() == layout.index_of(layout.max_key) + 1
    &&& forall|b: int|
        0 <= b < bins.len() ==> (#[trigger] bins[b]).offset == held_below(layout, items, b, items.len() as int)
            && bins[b].data == held_below(layout, items, b + 1, items.len() as int)
    &&& exists|blank: Seq<T>|
        blank.len() == items.len() && array == #[trigger] placed(
            layout,
            starts(bins),
            blank,
            turn(layout, items),
            items.len() as int,
        )
    &&& binned(layout, bins, array)
}

/// The counts look at the first `k` items only.
pub proof fn lemma_held_same<U: Copy + Ord + BinLayoutOp, T: BinKey<U>>(
    layout: BinLayout<U>,
    a: Seq<T>,
    c: Seq<T>,
    bin: int,
    k: int,
)
    requires
        0 <= k <= a.len(),
        k <= c.len(),
        forall|i: int| 0 <= i < k ==> a[i] == c[i],
    ensures
        held(layout, a, bin, k) == held(layout, c, bin, k),
    decreases k,
{
    if k > 0 {
        lemma_held_same(layout, a, c, bin, k - 1);
    }
}

/// Of two rows of items, one behind the other, the counts add up.
pub proof fn lemma_held_joined<U: Copy + Ord + BinLayoutOp, T: BinKey<U>>(
    layout: BinLayout<U>,
    a: Seq<T>,
    c: Seq<T>,
    bin: int,
    j: int,
)
    requires
        0 <= j <= c.len(),
    ensures
        held(layout, a + c, bin, a.len() + j) == held(layout, a, bin, a.len() as int) + held(layout, c, bin, j),
    decreases j,
{
    if j > 0 {
        lemma_held_joined(layout, a, c, bin, j - 1);
        assert((a + c)[a.len() + j - 1] == c[j - 1]);
    } else {
        lemma_held_same(layout, a + c, a, bin, a.len() as int);
    }
}

/// The items that are put in first and those that wait are the first `k`
/// items: as many, the same, and as many of each bin.
pub proof fn lemma_split<U: Copy + Ord + BinLayoutOp, T: BinKey<U>>(
    layout: BinLayout<U>,
    items: Seq<T>,
    bin: int,
    k: int,
)
    requires
        0 <= k <= items.len(),
    ensures
        direct(layout, items, k).len() + waiting(layout, items, k).len() == k,
        held(layout, direct(layout, items, k), bin, direct(layout, items, k).len() as int) + held(
            layout,
            waiting(layout, items, k),
            bin,
            waiting(layout, items, k).len() as int,
        ) == held(layout, items, bin, k),
        direct(layout, items, k).to_multiset().add(waiting(layout, items, k).to_multiset())
            =~= items.subrange(0, k).to_multiset(),
    decreases k,
{
    if k > 0 {
        lemma_split(layout, items, bin, k - 1);
        let d = direct(layout, items, k - 1);
        let w = waiting(layout, items, k - 1);
        let x = items[k - 1];
        let one = seq![x];
        assert(items.subrange(0, k) =~= items.subrange(0, k - 1).push(x));
        vstd::seq_lib::to_multiset_build(items.subrange(0, k - 1), x);
        let dm = d.to_multiset();
        let wm = w.to_multiset();
        if stands(layout, items, k - 1) {
            assert(d.push(x) =~= d + one);
            lemma_held_joined(layout, d, one, bin, 1);
            assert(held(layout, one, bin, 0) == 0);
            vstd::seq_lib::to_multiset_build(d, x);
            assert(dm.insert(x).add(wm) =~= dm.add(wm).insert(x));
        } else {
            assert(w.push(x) =~= w + one);
            lemma_held_joined(layout, w, one, bin, 1);
            assert(held(layout, one, bin, 0) == 0);
            vstd::seq_lib::to_multiset_build(w, x);
            assert(dm.add(wm.insert(x)) =~= dm.add(wm).insert(x));
        }
    } else {
        let none = Seq::<T>::empty();
        assert(items.subrange(0, 0) =~= none);
        none.to_multiset_ensures();
        assert(none.to_multiset().add(none.to_multiset()) =~= none.to_multiset());
    }
}

/// The items in the order in which they are put in are the items: as
/// many, the same, and as many of each bin.
pub proof fn lemma_turn<U: Copy + Ord + BinLayoutOp, T: BinKey<U>>(layout: BinLayout<U>, items: Seq<T>, bin: int)
    ensures
        turn(layout, items).len() == items.len(),
        turn(layout, items).to_multiset() =~= items.to_multiset(),
        held(layout, turn(layout, items), bin, items.len() as int) == held(
            layout,
            items,
            bin,
            items.len() as int,
        ),
{
    let n = items.len() as int;
    let d = direct(layout, items, n);
    let w = waiting(layout, items, n);
    lemma_split(layout, items, bin, n);
    lemma_held_joined(layout, d, w, bin, w.len() as int);
    assert(items.subrange(0, n) =~= items);
    vstd::seq_lib::lemma_multiset_commutative(d, w);
}

/// Rows of items with as many of each bin have as many in the first bins.
pub proof fn lemma_held_below_same<U: Copy + Ord + BinLayoutOp, T: BinKey<U>>(
    layout: BinLayout<U>,
    a: Seq<T>,
    c: Seq<T>,
    bins: int,
)
    requires
        forall|b: int|
            0 <= b < bins ==> held(layout, a, b, a.len() as int) == held(layout, c, b, c.len() as int),
    ensures
        held_below(layout, a, bins, a.len() as int) == held_below(layout, c, bins, c.len() as int),
    decreases bins,
{
    if bins > 0 {
        lemma_held_below_same(layout, a, c, bins - 1);
    }
}

/// What is known of the least and the greatest key: they are keys of the
/// items, and the others lie between them.
pub proof fn lemma_bounds<U: Copy + Ord + BinLayoutOp, T: BinKey<U>>(items: Seq<T>, k: int, i: int)
    requires
        0 <= i < k <= items.len(),
    ensures
        least::<U, T>(items, k) <= items[i].key_of().number() <= greatest::<U, T>(items, k),
        exists|j: int| 0 <= j < k && (#[trigger] items[j]).key_of().number() == least::<U, T>(items, k),
        exists|j: int| 0 <= j < k && (#[trigger] items[j]).key_of().number() == greatest::<U, T>(items, k),
    decreases k,
{
    if k > 1 {
        if i < k - 1 {
            lemma_bounds::<U, T>(items, k - 1, i);
        } else {
            lemma_bounds::<U, T>(items, k - 1, 0);
        }
        let lo = choose|j: int|
            0 <= j < k - 1 && (#[trigger] items[j]).key_of().number() == least::<U, T>(items, k - 1);
        let hi = choose|j: int|
            0 <= j < k - 1 && (#[trigger] items[j]).key_of().number() == greatest::<U, T>(items, k - 1);
        assert(items[lo].key_of().number() == least::<U, T>(items, k - 1));
        assert(items[hi].key_of().number() == greatest::<U, T>(items, k - 1));
        assert(items[k - 1].key_of().number() == items[k - 1].key_of().number());
    } else {
        assert(items[0].key_of().number() == least::<U, T>(items, k));
    }
}

/// The order of the keys is the order of their numbers.
pub open spec fn keys_numbered<U: Ord + BinLayoutOp>() -> bool {
    &&& crate::order::total_order::<U>()
    &&& forall|a: U, b: U| #[trigger] crate::order::key_lt(a, b) <==> a.number() < b.number()
}

/// The items can be sorted by bins: their keys are ordered as their numbers
/// are, and the distance between two keys can be measured.
pub open spec fn sortable<U: Copy + Ord + BinLayoutOp, T: BinKey<U>>(items: Seq<T>) -> bool {
    &&& keys_numbered::<U>()
    &&& forall|i: int, j: int|
        0 <= i < items.len() && 0 <= j < items.len() ==> (#[trigger] items[i]).key_of().number()
            - (#[trigger] items[j]).key_of().number() <= usize::MAX
}

/// The bins of items for which no bins are made: none for no items, and one
/// for all of them otherwise.
pub open spec fn one_bin(n: nat) -> Seq<Bin> {
    if n == 0 {
        Seq::empty()
    } else {
        seq![(Bin { offset: 0, data: n as usize })]
    }
}

/// The least and the greatest of the keys of the items.
pub fn key_range<U: Copy + Ord + BinLayoutOp, T: BinKey<U>>(items: &Vec<T>) -> (range: (U, U))
    requires
        items@.len() > 0,
        keys_numbered::<U>(),
    ensures
        range.0.number() == least::<U, T>(items@, items@.len() as int),
        range.1.number() == greatest::<U, T>(items@, items@.len() as int),
{
    let first = items[0].bin_key();
    let mut min_key = first;
    let mut max_key = first;
    let mut k: usize = 1;
    while k < items.len()
        invariant
            keys_numbered::<U>(),
            1 <= k <= items@.len(),
            min_key.number() == least::<U, T>(items@, k as int),
            max_key.number() == greatest::<U, T>(items@, k as int),
        decreases items@.len() - k,
    {
        let key = items[k].bin_key();
        if is_less(&key, &min_key) {
            min_key = key;
        }
        if is_less(&max_key, &key) {
            max_key = key;
        }
        k += 1;
    }
    (min_key, max_key)
}

/// The items in the opposite order.
pub fn turned<T>(items: Vec<T>) -> (back: Vec<T>)
    ensures
        back@.len() == items@.len(),
        forall|i: int| 0 <= i < back@.len() ==> #[trigger] back@[i] == items@[items@.len() - 1 - i],
{
    let mut items = items;
    let ghost all = items@;
    let mut back: Vec<T> = Vec::with_capacity(items.len());
    while items.len() > 0
        invariant
            back@.len() + items@.len() == all.len(),
            forall|i: int| 0 <= i < items@.len() ==> #[trigger] items@[i] == all[i],
            forall|i: int| 0 <= i < back@.len() ==> #[trigger] back@[i] == all[all.len() - 1 - i],
        decreases items@.len(),
    {
        let item = items.pop().unwrap();
        back.push(item);
    }
    back
}

impl<U: Copy + Ord + BinLayoutOp> BinStore<U> {
    /// The items in the order in which they are put into their bins: first
    /// those that stand behind the start of their bin, then the others.
    pub fn in_turn<T: BinKey<U>>(&self, items: Vec<T>) -> (order: Vec<T>)
        requires
            self.laid_for(items@),
        ensures
            order@ == turn(self.layout, items@),
    {
        let ghost all = items@;
        let n = items.len();
        let mut back = turned(items);
        let mut order: Vec<T> = Vec::with_capacity(n);
        let mut unused: Vec<T> = Vec::with_capacity(n >> 1);
        let mut k: usize = 0;
        while back.len() > 0
            invariant
                self.laid_for(all),
                n == all.len(),
                k + back@.len() == n,
                forall|i: int| 0 <= i < back@.len() ==> #[trigger] back@[i] == all[all.len() - 1 - i],
                order@ == direct(self.layout, all, k as int),
                unused@ == waiting(self.layout, all, k as int),
            decreases back@.len(),
        {
            let item = back.pop().unwrap();
            proof {
                assert(item == all[k as int]);
                self.layout.lemma_index(item.key_of());
            }
            let bin = item.bin_index(&self.layout);
            if k >= self.bins[bin].offset {
                order.push(item);
            } else {
                unused.push(item);
            }
            k += 1;
        }
        order.append(&mut unused);
        order
    }

    /// Bins that are laid out for the items are laid out for them in the
    /// order in which they are put in.
    pub proof fn lemma_laid_in_turn<T: BinKey<U>>(&self, items: Seq<T>)
        requires
            self.laid_for(items),
        ensures
            self.laid_for(turn(self.layout, items)),
            turn(self.layout, items).len() == items.len(),
            turn(self.layout, items).to_multiset() =~= items.to_multiset(),
            forall|b: int|
                held(self.layout, turn(self.layout, items), b, items.len() as int) == held(
                    self.layout,
                    items,
                    b,
                    items.len() as int,
                ),
    {
        let order = turn(self.layout, items);
        let n = items.len() as int;
        lemma_turn(self.layout, items, 0);
        assert forall|b: int| held(self.layout, order, b, n) == held(self.layout, items, b, n) by {
            lemma_turn(self.layout, items, b);
        }
        assert forall|i: int| 0 <= i < order.len() implies self.layout.min_key.number() <= (#[trigger] order[i]).key_of().number()
            <= self.layout.max_key.number() by {
            order.to_multiset_ensures();
            items.to_multiset_ensures();
            assert(order.contains(order[i]));
            assert(order.to_multiset().count(order[i]) > 0);
            assert(order.to_multiset() == items.to_multiset());
            assert(items.to_multiset().count(order[i]) > 0);
            assert(items.contains(order[i]));
            let j = choose|j: int| 0 <= j < items.len() && items[j] == order[i];
            assert(items[j] == order[i]);
        }
        assert forall|b: int| 0 <= b < self.bins@.len() implies (#[trigger] self.bins@[b]).offset == held_below(
            self.layout,
            order,
            b,
            order.len() as int,
        ) by {
            lemma_held_below_same(self.layout, order, items, b);
        }
    }
}

/// The bins follow one another from the start of an array of `n` items to
/// its end.
pub open spec fn tiled(bins: Seq<Bin>, n: nat) -> bool {
    &&& bins.len() > 0
    &&& bins[0].offset == 0
    &&& bins[bins.len() - 1].data == n
    &&& forall|b: int| 0 <= b < bins.len() ==> (#[trigger] bins[b]).offset <= bins[b].data
    &&& forall|b: int, c: int|
        0 <= b && c == b + 1 && c < bins.len() ==> (#[trigger] bins[b]).data == (#[trigger] bins[c]).offset
}

/// Of bins that follow one another a later one starts where an earlier one
/// ends, or behind, and all lie within the array.
pub proof fn lemma_tiled(bins: Seq<Bin>, n: nat, b: int, c: int)
    requires
        tiled(bins, n),
        0 <= b <= c < bins.len(),
    ensures
        0 <= bins[b].offset <= bins[b].data <= n,
        bins[b].offset <= bins[c].offset,
        bins[b].data <= bins[c].data,
        b < c ==> bins[b].data <= bins[c].offset,
    decreases c - b, bins.len() - c,
{
    if b < c {
        lemma_tiled(bins, n, b + 1, c);
        assert(bins[b].data == bins[b + 1].offset);
    } else if c < bins.len() - 1 {
        lemma_tiled(bins, n, c + 1, c + 1);
        assert(bins[c].data == bins[c + 1].offset);
    }
}

/// Of bins that follow one another one holds the place `i`; it is the
/// bin `c` or one before it if `i` lies before the end of the bin `c`.
pub proof fn lemma_cover(bins: Seq<Bin>, n: nat, i: int, c: int) -> (b: int)
    requires
        tiled(bins, n),
        0 <= c < bins.len(),
        0 <= i < bins[c].data,
    ensures
        0 <= b <= c,
        bins[b].offset <= i < bins[b].data,
    decreases c,
{
    if bins[c].offset <= i {
        c
    } else {
        assert(c > 0);
        assert(bins[c - 1].data == bins[c].offset);
        lemma_cover(bins, n, i, c - 1)
    }
}

/// Two arrays that agree from `lo` up to `hi` agree on every part of
/// that part.
pub proof fn lemma_part_kept<T>(before: Seq<T>, after: Seq<T>, lo: int, hi: int, x: int, y: int)
    requires
        before.len() == after.len(),
        0 <= lo <= x <= y <= hi <= before.len(),
        before.subrange(lo, hi) == after.subrange(lo, hi),
    ensures
        before.subrange(x, y) == after.subrange(x, y),
{
    assert forall|i: int| 0 <= i < y - x implies before.subrange(x, y)[i] == after.subrange(x, y)[i] by {
        assert(before.subrange(lo, hi)[x - lo + i] == before[x + i]);
        assert(after.subrange(lo, hi)[x - lo + i] == after[x + i]);
    }
    assert(before.subrange(x, y) =~= after.subrange(x, y));
}

/// The bins into which the items were dealt follow one another from the
/// start of the array to its end.
pub proof fn lemma_dealt_tiled<U: Copy + Ord + BinLayoutOp, T: BinKey<U>>(
    layout: BinLayout<U>,
    items: Seq<T>,
    array: Seq<T>,
    bins: Seq<Bin>,
)
    requires
        0 < items.len(),
        fits(layout, items),
        dealt(layout, items, array, bins),
    ensures
        tiled(bins, items.len()),
        binned(layout, bins, array),
{
    let n = items.len() as int;
    let count = bins.len() as int;
    assert forall|i: int| 0 <= i < items.len() implies 0 <= bin_of(layout, #[trigger] items[i]) < count by {
        lemma_bounds::<U, T>(items, n, i);
        layout.lemma_index(items[i].key_of());
    }
    crate::sort::layout::lemma_held_all(layout, items, count, n);
    assert forall|b: int| 0 <= b < bins.len() implies (#[trigger] bins[b]).offset <= bins[b].data by {
        crate::sort::layout::lemma_held_below(layout, items, b, b + 1, n);
    }
}

/// One bin for all of `n` items.
pub fn whole(n: usize) -> (bins: Vec<Bin>)
    requires
        n > 0,
    ensures
        bins@ =~= one_bin(n as nat),
{
    let mut bins: Vec<Bin> = Vec::with_capacity(1);
    bins.push(Bin { offset: 0, data: n });
    bins
}

/// Deals the items into the bins of the layout that is made for them, and
/// returns the bins: where each starts and where it ends. Where no bins are
/// made the items stay as they are, in one bin.
pub fn deal<U, T>(items: &mut Vec<T>) -> (bins: Vec<Bin>) where T: BinKey<U> + Clone, U: Copy + Ord + BinLayoutOp
    requires
        sortable::<U, T>(old(items)@),
    ensures
        final(items)@.to_multiset() =~= old(items)@.to_multiset(),
        !has_bins::<U, T>(old(items)@) ==> final(items)@ == old(items)@ && bins@ =~= one_bin(old(items)@.len()),
        has_bins::<U, T>(old(items)@) ==> exists|layout: BinLayout<U>|
            fits(layout, old(items)@) && #[trigger] dealt(layout, old(items)@, final(items)@, bins@),
{
    let ghost all = items@;
    let n = items.len();
    if n == 0 {
        return Vec::new();
    }
    let (min_key, max_key) = key_range::<U, T>(items);
    proof {
        lemma_bounds::<U, T>(all, all.len() as int, 0);
        let lo = choose|j: int|
            0 <= j < all.len() && (#[trigger] all[j]).key_of().number() == least::<U, T>(
                all,
                all.len() as int,
            );
        let hi = choose|j: int|
            0 <= j < all.len() && (#[trigger] all[j]).key_of().number() == greatest::<
                U,
                T,
            >(all, all.len() as int);
        assert(all[hi].key_of().number() - all[lo].key_of().number() <= usize::MAX);
    }
    let span = max_key.offset(min_key);
    if span == usize::MAX {
        // more keys than can be counted
        return whole(n);
    }
    let mut store = match BinStore::new(min_key, max_key, n) {
        Some(store) => store,
        None => {
            return whole(n);
        },
    };
    proof {
        assert forall|i: int| 0 <= i < all.len() implies store.layout.min_key.number() <= (#[trigger] all[i]).key_of().number()
            <= store.layout.max_key.number() by {
            lemma_bounds::<U, T>(all, all.len() as int, i);
        }
    }
    proof {
        BinStore::<U>::lemma_filled_none(store.bins@, store.bins@.len() as int);
    }
    store.layout_bins(items);
    let ghost laid = store;

    let blank = items.clone();
    let mut taken: Vec<T> = Vec::new();
    core::mem::swap(items, &mut taken);
    let order = store.in_turn(taken);
    proof {
        laid.lemma_laid_in_turn(all);
        laid.lemma_takes(order@);
    }
    let mut array = store.place_over(blank, order);
    proof {
        laid.lemma_laid_same(order@, array@);
        assert(cursors_of(laid.bins@) =~= starts(store.bins@));
        assert forall|b: int| 0 <= b < store.bins@.len() implies (#[trigger] store.bins@[b]).offset
            == held_below(store.layout, all, b, all.len() as int) && store.bins@[b].data
            == held_below(store.layout, all, b + 1, all.len() as int) by {
            laid.lemma_cursor(order@, order@.len() as int, b, b);
        }
        assert(fits(store.layout, all));
        assert(dealt(store.layout, all, array@, store.bins@));
    }
    core::mem::swap(items, &mut array);
    store.bins
}

} // verus!
