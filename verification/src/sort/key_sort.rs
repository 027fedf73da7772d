use vstd::prelude::*;
use core::cmp::Ordering;
use crate::bin_key::index::{BinKey, BinLayout, BinLayoutOp};
use crate::sort::deal::{binned, deal, dealt, fits, has_bins, one_bin, sortable, tiled};
use crate::sort::layout::bin_of;

verus! {

/// One bin: where its items start in the sorted array, and a cursor that
/// runs from there to their end.
#[derive(Debug, Clone)]
pub struct Bin {
    pub offset: usize,
    pub data: usize,
}

/// The items of `s` from `start` up to `end`.
pub open spec fn window<T>(s: Seq<T>, start: usize, end: usize) -> Seq<T> {
    s.subrange(start as int, end as int)
}

/// `compare` is a total order: it answers every pair, always the same way,
/// the answers for a pair and for the pair turned round fit together, and
/// what is not after carries over from pair to pair.
pub open spec fn is_total<T, F: Fn(&T, &T) -> Ordering>(compare: F) -> bool {
    &&& forall|a: T, b: T| #[trigger] compare.requires((&a, &b))
    &&& forall|a: T, b: T, x: Ordering, y: Ordering|
        #[trigger] compare.ensures((&a, &b), x) && #[trigger] compare.ensures((&a, &b), y) ==> x == y
    &&& forall|a: T, b: T, x: Ordering, y: Ordering|
        #[trigger] compare.ensures((&a, &b), x) && #[trigger] compare.ensures((&b, &a), y) ==> (x
            == Ordering::Less <==> y == Ordering::Greater) && (x == Ordering::Equal <==> y == Ordering::Equal)
    &&& forall|a: T, b: T, c: T, x: Ordering, y: Ordering, z: Ordering|
        #[trigger] compare.ensures((&a, &b), x) && #[trigger] compare.ensures((&b, &c), y)
            && #[trigger] compare.ensures((&a, &c), z) && x != Ordering::Greater && y != Ordering::Greater ==> z
            != Ordering::Greater && (z == Ordering::Equal ==> x == Ordering::Equal && y == Ordering::Equal)
}

/// No item of `s` stands before an item that `compare` puts before it.
pub open spec fn in_order<T, F: Fn(&T, &T) -> Ordering>(s: Seq<T>, compare: F) -> bool {
    forall|i: int, j: int, o: Ordering|
        0 <= i < j < s.len() && #[trigger] compare.ensures((&s[i], &s[j]), o) ==> o != Ordering::Greater
}

/// Sorts the items of `items` from `start` up to `end` by `compare`. This
/// is `sort_unstable_by` of the standard library on that part of the array:
/// it is taken on trust that it leaves the same items there, in the order of
/// `compare`, and nothing else changed.
#[verifier::external_body]
pub(crate) fn sort_window_unstable_by<T, F>(items: &mut Vec<T>, start: usize, end: usize, compare: &F) where
    F: Fn(&T, &T) -> Ordering,

    requires
        start <= end <= old(items)@.len(),
        is_total::<T, F>(*compare),
    ensures
        final(items)@.len() == old(items)@.len(),
        window(final(items)@, start, end).to_multiset() == window(old(items)@, start, end).to_multiset(),
        in_order(window(final(items)@, start, end), *compare),
        window(final(items)@, 0, start) == window(old(items)@, 0, start),
        window(final(items)@, end, old(items).len()) == window(old(items)@, end, old(items).len()),
{
    items[start..end].sort_unstable_by(compare)
}

/// Sorts the items of `items` from `start` up to `end` by `compare`. This
/// is `sort_by` of the standard library on that part of the array: it is
/// taken on trust that it leaves the same items there, in the order of
/// `compare`, and nothing else changed. That it keeps items that compare
/// equal in the order in which they came is not stated: nothing here rests
/// on it.
#[verifier::external_body]
pub(crate) fn sort_window_by<T, F>(items: &mut Vec<T>, start: usize, end: usize, compare: &F) where
    F: Fn(&T, &T) -> Ordering,

    requires
        start <= end <= old(items)@.len(),
        is_total::<T, F>(*compare),
    ensures
        final(items)@.len() == old(items)@.len(),
        window(final(items)@, start, end).to_multiset() == window(old(items)@, start, end).to_multiset(),
        in_order(window(final(items)@, start, end), *compare),
        window(final(items)@, 0, start) == window(old(items)@, 0, start),
        window(final(items)@, end, old(items).len()) == window(old(items)@, end, old(items).len()),
{
    items[start..end].sort_by(compare)
}

/// The items stand bin by bin, and those of one bin in the order of
/// `compare`.
pub open spec fn in_bin_order<U: Copy + Ord + BinLayoutOp, T: BinKey<U>, F: Fn(&T, &T) -> Ordering>(
    layout: BinLayout<U>,
    s: Seq<T>,
    compare: F,
) -> bool {
    forall|i: int, j: int|
        0 <= i < j < s.len() ==> {
            ||| bin_of(layout, #[trigger] s[i]) < bin_of(layout, #[trigger] s[j])
            ||| (bin_of(layout, s[i]) == bin_of(layout, s[j]) && forall|o: Ordering|
                compare.ensures((&s[i], &s[j]), o) ==> o != Ordering::Greater)
        }
}

/// The most items that are sorted without bins.
pub const FEW: usize = 256;

/// A row of items that is sorted by first dealing the items into bins by
/// their keys.
pub trait KeyBinSort<U: Copy + Ord + BinLayoutOp> {
    type Item: BinKey<U>;

    /// The items in their order.
    spec fn items(&self) -> Seq<Self::Item>;

    /// Deals the items into the bins of the layout that is made for them,
    /// and returns the bins: where each starts and where it ends. Where no
    /// bins are made the items stay as they are, in one bin.
    fn sort_by_bins(&mut self) -> (bins: Vec<Bin>)
        requires
            sortable::<U, Self::Item>(old(self).items()),
        ensures
            final(self).items().to_multiset() =~= old(self).items().to_multiset(),
            !has_bins::<U, Self::Item>(old(self).items()) ==> final(self).items() == old(self).items() && bins@
                =~= one_bin(old(self).items().len()),
            has_bins::<U, Self::Item>(old(self).items()) ==> exists|layout: BinLayout<U>|
                fits(layout, old(self).items()) && #[trigger] dealt(
                    layout,
                    old(self).items(),
                    final(self).items(),
                    bins@,
                ),
    ;

    /// Sorts the items by `compare`: up to `FEW` items, and items for which
    /// no bins are made, as they are; others bin by bin, after they were
    /// dealt into their bins.
    fn sort_with_bins<F>(&mut self, compare: F) where F: Fn(&Self::Item, &Self::Item) -> Ordering
        requires
            sortable::<U, Self::Item>(old(self).items()),
            is_total::<Self::Item, F>(compare),
        ensures
            final(self).items().to_multiset() =~= old(self).items().to_multiset(),
            old(self).items().len() <= FEW || !has_bins::<U, Self::Item>(old(self).items()) ==> in_order(
                final(self).items(),
                compare,
            ),
            old(self).items().len() > FEW && has_bins::<U, Self::Item>(old(self).items()) ==> exists|
                layout: BinLayout<U>,
            |
                fits(layout, old(self).items()) && #[trigger] in_bin_order(layout, final(self).items(), compare),
    ;

    /// As `sort_with_bins`, by a sort that need not keep items that compare
    /// equal in their order.
    fn sort_unstable_with_bins<F>(&mut self, compare: F) where F: Fn(&Self::Item, &Self::Item) -> Ordering
        requires
            sortable::<U, Self::Item>(old(self).items()),
            is_total::<Self::Item, F>(compare),
        ensures
            final(self).items().to_multiset() =~= old(self).items().to_multiset(),
            old(self).items().len() <= FEW || !has_bins::<U, Self::Item>(old(self).items()) ==> in_order(
                final(self).items(),
                compare,
            ),
            old(self).items().len() > FEW && has_bins::<U, Self::Item>(old(self).items()) ==> exists|
                layout: BinLayout<U>,
            |
                fits(layout, old(self).items()) && #[trigger] in_bin_order(layout, final(self).items(), compare),
    ;
}

/// Each bin holds what it held, and holds it in the order of `compare`.
pub open spec fn bins_sorted<T, F: Fn(&T, &T) -> Ordering>(
    bins: Seq<Bin>,
    before: Seq<T>,
    after: Seq<T>,
    compare: F,
    upto: int,
) -> bool {
    &&& after.len() == before.len()
    &&& forall|b: int|
        0 <= b < bins.len() ==> window(after, (#[trigger] bins[b]).offset, bins[b].data).to_multiset() == window(
            before,
            bins[b].offset,
            bins[b].data,
        ).to_multiset()
    &&& forall|b: int|
        0 <= b < upto && b < bins.len() ==> in_order(
            window(after, (#[trigger] bins[b]).offset, bins[b].data),
            compare,
        )
    &&& forall|b: int|
        upto <= b < bins.len() ==> window(after, (#[trigger] bins[b]).offset, bins[b].data) == window(
            before,
            bins[b].offset,
            bins[b].data,
        )
}

/// Sorts the items of each bin by `compare`, by a sort that keeps items
/// that compare equal in their order if `stable` is set.
pub fn sort_each<T, F>(items: &mut Vec<T>, bins: &Vec<Bin>, compare: &F, stable: bool) where
    F: Fn(&T, &T) -> Ordering,

    requires
        tiled(bins@, old(items)@.len()),
        is_total::<T, F>(*compare),
    ensures
        final(items)@.to_multiset() == old(items)@.to_multiset(),
        bins_sorted(bins@, old(items)@, final(items)@, *compare, crate::sorted::count(bins@.len())),
{
    let n = items.len();
    let count = bins.len();
    let ghost first = items@;
    let mut b: usize = 0;
    while b < count
        invariant
            b <= count,
            count == bins@.len(),
            n == first.len(),
            items@.len() == n,
            tiled(bins@, first.len()),
            is_total::<T, F>(*compare),
            items@.to_multiset() == first.to_multiset(),
            bins_sorted(bins@, first, items@, *compare, crate::sorted::at(b)),
        decreases count - b,
    {
        let start = bins[b].offset;
        let end = bins[b].data;
        let ghost before = items@;
        proof {
            crate::sort::deal::lemma_tiled(bins@, first.len(), crate::sorted::at(b), crate::sorted::at(b));
        }
        if start < end {
            if stable {
                sort_window_by(items, start, end, compare);
            } else {
                sort_window_unstable_by(items, start, end, compare);
            }
            proof {
                crate::sort::layout::lemma_window_sorted(before, items@, start, end, n);
            }
        }
        proof {
            lemma_bin_done(bins@, first, before, items@, *compare, b, n);
        }
        b += 1;
    }
}

/// Sorting the bin `b` leaves the other bins as they are.
pub proof fn lemma_bin_done<T, F: Fn(&T, &T) -> Ordering>(
    bins: Seq<Bin>,
    first: Seq<T>,
    before: Seq<T>,
    after: Seq<T>,
    compare: F,
    b: usize,
    n: usize,
)
    requires
        b < bins.len(),
        tiled(bins, first.len()),
        n == first.len(),
        bins_sorted(bins, first, before, compare, crate::sorted::at(b)),
        after.len() == before.len(),
        window(after, crate::sorted::nth(bins, b).offset, crate::sorted::nth(bins, b).data).to_multiset() == window(
            before,
            crate::sorted::nth(bins, b).offset,
            crate::sorted::nth(bins, b).data,
        ).to_multiset(),
        in_order(window(after, crate::sorted::nth(bins, b).offset, crate::sorted::nth(bins, b).data), compare),
        window(after, 0, crate::sorted::nth(bins, b).offset) == window(
            before,
            0,
            crate::sorted::nth(bins, b).offset,
        ),
        window(after, crate::sorted::nth(bins, b).data, n) == window(before, crate::sorted::nth(bins, b).data, n),
    ensures
        bins_sorted(bins, first, after, compare, crate::sorted::at(b) + 1),
{
    let at = crate::sorted::at(b);
    let len = crate::sorted::at(n);
    let start = bins[at].offset;
    let end = bins[at].data;
    crate::sort::deal::lemma_tiled(bins, first.len(), at, at);
    assert(before.len() == first.len());
    assert forall|c: int| 0 <= c < bins.len() && c != at implies window(
        after,
        (#[trigger] bins[c]).offset,
        bins[c].data,
    ) == window(before, bins[c].offset, bins[c].data) by {
        if c < at {
            crate::sort::deal::lemma_tiled(bins, first.len(), c, at);
            crate::sort::deal::lemma_part_kept(
                before,
                after,
                0,
                crate::sorted::at(start),
                crate::sorted::at(bins[c].offset),
                crate::sorted::at(bins[c].data),
            );
        } else {
            crate::sort::deal::lemma_tiled(bins, first.len(), at, c);
            crate::sort::deal::lemma_tiled(bins, first.len(), c, c);
            crate::sort::deal::lemma_part_kept(
                before,
                after,
                crate::sorted::at(end),
                len,
                crate::sorted::at(bins[c].offset),
                crate::sorted::at(bins[c].data),
            );
        }
    }
}


impl<T, U> KeyBinSort<U> for Vec<T> where T: BinKey<U> + Clone, U: Copy + Ord + BinLayoutOp {
    type Item = T;

    open spec fn items(&self) -> Seq<T> {
        self@
    }

    fn sort_by_bins(&mut self) -> (bins: Vec<Bin>) {
        deal::<U, T>(self)
    }

    fn sort_with_bins<F>(&mut self, compare: F) where F: Fn(&T, &T) -> Ordering {
        let ghost before = self@;
        sort_binwise::<U, T, F>(self, &compare, true);
        proof {
            if before.len() > FEW && has_bins::<U, T>(before) {
                let layout = choose|layout: BinLayout<U>|
                    fits(layout, before) && #[trigger] in_bin_order(layout, self@, compare);
                assert(in_bin_order(layout, self.items(), compare));
            }
        }
    }

    fn sort_unstable_with_bins<F>(&mut self, compare: F) where F: Fn(&T, &T) -> Ordering {
        let ghost before = self@;
        sort_binwise::<U, T, F>(self, &compare, false);
        proof {
            if before.len() > FEW && has_bins::<U, T>(before) {
                let layout = choose|layout: BinLayout<U>|
                    fits(layout, before) && #[trigger] in_bin_order(layout, self@, compare);
                assert(in_bin_order(layout, self.items(), compare));
            }
        }
    }
}

/// Items that stand bin by bin, each bin in the order of `compare`, stand
/// in the order of the bins and of `compare`.
pub proof fn lemma_bin_order<U: Copy + Ord + BinLayoutOp, T: BinKey<U>, F: Fn(&T, &T) -> Ordering>(
    layout: BinLayout<U>,
    bins: Seq<Bin>,
    before: Seq<T>,
    after: Seq<T>,
    compare: F,
)
    requires
        tiled(bins, before.len()),
        binned(layout, bins, before),
        bins_sorted(bins, before, after, compare, crate::sorted::count(bins.len())),
    ensures
        in_bin_order(layout, after, compare),
{
    let n = before.len();
    let last = bins.len() - 1;
    assert forall|i: int, j: int| 0 <= i < j < after.len() implies {
        ||| bin_of(layout, #[trigger] after[i]) < bin_of(layout, #[trigger] after[j])
        ||| (bin_of(layout, after[i]) == bin_of(layout, after[j]) && forall|o: Ordering|
            compare.ensures((&after[i], &after[j]), o) ==> o != Ordering::Greater)
    } by {
        assert(after.len() == before.len());
        let bi = crate::sort::deal::lemma_cover(bins, n, i, last);
        let bj = crate::sort::deal::lemma_cover(bins, n, j, last);
        crate::sort::deal::lemma_tiled(bins, n, bi, bi);
        crate::sort::deal::lemma_tiled(bins, n, bj, bj);
        lemma_in_bin(layout, bins, before, after, compare, bi, i);
        lemma_in_bin(layout, bins, before, after, compare, bj, j);
        if bi == bj {
            let w = window(after, bins[bi].offset, bins[bi].data);
            assert(w[i - bins[bi].offset] == after[i]);
            assert(w[j - bins[bi].offset] == after[j]);
        } else if bj < bi {
            crate::sort::deal::lemma_tiled(bins, n, bj, bi);
        }
    }
}

/// An item that stands in a bin after the bins were sorted is an item of
/// that bin.
pub proof fn lemma_in_bin<U: Copy + Ord + BinLayoutOp, T: BinKey<U>, F: Fn(&T, &T) -> Ordering>(
    layout: BinLayout<U>,
    bins: Seq<Bin>,
    before: Seq<T>,
    after: Seq<T>,
    compare: F,
    b: int,
    i: int,
)
    requires
        tiled(bins, before.len()),
        binned(layout, bins, before),
        bins_sorted(bins, before, after, compare, crate::sorted::count(bins.len())),
        0 <= b < bins.len(),
        bins[b].offset <= i < bins[b].data,
    ensures
        bin_of(layout, after[i]) == b,
{
    crate::sort::deal::lemma_tiled(bins, before.len(), b, b);
    assert(after.len() == before.len());
    let new = window(after, bins[b].offset, bins[b].data);
    let old = window(before, bins[b].offset, bins[b].data);
    let x = after[i];
    assert(new[i - bins[b].offset] == x);
    new.to_multiset_ensures();
    old.to_multiset_ensures();
    assert(new.contains(x));
    assert(new.to_multiset().count(x) > 0);
    assert(old.to_multiset().count(x) > 0);
    assert(old.contains(x));
    let k = choose|k: int| 0 <= k < old.len() && old[k] == x;
    assert(before[bins[b].offset + k] == x);
}

/// Sorts the items by `compare`: up to `FEW` items, and items for which no
/// bins are made, as they are; others bin by bin, after they were dealt
/// into their bins. If `stable` is set, items that compare equal are kept
/// in their order by each sort that is made.
pub fn sort_binwise<U, T, F>(items: &mut Vec<T>, compare: &F, stable: bool) where
    T: BinKey<U> + Clone,
    U: Copy + Ord + BinLayoutOp,
    F: Fn(&T, &T) -> Ordering,

    requires
        sortable::<U, T>(old(items)@),
        is_total::<T, F>(*compare),
    ensures
        final(items)@.to_multiset() =~= old(items)@.to_multiset(),
        old(items)@.len() <= FEW || !has_bins::<U, T>(old(items)@) ==> in_order(final(items)@, *compare),
        old(items)@.len() > FEW && has_bins::<U, T>(old(items)@) ==> exists|layout: BinLayout<U>|
            fits(layout, old(items)@) && #[trigger] in_bin_order(layout, final(items)@, *compare),
{
    let ghost first = items@;
    let n = items.len();
    if n <= FEW {
        if stable {
            sort_window_by(items, 0, n, compare);
        } else {
            sort_window_unstable_by(items, 0, n, compare);
        }
        proof {
            assert(window(items@, 0, n) =~= items@);
            assert(window(first, 0, n) =~= first);
        }
        return;
    }
    let bins = deal::<U, T>(items);
    let ghost laid = items@;
    proof {
        if has_bins::<U, T>(first) {
            let layout = choose|layout: BinLayout<U>| fits(layout, first) && #[trigger] dealt(layout, first, laid, bins@);
            crate::sort::deal::lemma_dealt_tiled(layout, first, laid, bins@);
        } else {
            assert(crate::sorted::nth(bins@, 0).offset == 0 && crate::sorted::nth(bins@, 0).data == n);
        }
        assert(tiled(bins@, laid.len()));
    }
    sort_each(items, &bins, compare, stable);
    proof {
        if has_bins::<U, T>(first) {
            let layout = choose|layout: BinLayout<U>| fits(layout, first) && #[trigger] dealt(layout, first, laid, bins@);
            crate::sort::deal::lemma_dealt_tiled(layout, first, laid, bins@);
            lemma_bin_order(layout, bins@, laid, items@, *compare);
        } else {
            assert(crate::sorted::nth(bins@, 0).offset == 0 && crate::sorted::nth(bins@, 0).data == n);
            assert(window(items@, 0, n) =~= items@);
        }
    }
}

} // verus!
