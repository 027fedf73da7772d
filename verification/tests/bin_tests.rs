use itree::bin_key::index::{log2, BinLayout, BinLayoutOp};
use itree::sort::key_sort::KeyBinSort;
use itree::sort::layout::BinStore;
use itree::sort::min_max::min_max;
use rand::Rng;
use std::cmp::Ordering::Greater;

#[test]
fn test_0() {
    let array = vec![8, 3, 2, 6, 2, 1];
    let &min = array.iter().min().unwrap();
    let &max = array.iter().max().unwrap();
    let count = array.len();

    let mut store = BinStore::new(min, max, count).unwrap();
    store.layout_bins(&array);

    let bin_sorted = store.into_sorted_by_bins_vec(count, array, |a, b| a.cmp(b));

    assert_eq!(bin_sorted.len(), count);
    for w in bin_sorted.windows(2) {
        assert_ne!(w[0].cmp(&w[1]), Greater);
    }
}

#[test]
fn test_random_bin_sort() {
    const COUNT: usize = 1000;
    let mut rng = rand::rng();

    for _ in 0..100 {
        let array: Vec<i32> = (0..COUNT).map(|_| rng.random_range(0..100)).collect();

        let (min, max) = min_max(&array).unwrap();

        let mut store = if let Some(store) = BinStore::new(min, max, COUNT) {
            store
        } else {
            continue;
        };
        store.layout_bins(&array);

        let sorted = store.into_sorted_by_bins_vec(COUNT, array, |a, b| a.cmp(b));

        assert_eq!(sorted.len(), COUNT);

        for w in sorted.windows(2) {
            assert_ne!(w[0].cmp(&w[1]), Greater);
        }
    }
}

#[test]
fn bin_sort_keeps_every_item() {
    let array = vec![8, 3, 2, 6, 2, 1, 7, 7, 0, 5];
    let count = array.len();
    let mut expected = array.clone();
    expected.sort();

    let mut store = BinStore::new(0, 8, count).unwrap();
    store.layout_bins(&array);
    let sorted = store.into_sorted_by_bins_vec(count, array, |a, b| a.cmp(b));

    assert_eq!(sorted, expected);
}

#[test]
fn bin_layout_values() {
    // 101 keys, 1000 items: 101 bins at most, of one key each
    let layout = BinLayout::new(0..100, 1000).unwrap();
    assert_eq!(layout.power, 1);
    assert_eq!(layout.index(0), 0);
    assert_eq!(layout.index(1), 0);
    assert_eq!(layout.index(2), 1);
    assert_eq!(layout.index(100), 50);
    assert_eq!(layout.count(), 51);

    // 7 keys, 6 items: 3 bins at most, scale 2
    let layout = BinLayout::new(2..8, 6).unwrap();
    assert_eq!(layout.power, 2);
    assert_eq!(layout.index(2), 0);
    assert_eq!(layout.index(5), 0);
    assert_eq!(layout.index(6), 1);
    assert_eq!(layout.count(), 2);
}

#[test]
fn bin_layout_needs_two_bins() {
    assert!(BinLayout::new(0..100, 3).is_none());
    assert!(BinLayout::new(5..5, 1000).is_none());
    assert!(BinLayout::new(0..100, 4).is_some());
}

#[test]
fn offsets_and_digits() {
    assert_eq!(7i64.offset(-3), 10);
    assert_eq!((-3i32).offset(-3), 0);
    assert_eq!(i64::MAX.offset(i64::MIN), usize::MAX);
    assert_eq!(9usize.offset(4), 5);
    assert_eq!(log2(0), 0);
    assert_eq!(log2(1), 1);
    assert_eq!(log2(2), 2);
    assert_eq!(log2(3), 2);
    assert_eq!(log2(1024), 11);
}

#[test]
fn min_max_values() {
    assert_eq!(min_max::<i32>(&vec![]), None);
    assert_eq!(min_max(&vec![4]), Some((4, 4)));
    assert_eq!(min_max(&vec![4, -2, 9, 9, 0]), Some((-2, 9)));
}

#[test]
fn prepare_bins_values() {
    let mut store = BinStore::new(0, 7, 8).unwrap();
    // eight keys, four bins at most, scale 2: two bins of four keys each
    assert_eq!(store.bins.len(), 2);
    store.reserve_bins_space(&vec![0, 1, 7, 6, 6, 3, 5]);
    let counts: Vec<usize> = store.bins.iter().map(|b| b.data).collect();
    assert_eq!(counts, vec![3, 4]);
    let total = store.prepare_bins();
    assert_eq!(total, 7);
    let starts: Vec<usize> = store.bins.iter().map(|b| b.offset).collect();
    assert_eq!(starts, vec![0, 3]);
    let cursors: Vec<usize> = store.bins.iter().map(|b| b.data).collect();
    assert_eq!(cursors, starts);
}

#[test]
fn sort_by_bins_deals_in_turn() {
    // keys 1 to 8, 6 items: two bins of four keys each
    let mut array = vec![8, 3, 2, 6, 2, 1];
    let bins = array.sort_by_bins();

    // 3, 2, 2 and 1 stand behind the start of their bin and go in first;
    // 8 and 6 stand before the start of theirs and wait
    assert_eq!(array, vec![3, 2, 2, 1, 8, 6]);
    assert_eq!(bins.len(), 2);
    assert_eq!((bins[0].offset, bins[0].data), (0, 4));
    assert_eq!((bins[1].offset, bins[1].data), (4, 6));
}

#[test]
fn sort_by_bins_without_bins() {
    let mut none: Vec<i32> = Vec::new();
    assert!(none.sort_by_bins().is_empty());
    assert!(none.is_empty());

    // one key: at most one bin
    let mut same = vec![4, 4, 4, 4, 4];
    let bins = same.sort_by_bins();
    assert_eq!(same, vec![4, 4, 4, 4, 4]);
    assert_eq!(bins.len(), 1);
    assert_eq!((bins[0].offset, bins[0].data), (0, 5));

    // three items: half of them is one bin
    let mut few = vec![9, 1, 5];
    let bins = few.sort_by_bins();
    assert_eq!(few, vec![9, 1, 5]);
    assert_eq!(bins.len(), 1);
    assert_eq!((bins[0].offset, bins[0].data), (0, 3));
}

#[test]
fn sort_by_bins_tiles_the_array() {
    let mut rng = rand::rng();
    let array: Vec<i32> = (0..2000).map(|_| rng.random_range(-500..500)).collect();
    let mut dealt = array.clone();
    let bins = dealt.sort_by_bins();

    let mut expected = array.clone();
    expected.sort();
    let mut held = dealt.clone();
    held.sort();
    assert_eq!(held, expected);

    let mut end = 0;
    let mut last = i32::MIN;
    for bin in bins.iter() {
        assert_eq!(bin.offset, end);
        assert!(bin.offset <= bin.data);
        // every key of a bin is above every key of the bins before it
        let mut top = last;
        for &item in &dealt[bin.offset..bin.data] {
            assert!(item >= last);
            top = top.max(item);
        }
        last = top;
        end = bin.data;
    }
    assert_eq!(end, dealt.len());
}

#[test]
fn sort_with_bins_sorts() {
    let mut rng = rand::rng();
    for count in [0usize, 1, 2, 255, 256, 257, 1000, 5000] {
        let array: Vec<i32> = (0..count).map(|_| rng.random_range(-1000..1000)).collect();
        let mut expected = array.clone();
        expected.sort();

        let mut stable = array.clone();
        stable.sort_with_bins(|a, b| a.cmp(b));
        assert_eq!(stable, expected);

        let mut unstable = array.clone();
        unstable.sort_unstable_with_bins(|a, b| a.cmp(b));
        assert_eq!(unstable, expected);
    }
}

#[test]
fn sort_with_bins_goes_by_bins_first() {
    // more than 256 items, sorted downwards within each bin: the bins stay
    // in the order of the keys
    let array: Vec<i32> = (0..1024).map(|i| (i * 37) % 1024).collect();
    let mut sorted = array.clone();
    sorted.sort_with_bins(|a, b| b.cmp(a));

    let mut dealt = array.clone();
    let bins = dealt.sort_by_bins();
    assert!(bins.len() > 1);
    for bin in bins.iter() {
        let mut part = dealt[bin.offset..bin.data].to_vec();
        part.sort_by(|a, b| b.cmp(a));
        assert_eq!(&sorted[bin.offset..bin.data], &part[..]);
    }
}

#[test]
fn layout_bins_adds_to_what_the_bins_hold() {
    let array = vec![8, 3, 2, 6, 2, 1];
    let mut store = BinStore::new(1, 8, array.len()).unwrap();
    assert_eq!(store.bins.len(), 2);
    store.bins[0].data = 2;
    store.bins[1].data = 1;
    store.layout_bins(&array);

    // four items and two places, then two items and one place
    assert_eq!((store.bins[0].offset, store.bins[0].data), (0, 0));
    assert_eq!((store.bins[1].offset, store.bins[1].data), (6, 6));
}
