use itree::seg::bit::BitOp;
use itree::seg::exp::{SegExpCollection, SegRange};
use itree::seg::heap::{BitIter, Heap32};
use itree::seg::layout::Layout;
use itree::seg::tree::SegExpTree;
use itree::ExpiredVal;

fn bits(mask: u64) -> Vec<usize> {
    let mut iter = BitIter::new(mask);
    let mut indices = Vec::new();
    while let Some(index) = iter.next() {
        indices.push(index);
    }
    indices
}

#[derive(Clone, Copy)]
struct Point {
    x: i32,
    y: i32,
}

#[derive(Clone, Copy)]
struct Segment {
    a: Point,
    b: Point,
}

impl Segment {
    fn new(ax: i32, ay: i32, bx: i32, by: i32) -> Self {
        Self {
            a: Point { x: ax, y: ay },
            b: Point { x: bx, y: by },
        }
    }

    fn y_range(&self) -> SegRange<i32> {
        if self.a.y < self.b.y {
            SegRange {
                min: self.a.y,
                max: self.b.y,
            }
        } else {
            SegRange {
                min: self.b.y,
                max: self.a.y,
            }
        }
    }
}

impl ExpiredVal<i32> for Segment {
    fn expiration(&self) -> i32 {
        self.a.x.max(self.b.x)
    }
}

#[test]
fn bit_test_00() {
    assert_eq!(u64::fill(0, 2), 0b111);
    assert_eq!(u64::fill(1, 2), 0b110);
    assert_eq!(u64::fill(2, 2), 0b100);
}

#[test]
fn exp_test_00() {}

#[test]
fn heap_test_00() {
    let m = Heap32::range_to_place_mask(0, 31);
    let indices: Vec<_> = bits(m);
    assert_eq!(indices, vec![0]);
}

#[test]
fn heap_test_01() {
    let m = Heap32::range_to_place_mask(0, 30);
    let indices: Vec<_> = bits(m);
    assert_eq!(indices, vec![1, 5, 13, 29, 61]);
}

#[test]
fn heap_test_02() {
    let m = Heap32::range_to_place_mask(30, 31);
    let indices: Vec<_> = bits(m);
    assert_eq!(indices, vec![30]);
}

#[test]
fn heap_test_03() {
    let m = Heap32::range_to_place_mask(29, 31);
    let mut indices: Vec<_> = bits(m);
    indices.sort_unstable();
    assert_eq!(indices, vec![30, 60]);
}

#[test]
fn heap_test_04() {
    let m = Heap32::range_to_place_mask(15, 16);
    let mut indices: Vec<_> = bits(m);
    indices.sort_unstable();
    assert_eq!(indices, vec![46, 47]);
}

#[test]
fn heap_test_05() {
    let m = Heap32::range_to_place_mask(0, 12);
    let mut indices: Vec<_> = bits(m);
    indices.sort_unstable();
    assert_eq!(indices, vec![3, 9, 43]);
}

#[test]
fn heap_test_06() {
    let m = Heap32::range_to_intersect_mask(0, 0);
    let mut indices: Vec<_> = bits(m);
    indices.sort_unstable();
    assert_eq!(indices, vec![0, 1, 3, 7, 15, 31]);
}

#[test]
fn heap_test_07() {
    let m = Heap32::range_to_intersect_mask(1, 1);
    let mut indices: Vec<_> = bits(m);
    indices.sort_unstable();
    assert_eq!(indices, vec![0, 1, 3, 7, 15, 32]);
}

#[test]
fn heap_test_08() {
    let m = Heap32::range_to_intersect_mask(0, 1);
    let mut indices: Vec<_> = bits(m);
    indices.sort_unstable();
    assert_eq!(indices, vec![0, 1, 3, 7, 15, 31, 32]);
}

#[test]
fn heap_test_09() {
    let m = Heap32::range_to_intersect_mask(0, 31);
    let mut indices: Vec<_> = bits(m);
    indices.sort_unstable();
    let template: Vec<_> = (0..63).collect();
    assert_eq!(indices, template);
}

#[test]
fn layout_test_00() {
    let layout = Layout::new(0, 31).unwrap();
    for i in 0..31 {
        assert_eq!(layout.index(i), i as u32);
    }
}

#[test]
fn layout_test_01() {
    let layout = Layout::new(0, 63).unwrap();
    for i in 0..63 {
        assert_eq!(layout.index(i), (i / 2) as u32);
    }
}

#[test]
fn layout_test_02() {
    let layout = Layout::new(-63, 0).unwrap();
    for i in -63..0 {
        assert_eq!(layout.index(i), ((i + 63) / 2) as u32);
    }
}

#[test]
fn layout_test_03() {
    let layout = Layout::new(-10240, 15360).unwrap();
    let m0 = layout.insert_mask(-10240, 10240);
    let m1 = layout.intersect_mask(-10240, -10240);
    let inter = m0 & m1;

    assert_ne!(inter, 0);
}

#[test]
fn tree_test_00() {
    let mut tree = SegExpTree::new(SegRange { min: 0, max: 128 }).unwrap();
    let s = Segment::new(0, 2, 2, 100);
    tree.insert_by_range(s.y_range(), s);
    tree.clear();
    for chunk in tree.chunks {
        assert!(chunk.is_empty());
    }
}

#[test]
fn tree_test_01() {
    let mut tree = SegExpTree::new(SegRange { min: 0, max: 128 }).unwrap();
    let s = Segment::new(0, 2, 2, 100);
    tree.insert_by_range(s.y_range(), s);
    let mut result = Vec::new();
    let mut iter = tree.iter_by_range(SegRange { min: 0, max: 100 }, 0);
    while let Some(val) = iter.next() {
        result.push(val);
    }
    assert_eq!(result.len(), 1);
}

#[test]
fn tree_test_02() {
    let mut tree = SegExpTree::new(SegRange { min: 0, max: 128 }).unwrap();
    let s0 = Segment::new(0, 10, 2, 100);
    let s1 = Segment::new(0, 20, 2, 80);

    tree.insert_by_range(s0.y_range(), s0);
    tree.insert_by_range(s1.y_range(), s1);

    let mut result = Vec::new();
    let mut iter = tree.iter_by_range(SegRange { min: 15, max: 90 }, 0);
    while let Some(val) = iter.next() {
        result.push(val);
    }
    assert_eq!(result.len(), 2);
}

#[test]
fn tree_test_03() {
    let mut tree = SegExpTree::new(SegRange { min: 0, max: 128 }).unwrap();
    let s0 = Segment::new(0, 10, 2, 20);
    let s1 = Segment::new(0, 80, 2, 100);

    tree.insert_by_range(s0.y_range(), s0);
    tree.insert_by_range(s1.y_range(), s1);

    let mut result = Vec::new();
    let mut iter = tree.iter_by_range(SegRange { min: 40, max: 60 }, 0);
    while let Some(val) = iter.next() {
        result.push(val);
    }
    assert_eq!(result.len(), 0);
}

#[test]
fn tree_test_04() {
    let mut tree = SegExpTree::new(SegRange {
        min: -10240,
        max: 15360,
    })
    .unwrap();
    let s0 = Segment::new(0, -10240, 10, 10240);
    let s1 = Segment::new(0, -10240, 10240, -10240);

    let m0 = tree
        .layout
        .intersect_mask(s0.y_range().min.into(), s0.y_range().max.into());
    let m1 = tree
        .layout
        .intersect_mask(s1.y_range().min.into(), s1.y_range().max.into());

    assert_ne!(m0 & m1, 0);

    tree.insert_by_range(s0.y_range(), s0);

    let mut result = Vec::new();
    let mut iter = tree.iter_by_range(s1.y_range(), 0);
    while let Some(val) = iter.next() {
        result.push(val);
    }
    assert_eq!(result.len(), 1);
}
