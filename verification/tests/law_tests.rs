use itree::key::array::IntoArray;
use itree::key::exp::KeyExpCollection;
use itree::key::list::KeyExpList;
use itree::key::tree::KeyExpTree;
use itree::map::list::MapList;
use itree::map::sort::MapCollection;
use itree::map::tree::MapTree;
use itree::rb::node::Color;
use itree::rb::shape::RbTree;
use itree::seg::exp::{SegExpCollection, SegRange};
use itree::seg::layout::Layout;
use itree::seg::tree::SegExpTree;
use itree::set::list::SetList;
use itree::set::sort::SetCollection;
use itree::{ExpiredKey, ExpiredVal, EMPTY_REF};
use std::cmp::Ordering;

#[derive(Debug, Clone, Copy)]
struct Key {
    key: i32,
    exp: i32,
}

impl Key {
    fn new(key: i32, exp: i32) -> Self {
        Self { key, exp }
    }
}

impl Ord for Key {
    fn cmp(&self, other: &Self) -> Ordering {
        self.key.cmp(&other.key)
    }
}

impl Eq for Key {}

impl PartialEq<Self> for Key {
    fn eq(&self, other: &Self) -> bool {
        self.key.eq(&other.key)
    }
}

impl PartialOrd<Self> for Key {
    fn partial_cmp(&self, other: &Self) -> Option<Ordering> {
        self.key.partial_cmp(&other.key)
    }
}

impl ExpiredKey<i32> for Key {
    fn expiration(&self) -> i32 {
        self.exp
    }
}

#[derive(Debug, Clone, Copy, PartialEq)]
struct Span {
    id: u32,
    min: i32,
    max: i32,
    exp: i32,
}

impl ExpiredVal<i32> for Span {
    fn expiration(&self) -> i32 {
        self.exp
    }
}

struct Lcg(u64);

impl Lcg {
    fn next(&mut self, bound: u32) -> u32 {
        self.0 = self
            .0
            .wrapping_mul(6364136223846793005)
            .wrapping_add(1442695040888963407);
        ((self.0 >> 33) as u32) % bound
    }
}

/// Walks the subtree of `index`, checks the links and the two colour rules,
/// collects the keys in order and returns the black height.
fn check_subtree<V>(tree: &RbTree<i32, V>, index: u32, parent: u32, keys: &mut Vec<i32>) -> usize {
    if index == EMPTY_REF {
        return 0;
    }
    let node = &tree.store.buffer[index as usize];
    assert_ne!(index, 0, "the reserved slot is linked into the tree");
    assert_eq!(node.parent, parent, "a parent link does not lead back");
    if node.color == Color::Red {
        for child in [node.left, node.right] {
            if child != EMPTY_REF {
                assert!(
                    tree.store.buffer[child as usize].color == Color::Black,
                    "a red node has a red child"
                );
            }
        }
    }
    let left = check_subtree(tree, node.left, index, keys);
    keys.push(node.entity.as_ref().unwrap().key);
    let right = check_subtree(tree, node.right, index, keys);
    assert_eq!(left, right, "two paths differ in their black nodes");
    left + if node.color == Color::Black { 1 } else { 0 }
}

fn check_red_black<V>(tree: &RbTree<i32, V>) -> Vec<i32> {
    let mut keys = Vec::new();
    if tree.root != EMPTY_REF {
        assert!(
            tree.store.buffer[tree.root as usize].color == Color::Black,
            "the root is red"
        );
    }
    check_subtree(tree, tree.root, EMPTY_REF, &mut keys);
    for pair in keys.windows(2) {
        assert!(pair[0] <= pair[1], "the keys are out of order");
    }
    // every slot but the reserved one is a node or free
    assert_eq!(keys.len() + tree.store.unused.len() + 1, tree.store.buffer.len());
    keys
}

#[test]
fn red_black_rules_hold_after_every_step() {
    let mut rng = Lcg(7);
    let mut tree: MapTree<i32, i32> = MapTree::new(4);
    let mut model: Vec<i32> = Vec::new();
    for step in 0..4000 {
        let key = rng.next(200) as i32;
        if rng.next(3) != 0 {
            tree.insert(key, step);
            let at = model.partition_point(|&k| k <= key);
            model.insert(at, key);
        } else {
            tree.delete(key);
            if let Ok(at) = model.binary_search(&key) {
                model.remove(at);
            }
        }
        assert_eq!(check_red_black(&tree.tree), model);
    }
    tree.clear();
    assert!(check_red_black(&tree.tree).is_empty());
    assert!(tree.is_empty());
}

#[test]
fn red_black_rules_hold_with_expiration() {
    let mut rng = Lcg(11);
    let mut tree: KeyExpTree<Key, i32, i32> = KeyExpTree::new(8);
    for time in 0..3000 {
        let key = rng.next(120) as i32;
        let exp = time + 1 + rng.next(40) as i32;
        match rng.next(3) {
            0 => tree.insert(Key::new(key, exp), key, time),
            1 => {
                tree.get_value(time, Key::new(key, 0));
            }
            _ => {
                tree.first_less(time, -1, Key::new(key, 0));
            }
        }
        let mut keys = Vec::new();
        if tree.tree.root != EMPTY_REF {
            assert!(tree.tree.store.buffer[tree.tree.root as usize].color == Color::Black);
        }
        check_keyed(&tree.tree, tree.tree.root, EMPTY_REF, &mut keys);
        for pair in keys.windows(2) {
            assert!(pair[0] <= pair[1]);
        }
    }
}

fn check_keyed(tree: &RbTree<Key, i32>, index: u32, parent: u32, keys: &mut Vec<i32>) -> usize {
    if index == EMPTY_REF {
        return 0;
    }
    let node = &tree.store.buffer[index as usize];
    assert_eq!(node.parent, parent);
    if node.color == Color::Red {
        for child in [node.left, node.right] {
            if child != EMPTY_REF {
                assert!(tree.store.buffer[child as usize].color == Color::Black);
            }
        }
    }
    let left = check_keyed(tree, node.left, index, keys);
    keys.push(node.entity.as_ref().unwrap().key.key);
    let right = check_keyed(tree, node.right, index, keys);
    assert_eq!(left, right);
    left + if node.color == Color::Black { 1 } else { 0 }
}

#[test]
fn tree_and_list_agree_step_by_step() {
    let mut rng = Lcg(3);
    let mut tree: MapTree<i32, i32> = MapTree::new(2);
    let mut list: MapList<i32, i32> = MapList::new(2);
    let mut present = vec![false; 64];
    for step in 0..3000 {
        let key = rng.next(64) as i32;
        match rng.next(4) {
            0 | 1 => {
                if !present[key as usize] {
                    tree.insert(key, step);
                    list.insert(key, step);
                    present[key as usize] = true;
                }
            }
            2 => {
                tree.delete(key);
                list.delete(key);
                present[key as usize] = false;
            }
            _ => {}
        }
        assert_eq!(tree.is_empty(), list.is_empty());
        for probe in 0..64 {
            assert_eq!(tree.get_value(probe), list.get_value(probe));
            let t = tree.first_index_less(probe);
            let l = list.first_index_less(probe);
            assert_eq!(t == EMPTY_REF, l == EMPTY_REF);
            if t != EMPTY_REF {
                assert_eq!(tree.value_by_index(t), list.value_by_index(l));
            }
            let t = tree.first_index_less_by(|k| k.cmp(&probe));
            let l = list.first_index_less_by(|k| k.cmp(&probe));
            assert_eq!(t == EMPTY_REF, l == EMPTY_REF);
            if t != EMPTY_REF {
                assert_eq!(tree.value_by_index(t), list.value_by_index(l));
            }
        }
    }
}

#[test]
fn expiring_tree_and_list_agree_on_every_query() {
    let mut rng = Lcg(5);
    let mut tree: KeyExpTree<Key, i32, i32> = KeyExpTree::new(8);
    let mut list: KeyExpList<Key, i32, i32> = KeyExpList::new(8);
    let mut until = vec![0; 50];
    for time in 0..4000 {
        let key = rng.next(50) as i32;
        let probe = Key::new(key, 0);
        assert_eq!(tree.get_value(time, probe), list.get_value(time, probe));
        assert_eq!(tree.first_less(time, -1, probe), list.first_less(time, -1, probe));
        assert_eq!(
            tree.first_less_or_equal(time, -1, probe),
            list.first_less_or_equal(time, -1, probe)
        );
        assert_eq!(
            tree.first_less_by(time, -1, |k| k.key.cmp(&key)),
            list.first_less_by(time, -1, |k| k.key.cmp(&key))
        );
        assert_eq!(
            tree.first_less_or_equal_by(time, -1, |k| k.key.cmp(&key)),
            list.first_less_or_equal_by(time, -1, |k| k.key.cmp(&key))
        );
        if until[key as usize] <= time {
            let exp = time + 1 + rng.next(60) as i32;
            tree.insert(Key::new(key, exp), key, time);
            list.insert(Key::new(key, exp), key, time);
            until[key as usize] = exp;
        }
    }
}

#[test]
fn a_key_is_found_until_it_expires() {
    let mut tree: KeyExpTree<Key, i32, i32> = KeyExpTree::new(8);
    tree.insert(Key::new(50, 20), 500, 0);
    for time in 0..20 {
        // unrelated keys come and go
        tree.insert(Key::new(time, time + 2), time, time);
        tree.insert(Key::new(100 + time, time + 1), time, time);
        tree.first_less(time, -1, Key::new(30, 0));
        assert_eq!(tree.get_value(time, Key::new(50, 0)), Some(500));
        assert_eq!(tree.first_less_or_equal(time, -1, Key::new(50, 0)), 500);
    }
    // at its expiration the key is gone
    assert_eq!(tree.get_value(20, Key::new(50, 0)), None);
    assert_eq!(tree.get_value(19, Key::new(50, 0)), None);
}

#[test]
fn no_query_returns_an_expired_value() {
    let mut tree: KeyExpTree<Key, i32, i32> = KeyExpTree::new(8);
    for key in 0..40 {
        tree.insert(Key::new(key, 1 + key % 7), key, 0);
    }
    for time in 0..8 {
        for probe in 0..40 {
            if let Some(found) = tree.get_value(time, Key::new(probe, 0)) {
                assert!(1 + found % 7 > time);
            }
            let below = tree.first_less(time, -1, Key::new(probe, 0));
            if below != -1 {
                assert!(below < probe);
                assert!(1 + below % 7 > time);
            }
            let floor = tree.first_less_or_equal(time, -1, Key::new(probe, 0));
            if floor != -1 {
                assert!(floor <= probe);
                assert!(1 + floor % 7 > time);
            }
        }
    }
}

#[test]
fn get_value_finds_every_key() {
    let mut tree: KeyExpTree<Key, i32, i32> = KeyExpTree::new(8);
    for key in [8, 3, 12, 1, 5, 10, 14, 0, 2, 4, 6, 9, 11, 13, 15, 7] {
        tree.insert(Key::new(key, 100), 10 * key, 0);
    }
    for key in 0..16 {
        assert_eq!(tree.get_value(1, Key::new(key, 0)), Some(10 * key));
    }
    assert_eq!(tree.get_value(1, Key::new(16, 0)), None);
    assert_eq!(tree.get_value(1, Key::new(-1, 0)), None);
}

#[test]
fn floor_queries_give_exact_values() {
    let mut tree: KeyExpTree<Key, i32, i32> = KeyExpTree::new(8);
    let mut list: KeyExpList<Key, i32, i32> = KeyExpList::new(8);
    for key in [10, 20, 30] {
        tree.insert(Key::new(key, 100), key, 0);
        list.insert(Key::new(key, 100), key, 0);
    }
    for (probe, below, floor) in [(5, -1, -1), (10, -1, 10), (15, 10, 10), (20, 10, 20), (35, 30, 30)] {
        assert_eq!(tree.first_less(0, -1, Key::new(probe, 0)), below);
        assert_eq!(list.first_less(0, -1, Key::new(probe, 0)), below);
        assert_eq!(tree.first_less_or_equal(0, -1, Key::new(probe, 0)), floor);
        assert_eq!(list.first_less_or_equal(0, -1, Key::new(probe, 0)), floor);
        assert_eq!(tree.first_less_by(0, -1, |k| k.key.cmp(&probe)), below);
        assert_eq!(list.first_less_by(0, -1, |k| k.key.cmp(&probe)), below);
        assert_eq!(tree.first_less_or_equal_by(0, -1, |k| k.key.cmp(&probe)), floor);
        assert_eq!(list.first_less_or_equal_by(0, -1, |k| k.key.cmp(&probe)), floor);
    }
}

#[test]
fn snapshot_before_and_after_expiration() {
    let mut tree: KeyExpTree<Key, i32, i32> = KeyExpTree::new(8);
    let mut late: KeyExpTree<Key, i32, i32> = KeyExpTree::new(8);
    let mut list: KeyExpList<Key, i32, i32> = KeyExpList::new(8);
    for key in [0, 3, 5, 6] {
        tree.insert(Key::new(key, 10), key, 0);
        late.insert(Key::new(key, 10), key, 0);
        list.insert(Key::new(key, 10), key, 0);
    }
    assert_eq!(tree.into_ordered_vec(0), vec![0, 3, 5, 6]);
    assert_eq!(late.into_ordered_vec(11), Vec::<i32>::new());
    assert_eq!(list.into_ordered_vec(11), Vec::<i32>::new());
}

#[test]
fn snapshot_leaves_out_what_expires_at_its_time() {
    let mut tree: KeyExpTree<Key, i32, i32> = KeyExpTree::new(8);
    let mut list: KeyExpList<Key, i32, i32> = KeyExpList::new(8);
    for (key, exp) in [(1, 10), (2, 11), (3, 9), (4, 12), (5, 10)] {
        tree.insert(Key::new(key, exp), key, 0);
        list.insert(Key::new(key, exp), key, 0);
    }
    assert_eq!(tree.into_ordered_vec(10), vec![2, 4]);
    assert_eq!(list.into_ordered_vec(10), vec![2, 4]);
}

#[test]
fn snapshot_after_deletions_holds_no_expired_value() {
    // deleting a node with two children moves another entity into its slot;
    // the snapshot has to look at that slot again
    let mut rng = Lcg(23);
    for round in 0..200 {
        let mut tree: KeyExpTree<Key, i32, i32> = KeyExpTree::new(8);
        let mut expected = Vec::new();
        for key in 0..60 {
            let exp = 1 + rng.next(20) as i32;
            tree.insert(Key::new(key, exp), key, 0);
            if exp > 10 {
                expected.push(key);
            }
        }
        if round % 2 == 0 {
            tree.get_value(5, Key::new(rng.next(60) as i32, 0));
        }
        assert_eq!(tree.into_ordered_vec(10), expected);
    }
}

#[test]
fn equal_keys_keep_the_order_of_insertion() {
    let mut tree: KeyExpTree<Key, i32, i32> = KeyExpTree::new(8);
    let mut list: KeyExpList<Key, i32, i32> = KeyExpList::new(8);
    for (key, val) in [(5, 1), (3, 2), (5, 3), (5, 4), (3, 5), (7, 6), (5, 7)] {
        tree.insert(Key::new(key, 10), val, 0);
        list.insert(Key::new(key, 10), val, 0);
    }
    assert_eq!(tree.into_ordered_vec(0), vec![2, 5, 1, 3, 4, 7, 6]);
    assert_eq!(list.into_ordered_vec(0), vec![2, 5, 1, 3, 4, 7, 6]);
}

#[test]
fn map_tree_by_index() {
    let mut tree: MapTree<i32, String> = MapTree::new(0);
    for key in [4, 2, 6, 1, 3, 5, 7] {
        tree.insert(key, key.to_string());
    }
    let index = tree.first_index_less(6);
    assert_eq!(tree.value_by_index(index), "6");
    tree.value_by_index_mut(index).push('!');
    assert_eq!(tree.get_value(6).unwrap(), "6!");

    // a node with two children
    let index = tree.first_index_less(4);
    tree.delete_by_index(index);
    assert_eq!(tree.get_value(4), None);
    for key in [1, 2, 3, 5, 7] {
        assert_eq!(tree.get_value(key).unwrap(), &key.to_string());
    }
    assert_eq!(check_red_black(&tree.tree), vec![1, 2, 3, 5, 6, 7]);

    assert_eq!(tree.first_index_less(0), EMPTY_REF);
    assert_eq!(tree.first_index_less_by(|k| k.cmp(&0)), EMPTY_REF);
    tree.delete(9);
    assert_eq!(check_red_black(&tree.tree), vec![1, 2, 3, 5, 6, 7]);

    tree.clear();
    assert!(tree.is_empty());
    tree.insert(1, "again".to_string());
    assert_eq!(tree.get_value(1).unwrap(), "again");
    assert_eq!(check_red_black(&tree.tree), vec![1]);
}

#[test]
fn the_table_grows_and_slots_are_used_again() {
    let mut tree: MapTree<i32, i32> = MapTree::new(8);
    assert_eq!(tree.tree.store.buffer.len(), 8);
    for key in 0..7 {
        tree.insert(key, key);
    }
    assert_eq!(tree.tree.store.buffer.len(), 8);
    tree.insert(7, 7);
    assert_eq!(tree.tree.store.buffer.len(), 16);
    for key in 0..8 {
        tree.delete(key);
    }
    for key in 0..15 {
        tree.insert(key, key);
    }
    assert_eq!(tree.tree.store.buffer.len(), 16);
    assert_eq!(check_red_black(&tree.tree), (0..15).collect::<Vec<_>>());
}

#[test]
fn reserve_capacity_grows_the_table() {
    let mut tree: KeyExpTree<Key, i32, i32> = KeyExpTree::new(0);
    assert_eq!(tree.tree.store.buffer.len(), 8);
    tree.insert(Key::new(1, 5), 1, 0);
    tree.reserve_capacity(4);
    assert_eq!(tree.tree.store.buffer.len(), 8);
    tree.reserve_capacity(100);
    assert_eq!(tree.tree.store.buffer.len(), 100);
    assert_eq!(tree.get_value(0, Key::new(1, 0)), Some(1));

    let mut list: KeyExpList<Key, i32, i32> = KeyExpList::new(0);
    list.insert(Key::new(1, 5), 1, 0);
    list.reserve_capacity(50);
    assert!(list.buffer.capacity() >= 50);
    assert_eq!(list.get_value(0, Key::new(1, 0)), Some(1));
}

#[test]
fn clear_expired_and_ordered_values() {
    let mut list: KeyExpList<Key, i32, i32> = KeyExpList::new(4);
    for (key, exp) in [(3, 5), (1, 9), (2, 4), (4, 7)] {
        list.insert(Key::new(key, exp), 10 * key, 0);
    }
    let mut iter = list.ordered_values();
    assert_eq!(iter.size_hint(), (4, Some(4)));
    let mut seen = Vec::new();
    while let Some(val) = iter.next() {
        seen.push(*val);
    }
    assert_eq!(seen, vec![10, 20, 30, 40]);

    list.clear_expired(5);
    let mut iter = list.ordered_values();
    let mut seen = Vec::new();
    while let Some(val) = iter.next() {
        seen.push(*val);
    }
    assert_eq!(seen, vec![10, 40]);
    list.clear();
    assert!(list.is_empty());
}

#[test]
fn layout_needs_a_coordinate_for_each_leaf() {
    assert!(Layout::new(0, 15).is_none());
    assert!(Layout::new(0, 30).is_none());
    assert!(Layout::new(5, 4).is_none());
    assert!(Layout::new(0, 31).is_some());
    assert!(Layout::new(i64::MIN, i64::MAX).is_some());
    let layout = Layout::new(i64::MIN, i64::MAX).unwrap();
    assert_eq!(layout.scale, 59);
    assert_eq!(layout.index(i64::MIN), 0);
    assert_eq!(layout.index(i64::MAX), 31);
    assert_eq!(layout.count(), 63);
    let layout = Layout::new(0, 31).unwrap();
    assert_eq!(layout.scale, 0);
    assert_eq!(layout.count(), 63);
    let layout = Layout::new(0, 32).unwrap();
    assert_eq!(layout.scale, 1);
    assert_eq!(layout.count(), 48);
    assert!(SegExpTree::<i32, i32, Span>::new(SegRange { min: 0, max: 30 }).is_none());
    assert!(SegExpTree::<i32, i32, Span>::new(SegRange { min: 0, max: 31 }).is_some());
}

#[test]
fn interval_queries_on_a_small_index() {
    let mut tree = SegExpTree::new(SegRange { min: 0, max: 128 }).unwrap();
    let one = Span { id: 1, min: 2, max: 100, exp: 2 };
    tree.insert_by_range(SegRange { min: one.min, max: one.max }, one);
    let mut found = Vec::new();
    let mut iter = tree.iter_by_range(SegRange { min: 0, max: 100 }, 0);
    while let Some(val) = iter.next() {
        found.push(val);
    }
    assert_eq!(found, vec![one]);

    let mut tree = SegExpTree::new(SegRange { min: 0, max: 128 }).unwrap();
    for span in [Span { id: 1, min: 10, max: 20, exp: 2 }, Span { id: 2, min: 80, max: 100, exp: 2 }] {
        tree.insert_by_range(SegRange { min: span.min, max: span.max }, span);
    }
    let mut iter = tree.iter_by_range(SegRange { min: 40, max: 60 }, 0);
    assert_eq!(iter.next(), None);
}

#[test]
fn a_query_finds_what_shares_a_bucket_once() {
    // 128 coordinates in 32 buckets of 4
    let layout = Layout::new(0, 127).unwrap();
    assert_eq!(layout.scale, 2);
    let mut tree = SegExpTree::new(SegRange { min: 0, max: 127 }).unwrap();
    let mut spans = Vec::new();
    let mut id = 0;
    for min in (0..128).step_by(7) {
        for len in [0, 1, 3, 4, 9, 31, 64, 127] {
            let max = min + len;
            if max < 128 {
                let span = Span { id, min, max, exp: 5 };
                id += 1;
                tree.insert_by_range(SegRange { min, max }, span);
                spans.push(span);
            }
        }
    }
    for q_min in (0..128).step_by(5) {
        for q_len in [0, 2, 3, 8, 40, 127] {
            let q_max = q_min + q_len;
            if q_max >= 128 {
                continue;
            }
            let mut found = Vec::new();
            let mut iter = tree.iter_by_range(SegRange { min: q_min, max: q_max }, 0);
            while let Some(val) = iter.next() {
                found.push(val.id);
            }
            found.sort_unstable();
            let expected: Vec<u32> = spans
                .iter()
                .filter(|s| s.min / 4 <= q_max / 4 && q_min / 4 <= s.max / 4)
                .map(|s| s.id)
                .collect();
            assert_eq!(found, expected);
        }
    }
}

#[test]
fn a_query_drops_stale_values() {
    let mut tree = SegExpTree::new(SegRange { min: 0, max: 127 }).unwrap();
    let old = Span { id: 1, min: 0, max: 127, exp: 3 };
    let new = Span { id: 2, min: 0, max: 127, exp: 9 };
    tree.insert_by_range(SegRange { min: 0, max: 127 }, old);
    tree.insert_by_range(SegRange { min: 0, max: 127 }, new);
    assert_eq!(tree.chunks[0].buffer.len(), 2);

    // before its expiration a value is found
    let mut found = Vec::new();
    let mut iter = tree.iter_by_range(SegRange { min: 10, max: 20 }, 2);
    while let Some(val) = iter.next() {
        found.push(val.id);
    }
    found.sort_unstable();
    assert_eq!(found, vec![1, 2]);
    assert_eq!(tree.chunks[0].buffer.len(), 2);

    // at its expiration it is stale, and dropped
    let mut found = Vec::new();
    let mut iter = tree.iter_by_range(SegRange { min: 10, max: 20 }, 3);
    while let Some(val) = iter.next() {
        found.push(val.id);
    }
    assert_eq!(found, vec![2]);
    assert_eq!(tree.chunks[0].buffer.len(), 1);
}

#[test]
fn set_list_by_key() {
    let mut set: SetList<i32> = SetList::new(4);
    assert!(set.is_empty());
    for val in [5, 1, 9, 3, 7] {
        set.insert(val);
    }
    assert_eq!(set.buffer, vec![1, 3, 5, 7, 9]);
    assert_eq!(set.get_value(&7), Some(&7));
    assert_eq!(set.get_value(&4), None);
    assert_eq!(set.first_index_less(&0), EMPTY_REF);
    assert_eq!(set.first_index_less(&1), 0);
    assert_eq!(set.first_index_less(&4), 1);
    assert_eq!(set.first_index_less(&100), 4);
    assert_eq!(set.first_index_less_by(|k| k.cmp(&6)), 2);
    assert_eq!(set.first_index_less_by(|k| k.cmp(&0)), EMPTY_REF);
    assert_eq!(set.index_after(2), 3);
    assert_eq!(set.index_before(2), 1);
    assert_eq!(*set.value_by_index(3), 7);
    *set.value_by_index_mut(3) = 8;
    assert_eq!(set.buffer, vec![1, 3, 5, 8, 9]);
    set.delete(&3);
    set.delete(&4);
    set.delete_by_index(0);
    assert_eq!(set.buffer, vec![5, 8, 9]);
    set.clear();
    assert!(set.is_empty());
}

#[test]
fn a_new_table_has_the_slots_asked_for() {
    let tree: MapTree<i32, i32> = MapTree::new(0);
    assert_eq!(tree.tree.store.buffer.len(), 8);
    assert_eq!(tree.tree.store.unused, vec![7, 6, 5, 4, 3, 2, 1]);
    assert_eq!(tree.tree.root, EMPTY_REF);

    let tree: KeyExpTree<Key, i32, i32> = KeyExpTree::new(20);
    assert_eq!(tree.tree.store.buffer.len(), 20);
    assert_eq!(tree.tree.store.unused.len(), 19);
    assert_eq!(tree.tree.store.unused[18], 1);
    assert_eq!(tree.tree.store.unused[0], 19);
}

#[test]
fn reserve_capacity_grows_to_the_capacity() {
    let mut tree: KeyExpTree<Key, i32, i32> = KeyExpTree::new(8);
    tree.insert(Key::new(5, 10), 50, 0);
    let root = tree.tree.root;
    let stack = tree.tree.store.unused.clone();

    tree.reserve_capacity(6);
    assert_eq!(tree.tree.store.buffer.len(), 8);
    assert_eq!(tree.tree.store.unused, stack);

    tree.reserve_capacity(12);
    assert_eq!(tree.tree.store.buffer.len(), 12);
    assert_eq!(tree.tree.root, root);
    // the new slots lie on the old ones, the least on top
    assert_eq!(&tree.tree.store.unused[..stack.len()], &stack[..]);
    assert_eq!(&tree.tree.store.unused[stack.len()..], &[11, 10, 9, 8]);
    assert_eq!(tree.get_value(1, Key::new(5, 10)), Some(50));
}

#[test]
fn deleting_a_node_with_two_children_frees_the_slot_of_the_next() {
    let mut tree: MapTree<i32, i32> = MapTree::new(8);
    tree.insert(2, 20);
    tree.insert(1, 10);
    tree.insert(3, 30);
    let root = tree.tree.root;
    let node = &tree.tree.store.buffer[root as usize];
    assert_eq!(node.entity.as_ref().unwrap().key, 2);
    let next = node.right;
    assert_ne!(node.left, EMPTY_REF);
    assert_ne!(next, EMPTY_REF);
    let stack = tree.tree.store.unused.clone();

    tree.delete_by_index(root);

    // the root took the entity of the node next in key order, whose slot is free
    let node = &tree.tree.store.buffer[root as usize];
    assert_eq!(node.entity.as_ref().unwrap().key, 3);
    assert_eq!(node.entity.as_ref().unwrap().val, 30);
    assert_eq!(tree.tree.store.unused.len(), stack.len() + 1);
    assert_eq!(&tree.tree.store.unused[..stack.len()], &stack[..]);
    assert_eq!(*tree.tree.store.unused.last().unwrap(), next);
    assert_eq!(check_red_black(&tree.tree), vec![1, 3]);

    // a node with one child at most frees its own slot
    let index = tree.first_index_less(1);
    let stack = tree.tree.store.unused.clone();
    tree.delete_by_index(index);
    assert_eq!(*tree.tree.store.unused.last().unwrap(), index);
    assert_eq!(tree.tree.store.unused.len(), stack.len() + 1);
    assert_eq!(check_red_black(&tree.tree), vec![3]);
}

#[test]
fn deleting_an_absent_key_changes_nothing() {
    let mut tree: MapTree<i32, i32> = MapTree::new(8);
    for key in [4, 2, 6, 1, 3] {
        tree.insert(key, key);
    }
    let root = tree.tree.root;
    let stack = tree.tree.store.unused.clone();
    let links: Vec<(u32, u32, u32)> = tree.tree.store.buffer.iter().map(|n| (n.parent, n.left, n.right)).collect();

    tree.delete(5);

    assert_eq!(tree.tree.root, root);
    assert_eq!(tree.tree.store.unused, stack);
    let after: Vec<(u32, u32, u32)> = tree.tree.store.buffer.iter().map(|n| (n.parent, n.left, n.right)).collect();
    assert_eq!(after, links);
}

#[test]
fn clear_returns_every_node_above_the_old_free_stack() {
    let mut tree: MapTree<i32, i32> = MapTree::new(8);
    for key in [4, 2, 6, 1, 3] {
        tree.insert(key, key);
    }
    let root = tree.tree.root;
    let slots = tree.tree.store.buffer.len();
    let stack = tree.tree.store.unused.clone();

    tree.clear();

    assert!(tree.is_empty());
    assert_eq!(tree.tree.root, EMPTY_REF);
    assert_eq!(tree.tree.store.buffer.len(), slots);
    let after = &tree.tree.store.unused;
    assert_eq!(after.len(), stack.len() + 5);
    assert_eq!(&after[..stack.len()], &stack[..]);
    assert_eq!(after[stack.len()], root);
    let mut all = after.clone();
    all.sort_unstable();
    let expected: Vec<u32> = (1..slots as u32).collect();
    assert_eq!(all, expected);

    // an empty tree stays as it is
    let stack = tree.tree.store.unused.clone();
    tree.clear();
    assert_eq!(tree.tree.store.unused, stack);
    assert_eq!(tree.tree.store.buffer.len(), slots);
}

#[test]
fn a_lookup_evicts_the_expired_root_for_good() {
    let mut tree: KeyExpTree<Key, i32, i32> = KeyExpTree::new(8);
    tree.insert(Key::new(10, 10), 1, 0);
    assert_eq!(tree.get_value(11, Key::new(0, 10)), None);
    assert!(tree.is_empty());
    assert_eq!(tree.get_value(0, Key::new(10, 10)), None);

    let mut list: KeyExpList<Key, i32, i32> = KeyExpList::new(8);
    list.insert(Key::new(10, 10), 1, 0);
    assert_eq!(list.get_value(11, Key::new(0, 10)), None);
    assert!(list.is_empty());
    assert_eq!(list.get_value(0, Key::new(10, 10)), None);
}

#[test]
fn a_sweep_that_empties_the_list_resets_the_earliest_expiration() {
    let mut list: KeyExpList<Key, i32, i32> = KeyExpList::new(8);
    list.insert(Key::new(1, 5), 1, 0);
    list.insert(Key::new(2, 9), 2, 0);
    assert_eq!(list.min_exp, 5);

    // nothing is looked at before the earliest expiration
    list.clear_expired(4);
    assert_eq!(list.min_exp, 5);
    assert_eq!(list.buffer.len(), 2);

    list.clear_expired(5);
    assert_eq!(list.min_exp, 9);
    assert_eq!(list.buffer.len(), 1);

    list.clear_expired(9);
    assert_eq!(list.min_exp, i32::MAX);
    assert!(list.buffer.is_empty());
}

#[test]
fn a_finished_query_leaves_no_stale_entry_in_its_buckets() {
    let mut tree = SegExpTree::new(SegRange { min: 0, max: 127 }).unwrap();
    for id in 0..40u32 {
        let min = (id as i32 * 3) % 100;
        let span = Span { id, min, max: min + 20, exp: (id % 7) as i32 };
        tree.insert_by_range(SegRange { min: span.min, max: span.max }, span);
    }
    let query = SegRange { min: 30, max: 60 };
    let mask = tree.layout.intersect_mask(30, 60);
    let mut found = Vec::new();
    let mut iter = tree.iter_by_range(query, 3);
    while let Some(val) = iter.next() {
        assert!(val.exp > 3);
        found.push(val.id);
    }
    let count = found.len();
    found.sort_unstable();
    found.dedup();
    assert_eq!(found.len(), count);
    for (node, chunk) in tree.chunks.iter().enumerate() {
        if mask & (1u64 << node) != 0 {
            for entry in chunk.buffer.iter() {
                assert!(entry.val.exp > 3);
            }
        }
    }
}

#[test]
fn a_node_off_the_way_stays_even_where_it_rises_to_the_root() {
    let mut tree: KeyExpTree<Key, i32, i32> = KeyExpTree::new(8);
    // 2 at the root, 1 and 3 black below it, 4 red below 3
    for (key, exp) in [(2, 100), (1, 5), (3, 5), (4, 100)] {
        tree.insert(Key::new(key, exp), key, 0);
    }
    assert_eq!(keys_of(&tree.tree), vec![1, 2, 3, 4]);
    let root = &tree.tree.store.buffer[tree.tree.root as usize];
    assert_eq!(root.entity.as_ref().unwrap().key.key, 2);

    // the way to 0 passes 2 and 1; 1 is expired and leaves, and the tree is
    // rebalanced around 3, which the lookup has not seen
    assert_eq!(tree.get_value(10, Key::new(0, 100)), None);
    assert_eq!(keys_of(&tree.tree), vec![2, 3, 4]);
    let root = &tree.tree.store.buffer[tree.tree.root as usize];
    assert_eq!(root.entity.as_ref().unwrap().key.key, 3);

    // 3 is expired at 10 and is dropped when a lookup meets it
    assert_eq!(tree.get_value(10, Key::new(4, 100)), Some(4));
    assert_eq!(keys_of(&tree.tree), vec![2, 4]);
}

fn keys_of(tree: &RbTree<Key, i32>) -> Vec<i32> {
    let mut keys = Vec::new();
    check_keyed(tree, tree.root, EMPTY_REF, &mut keys);
    keys
}
