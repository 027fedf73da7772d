use vstd::prelude::*;
use core::cmp::Ordering;
use crate::EMPTY_REF;
use crate::map::list::as_index;
use crate::map::sort::MAX_LEN;
use crate::order::is_less;
use crate::set::sort::{KeyValue, SetCollection};

verus! {

/// An ordered set of values that carry their keys, kept as a sorted array.
pub struct SetList<V> {
    pub buffer: Vec<V>,
}

/// Where a value with `key` is to be inserted: behind the values whose keys
/// are not above `key`.
pub fn upper_bound<K: Ord + Copy, V: KeyValue<K>>(buffer: &Vec<V>, key: K) -> (q: usize)
    requires
        crate::order::total_order::<K>(),
        crate::order::sorted_by_key(crate::set::sort::keyed(buffer@)),
    ensures
        crate::order::insert_point(crate::set::sort::keyed(buffer@), key, q as int),
{
    let ghost s = crate::set::sort::keyed(buffer@);
    let mut lo: usize = 0;
    let mut hi: usize = buffer.len();
    while lo < hi
        invariant
            crate::order::total_order::<K>(),
            crate::order::sorted_by_key(s),
            s == crate::set::sort::keyed(buffer@),
            0 <= lo <= hi <= buffer.len(),
            forall|t: int| 0 <= t < lo ==> crate::order::key_le(#[trigger] s[t].0, key),
            forall|t: int| hi <= t < s.len() ==> crate::order::key_lt(key, #[trigger] s[t].0),
        decreases hi - lo,
    {
        let mid = lo + (hi - lo) / 2;
        let mid_key = *buffer[mid].key();
        if is_less(&key, &mid_key) {
            proof {
                assert forall|t: int| mid <= t < s.len() implies crate::order::key_lt(key, #[trigger] s[t].0) by {
                    if t > mid {
                        assert(crate::order::key_le(s[mid as int].0, s[t].0));
                    }
                    crate::order::lemma_order(key, mid_key, s[t].0);
                }
            }
            hi = mid;
        } else {
            proof {
                assert forall|t: int| 0 <= t < mid + 1 implies crate::order::key_le(#[trigger] s[t].0, key) by {
                    if t < mid {
                        assert(crate::order::key_le(s[t].0, s[mid as int].0));
                    }
                    crate::order::lemma_order(s[t].0, mid_key, key);
                    crate::order::lemma_order(key, mid_key, key);
                }
            }
            lo = mid + 1;
        }
    }
    lo
}

/// The position of the first value whose key is not below `key`, and whether
/// the key of that value equals `key`.
pub fn lower_bound<K: Ord + Copy, V: KeyValue<K>>(buffer: &Vec<V>, key: K) -> (found: (usize, bool))
    requires
        crate::order::total_order::<K>(),
        crate::order::sorted_by_key(crate::set::sort::keyed(buffer@)),
    ensures
        found.0 <= buffer@.len(),
        forall|t: int| 0 <= t < found.0 ==> crate::order::key_lt(#[trigger] crate::set::sort::keyed(buffer@)[t].0, key),
        forall|t: int|
            found.0 <= t < buffer@.len() ==> crate::order::key_le(
                key,
                #[trigger] crate::set::sort::keyed(buffer@)[t].0,
            ),
        found.1 <==> found.0 < buffer@.len() && crate::order::key_eq(
            crate::set::sort::keyed(buffer@)[found.0 as int].0,
            key,
        ),
        found.1 <==> crate::order::holds_key(crate::set::sort::keyed(buffer@), key),
{
    let ghost s = crate::set::sort::keyed(buffer@);
    let mut lo: usize = 0;
    let mut hi: usize = buffer.len();
    while lo < hi
        invariant
            crate::order::total_order::<K>(),
            crate::order::sorted_by_key(s),
            s == crate::set::sort::keyed(buffer@),
            0 <= lo <= hi <= buffer.len(),
            forall|t: int| 0 <= t < lo ==> crate::order::key_lt(#[trigger] s[t].0, key),
            forall|t: int| hi <= t < s.len() ==> crate::order::key_le(key, #[trigger] s[t].0),
        decreases hi - lo,
    {
        let mid = lo + (hi - lo) / 2;
        let mid_key = *buffer[mid].key();
        if is_less(&mid_key, &key) {
            proof {
                assert forall|t: int| 0 <= t < mid + 1 implies crate::order::key_lt(#[trigger] s[t].0, key) by {
                    if t < mid {
                        assert(crate::order::key_le(s[t].0, s[mid as int].0));
                    }
                    crate::order::lemma_order(s[t].0, mid_key, key);
                }
            }
            lo = mid + 1;
        } else {
            proof {
                assert forall|t: int| mid <= t < s.len() implies crate::order::key_le(key, #[trigger] s[t].0) by {
                    if t > mid {
                        assert(crate::order::key_le(s[mid as int].0, s[t].0));
                    }
                    crate::order::lemma_order(key, mid_key, s[t].0);
                    crate::order::lemma_order(mid_key, key, key);
                }
            }
            hi = mid;
        }
    }
    let equal = lo < buffer.len() && !is_less(&key, buffer[lo].key());
    proof {
        if lo < buffer.len() {
            crate::order::lemma_order(key, s[lo as int].0, key);
        }
        if equal {
            assert(crate::order::hit(s, key, lo as int));
        } else {
            assert forall|t: int| 0 <= t < s.len() implies !crate::order::key_eq(#[trigger] s[t].0, key) by {
                crate::order::lemma_order(s[t].0, key, key);
                if t > lo {
                    assert(crate::order::key_le(s[lo as int].0, s[t].0));
                    crate::order::lemma_order(key, s[lo as int].0, s[t].0);
                }
            }
        }
    }
    (lo, equal)
}

impl<V> SetList<V> {
    /// An empty set with room for `capacity` values.
    #[inline(always)]
    pub fn new(capacity: usize) -> (set: Self)
        ensures
            set.buffer@ == Seq::<V>::empty(),
    {
        Self { buffer: Vec::with_capacity(capacity) }
    }
}

/// Taking a value out of a sorted array leaves it sorted.
pub proof fn lemma_removed<K: Ord, V: KeyValue<K>>(s: Seq<V>, q: int)
    requires
        0 <= q < s.len(),
        crate::order::sorted_by_key(crate::set::sort::keyed(s)),
    ensures
        crate::order::sorted_by_key(crate::set::sort::keyed(s.remove(q))),
{
    let a = crate::set::sort::keyed(s);
    let b = crate::set::sort::keyed(s.remove(q));
    assert forall|i: int, j: int| 0 <= i < j < b.len() implies crate::order::key_le(
        #[trigger] b[i].0,
        #[trigger] b[j].0,
    ) by {
        let oi = if i < q {
            i
        } else {
            i + 1
        };
        let oj = if j < q {
            j
        } else {
            j + 1
        };
        assert(crate::order::key_le(a[oi].0, a[oj].0));
    }
}

impl<K: Ord + Copy, V: KeyValue<K>> SetCollection<K, V> for SetList<V> {
    open spec fn wf(&self) -> bool {
        &&& crate::order::total_order::<K>()
        &&& crate::order::sorted_by_key(crate::set::sort::keyed(self.buffer@))
        &&& self.buffer@.len() <= MAX_LEN
    }

    open spec fn entries(&self) -> Seq<V> {
        self.buffer@
    }

    proof fn lemma_wf(&self) {
    }

    #[inline]
    fn is_empty(&self) -> (empty: bool) {
        self.buffer.is_empty()
    }

    #[inline]
    fn insert(&mut self, val: V) {
        let key = *val.key();
        let index = upper_bound(&self.buffer, key);
        self.buffer.insert(index, val);
        proof {
            let q = index as int;
            let a = crate::set::sort::keyed(old(self).buffer@);
            let b = crate::set::sort::keyed(self.buffer@);
            assert(self.buffer@ =~= old(self).buffer@.insert(q, val));
            assert forall|i: int, j: int| 0 <= i < j < b.len() implies crate::order::key_le(
                #[trigger] b[i].0,
                #[trigger] b[j].0,
            ) by {
                if j < q {
                    assert(crate::order::key_le(a[i].0, a[j].0));
                } else if j == q {
                    assert(crate::order::key_le(a[i].0, key));
                } else if i < q {
                    assert(crate::order::key_le(a[i].0, a[j - 1].0));
                } else if i == q {
                    assert(crate::order::key_lt(key, a[j - 1].0));
                    crate::order::lemma_order(key, a[j - 1].0, key);
                } else {
                    assert(crate::order::key_le(a[i - 1].0, a[j - 1].0));
                }
            }
        }
    }

    #[inline]
    fn delete(&mut self, key: &K) {
        let (index, found) = lower_bound(&self.buffer, *key);
        if found {
            let _ = self.buffer.remove(index);
            proof {
                assert(crate::order::hit(crate::set::sort::keyed(old(self).buffer@), *key, index as int));
                lemma_removed::<K, V>(old(self).buffer@, index as int);
            }
        }
    }

    #[inline]
    fn delete_by_index(&mut self, index: u32) {
        let _ = self.buffer.remove(index as usize);
        proof {
            lemma_removed::<K, V>(old(self).buffer@, index as int);
        }
    }

    #[inline]
    fn get_value(&self, key: &K) -> (found: Option<&V>) {
        let (index, found) = lower_bound(&self.buffer, *key);
        if found {
            let val = &self.buffer[index];
            proof {
                let q = index as int;
                assert(crate::order::hit(crate::set::sort::keyed(self.entries()), *key, q));
                assert(self.entries()[q] == *val);
            }
            Some(val)
        } else {
            None
        }
    }

    #[inline]
    fn index_after(&self, index: u32) -> (next: u32) {
        index + 1
    }

    fn index_before(&self, index: u32) -> (prev: u32) {
        index - 1
    }

    #[inline]
    fn value_by_index(&self, index: u32) -> (val: &V) {
        &self.buffer[index as usize]
    }

    #[inline]
    fn value_by_index_mut(&mut self, index: u32) -> (val: &mut V) {
        let ghost before = *self;
        let ghost after = *final(self);
        let val = &mut self.buffer[index as usize];
        proof {
            let q = index as int;
            assert(after.buffer@ =~= before.buffer@.update(q, *final(val)));
            let a = crate::set::sort::keyed(before.buffer@);
            let b = crate::set::sort::keyed(after.buffer@);
            assert forall|i: int, j: int|
                final(val).key_of() == before.buffer@[q].key_of() && 0 <= i < j < b.len() implies crate::order::key_le(
                #[trigger] b[i].0,
                #[trigger] b[j].0,
            ) by {
                assert(crate::order::key_le(a[i].0, a[j].0));
            }
        }
        val
    }

    #[inline]
    fn first_index_less(&self, key: &K) -> (index: u32) {
        let (at, found) = lower_bound(&self.buffer, *key);
        let ghost s = crate::set::sort::keyed(self.buffer@);
        if found {
            proof {
                crate::order::lemma_order(s[at as int].0, *key, *key);
            }
            as_index(at)
        } else if at > 0 {
            proof {
                crate::order::lemma_order(s[at - 1].0, *key, *key);
                assert forall|t: int| at - 1 < t < s.len() implies crate::order::key_lt(*key, #[trigger] s[t].0) by {
                    crate::order::lemma_order(*key, s[t].0, *key);
                    if t > at {
                        assert(crate::order::key_le(s[at as int].0, s[t].0));
                        crate::order::lemma_order(*key, s[at as int].0, s[t].0);
                    }
                }
                assert(crate::order::floor_at(s, *key, at - 1));
            }
            as_index(at - 1)
        } else {
            proof {
                assert forall|t: int| 0 <= t < s.len() implies crate::order::key_lt(*key, #[trigger] s[t].0) by {
                    crate::order::lemma_order(*key, s[t].0, *key);
                    if t > 0 {
                        assert(crate::order::key_le(s[0].0, s[t].0));
                        crate::order::lemma_order(*key, s[0].0, s[t].0);
                    }
                }
            }
            EMPTY_REF
        }
    }

    #[inline]
    fn first_index_less_by<F>(&self, f: F) -> (index: u32) where F: Fn(&K) -> Ordering {
        let ghost s = crate::set::sort::keyed(self.buffer@);
        let mut lo: usize = 0;
        let mut hi: usize = self.buffer.len();
        while lo < hi
            invariant
                self.wf(),
                crate::set::sort::is_probe_ref(f),
                s == crate::set::sort::keyed(self.buffer@),
                0 <= lo <= hi <= self.buffer@.len(),
                forall|t: int, o: Ordering|
                    0 <= t < lo && #[trigger] f.ensures((&s[t].0,), o) ==> o == Ordering::Less,
                forall|t: int, o: Ordering|
                    hi <= t < s.len() && #[trigger] f.ensures((&s[t].0,), o) ==> o == Ordering::Greater,
                lo > 0 ==> f.ensures((&s[lo - 1].0,), Ordering::Less),
            decreases hi - lo,
        {
            let mid = lo + (hi - lo) / 2;
            let ghost mid_key = crate::sorted::nth(s, mid).0;
            proof {
                crate::order::lemma_order(mid_key, mid_key, mid_key);
            }
            match f(self.buffer[mid].key()) {
                Ordering::Equal => {
                    proof {
                        assert(crate::set::sort::floor_by_ref(s, f, crate::sorted::at(mid)));
                    }
                    return as_index(mid);
                },
                Ordering::Less => {
                    proof {
                        assert forall|t: int, o: Ordering|
                            0 <= t < mid + 1 && #[trigger] f.ensures((&s[t].0,), o) implies o
                            == Ordering::Less by {
                            if t < mid {
                                assert(crate::order::key_le(s[t].0, mid_key));
                            }
                            assert(f.ensures((&mid_key,), Ordering::Less));
                        }
                    }
                    lo = mid + 1;
                },
                Ordering::Greater => {
                    proof {
                        assert forall|t: int, o: Ordering|
                            mid <= t < s.len() && #[trigger] f.ensures((&s[t].0,), o) implies o
                            == Ordering::Greater by {
                            if t > mid {
                                assert(crate::order::key_le(mid_key, s[t].0));
                            }
                            assert(f.ensures((&mid_key,), Ordering::Greater));
                        }
                    }
                    hi = mid;
                },
            }
        }
        if lo > 0 {
            proof {
                assert(crate::set::sort::floor_by_ref(s, f, lo - 1));
            }
            as_index(lo - 1)
        } else {
            EMPTY_REF
        }
    }

    #[inline]
    fn clear(&mut self) {
        self.buffer.clear();
    }
}

} // verus!
