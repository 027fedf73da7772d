//! Binary search in an array of entries that is sorted by key: what the
//! array-backed collections share.

use vstd::prelude::*;
use core::cmp::Ordering;
use crate::order::{is_less, three_way};
use crate::rb::node::Entity;

verus! {

/// The entries of an array as pairs of key and value.
pub open spec fn pairs<K, V>(buffer: Seq<Entity<K, V>>) -> Seq<(K, V)> {
    Seq::new(buffer.len(), |i: int| (buffer[i].key, buffer[i].val))
}

/// The element of `s` at the machine index `i`.
pub open spec fn nth<T>(s: Seq<T>, i: usize) -> T {
    s[i as int]
}

/// The machine index `i` as a position.
pub open spec fn at(i: usize) -> int {
    i as int
}

/// The index `i` as a position.
pub open spec fn at32(i: u32) -> int {
    i as int
}

/// The number `n` as a position.
pub open spec fn count(n: nat) -> int {
    n as int
}

/// Where an entry with `key` is to be inserted: behind the entries whose
/// keys are not above `key`.
pub fn upper_bound<K: Ord + Copy, V>(buffer: &Vec<Entity<K, V>>, key: K) -> (q: usize)
    requires
        crate::order::total_order::<K>(),
        crate::order::sorted_by_key(pairs(buffer@)),
    ensures
        crate::order::insert_point(pairs(buffer@), key, q as int),
{
    let ghost s = pairs(buffer@);
    let mut lo: usize = 0;
    let mut hi: usize = buffer.len();
    while lo < hi
        invariant
            crate::order::total_order::<K>(),
            crate::order::sorted_by_key(s),
            s == pairs(buffer@),
            0 <= lo <= hi <= buffer.len(),
            forall|t: int| 0 <= t < lo ==> crate::order::key_le(#[trigger] s[t].0, key),
            forall|t: int| hi <= t < s.len() ==> crate::order::key_lt(key, #[trigger] s[t].0),
        decreases hi - lo,
    {
        let mid = lo + (hi - lo) / 2;
        let mid_key = buffer[mid].key;
        if is_less(&key, &mid_key) {
            proof {
                assert forall|t: int| mid <= t < s.len() implies crate::order::key_lt(key, #[trigger] s[t].0) by {
                    if t > mid {
                        assert(crate::order::key_le(nth(s, mid).0, s[t].0));
                    }
                    crate::order::lemma_order(key, mid_key, s[t].0);
                }
            }
            hi = mid;
        } else {
            proof {
                assert forall|t: int| 0 <= t < mid + 1 implies crate::order::key_le(#[trigger] s[t].0, key) by {
                    if t < mid {
                        assert(crate::order::key_le(s[t].0, nth(s, mid).0));
                    }
                    crate::order::lemma_order(s[t].0, mid_key, key);
                    crate::order::lemma_order(key, mid_key, key);
                }
            }
            lo = mid + 1;
        }
    }
    lo
}

/// Binary search for an entry that the probe `f` calls equal. `Ok` holds the
/// position of such an entry; `Err` holds the position before which `f`
/// calls every key less and from which on it calls every key greater.
pub fn search_by<K: Ord + Copy, V, F>(buffer: &Vec<Entity<K, V>>, f: &F) -> (found: Result<usize, usize>) where
    F: Fn(K) -> Ordering,

    requires
        crate::order::total_order::<K>(),
        crate::order::sorted_by_key(pairs(buffer@)),
        crate::order::is_probe(*f),
    ensures
        match found {
            Ok(p) => p < buffer@.len() && f.ensures((nth(buffer@, p).key,), Ordering::Equal),
            Err(q) => {
                &&& q <= buffer@.len()
                &&& forall|t: int, o: Ordering|
                    0 <= t < q && #[trigger] f.ensures((pairs(buffer@)[t].0,), o) ==> o == Ordering::Less
                &&& forall|t: int, o: Ordering|
                    q <= t < buffer@.len() && #[trigger] f.ensures((pairs(buffer@)[t].0,), o) ==> o
                        == Ordering::Greater
                &&& q > 0 ==> f.ensures((buffer@[q - 1].key,), Ordering::Less)
            },
        },
{
    let ghost s = pairs(buffer@);
    let mut lo: usize = 0;
    let mut hi: usize = buffer.len();
    while lo < hi
        invariant
            crate::order::total_order::<K>(),
            crate::order::sorted_by_key(s),
            crate::order::is_probe(*f),
            s == pairs(buffer@),
            0 <= lo <= hi <= buffer.len(),
            forall|t: int, o: Ordering| 0 <= t < lo && #[trigger] f.ensures((s[t].0,), o) ==> o == Ordering::Less,
            forall|t: int, o: Ordering|
                hi <= t < s.len() && #[trigger] f.ensures((s[t].0,), o) ==> o == Ordering::Greater,
            lo > 0 ==> f.ensures((buffer@[lo - 1].key,), Ordering::Less),
        decreases hi - lo,
    {
        let mid = lo + (hi - lo) / 2;
        let mid_key = buffer[mid].key;
        proof {
            crate::order::lemma_order(mid_key, mid_key, mid_key);
        }
        match f(mid_key) {
            Ordering::Equal => {
                return Ok(mid);
            },
            Ordering::Less => {
                proof {
                    assert forall|t: int, o: Ordering|
                        0 <= t < mid + 1 && #[trigger] f.ensures((s[t].0,), o) implies o == Ordering::Less by {
                        if t < mid {
                            assert(crate::order::key_le(s[t].0, nth(s, mid).0));
                        }
                        assert(f.ensures((nth(s, mid).0,), Ordering::Less));
                    }
                }
                lo = mid + 1;
            },
            Ordering::Greater => {
                proof {
                    assert forall|t: int, o: Ordering|
                        mid <= t < s.len() && #[trigger] f.ensures((s[t].0,), o) implies o
                        == Ordering::Greater by {
                        if t > mid {
                            assert(crate::order::key_le(nth(s, mid).0, s[t].0));
                        }
                        assert(f.ensures((nth(s, mid).0,), Ordering::Greater));
                    }
                }
                hi = mid;
            },
        }
    }
    Err(lo)
}

/// Binary search for an entry whose key equals `key`. `Ok` holds the
/// position of such an entry; `Err` holds the position before which every key
/// is below `key` and from which on every key is above it.
pub fn search_key<K: Ord + Copy, V>(buffer: &Vec<Entity<K, V>>, key: K) -> (found: Result<usize, usize>)
    requires
        crate::order::total_order::<K>(),
        crate::order::sorted_by_key(pairs(buffer@)),
    ensures
        match found {
            Ok(p) => p < buffer@.len() && crate::order::key_eq(nth(buffer@, p).key, key),
            Err(q) => {
                &&& q <= buffer@.len()
                &&& forall|t: int| 0 <= t < q ==> crate::order::key_lt(#[trigger] pairs(buffer@)[t].0, key)
                &&& forall|t: int|
                    q <= t < buffer@.len() ==> crate::order::key_lt(key, #[trigger] pairs(buffer@)[t].0)
            },
        },
{
    let ghost s = pairs(buffer@);
    let mut lo: usize = 0;
    let mut hi: usize = buffer.len();
    while lo < hi
        invariant
            crate::order::total_order::<K>(),
            crate::order::sorted_by_key(s),
            s == pairs(buffer@),
            0 <= lo <= hi <= buffer.len(),
            forall|t: int| 0 <= t < lo ==> crate::order::key_lt(#[trigger] s[t].0, key),
            forall|t: int| hi <= t < s.len() ==> crate::order::key_lt(key, #[trigger] s[t].0),
        decreases hi - lo,
    {
        let mid = lo + (hi - lo) / 2;
        let mid_key = buffer[mid].key;
        match three_way(&mid_key, &key) {
            Ordering::Equal => {
                return Ok(mid);
            },
            Ordering::Less => {
                proof {
                    assert forall|t: int| 0 <= t < mid + 1 implies crate::order::key_lt(#[trigger] s[t].0, key) by {
                        if t < mid {
                            assert(crate::order::key_le(s[t].0, nth(s, mid).0));
                        }
                        crate::order::lemma_order(s[t].0, mid_key, key);
                    }
                }
                lo = mid + 1;
            },
            Ordering::Greater => {
                proof {
                    assert forall|t: int| mid <= t < s.len() implies crate::order::key_lt(key, #[trigger] s[t].0) by {
                        if t > mid {
                            assert(crate::order::key_le(nth(s, mid).0, s[t].0));
                        }
                        crate::order::lemma_order(key, mid_key, s[t].0);
                    }
                }
                hi = mid;
            },
        }
    }
    Err(lo)
}

/// The position of the first entry whose key is not below `key`.
pub fn lower_bound<K: Ord + Copy, V>(buffer: &Vec<Entity<K, V>>, key: K) -> (q: usize)
    requires
        crate::order::total_order::<K>(),
        crate::order::sorted_by_key(pairs(buffer@)),
    ensures
        q <= buffer@.len(),
        forall|t: int| 0 <= t < q ==> crate::order::key_lt(#[trigger] pairs(buffer@)[t].0, key),
        forall|t: int| q <= t < buffer@.len() ==> crate::order::key_le(key, #[trigger] pairs(buffer@)[t].0),
{
    let ghost s = pairs(buffer@);
    let mut lo: usize = 0;
    let mut hi: usize = buffer.len();
    while lo < hi
        invariant
            crate::order::total_order::<K>(),
            crate::order::sorted_by_key(s),
            s == pairs(buffer@),
            0 <= lo <= hi <= buffer.len(),
            forall|t: int| 0 <= t < lo ==> crate::order::key_lt(#[trigger] s[t].0, key),
            forall|t: int| hi <= t < s.len() ==> crate::order::key_le(key, #[trigger] s[t].0),
        decreases hi - lo,
    {
        let mid = lo + (hi - lo) / 2;
        let mid_key = buffer[mid].key;
        if is_less(&mid_key, &key) {
            proof {
                assert forall|t: int| 0 <= t < mid + 1 implies crate::order::key_lt(#[trigger] s[t].0, key) by {
                    if t < mid {
                        assert(crate::order::key_le(s[t].0, nth(s, mid).0));
                    }
                    crate::order::lemma_order(s[t].0, mid_key, key);
                }
            }
            lo = mid + 1;
        } else {
            proof {
                assert forall|t: int| mid <= t < s.len() implies crate::order::key_le(key, #[trigger] s[t].0) by {
                    if t > mid {
                        assert(crate::order::key_le(nth(s, mid).0, s[t].0));
                    }
                    crate::order::lemma_order(key, mid_key, s[t].0);
                    crate::order::lemma_order(mid_key, key, key);
                }
            }
            hi = mid;
        }
    }
    lo
}

/// The position of the first entry whose key the probe `f` does not call
/// less.
pub fn lower_bound_by<K: Ord + Copy, V, F>(buffer: &Vec<Entity<K, V>>, f: &F) -> (q: usize) where
    F: Fn(K) -> Ordering,

    requires
        crate::order::total_order::<K>(),
        crate::order::sorted_by_key(pairs(buffer@)),
        crate::order::is_probe(*f),
    ensures
        q <= buffer@.len(),
        forall|t: int, o: Ordering|
            0 <= t < q && #[trigger] f.ensures((pairs(buffer@)[t].0,), o) ==> o == Ordering::Less,
        forall|t: int, o: Ordering|
            q <= t < buffer@.len() && #[trigger] f.ensures((pairs(buffer@)[t].0,), o) ==> o != Ordering::Less,
        q > 0 ==> f.ensures((pairs(buffer@)[q - 1].0,), Ordering::Less),
{
    let ghost s = pairs(buffer@);
    let mut lo: usize = 0;
    let mut hi: usize = buffer.len();
    while lo < hi
        invariant
            crate::order::total_order::<K>(),
            crate::order::sorted_by_key(s),
            crate::order::is_probe(*f),
            s == pairs(buffer@),
            0 <= lo <= hi <= buffer.len(),
            forall|t: int, o: Ordering| 0 <= t < lo && #[trigger] f.ensures((s[t].0,), o) ==> o == Ordering::Less,
            forall|t: int, o: Ordering| hi <= t < s.len() && #[trigger] f.ensures((s[t].0,), o) ==> o != Ordering::Less,
            lo > 0 ==> f.ensures((s[lo - 1].0,), Ordering::Less),
        decreases hi - lo,
    {
        let mid = lo + (hi - lo) / 2;
        let mid_key = buffer[mid].key;
        proof {
            crate::order::lemma_order(mid_key, mid_key, mid_key);
        }
        match f(mid_key) {
            Ordering::Less => {
                proof {
                    assert forall|t: int, o: Ordering|
                        0 <= t < mid + 1 && #[trigger] f.ensures((s[t].0,), o) implies o == Ordering::Less by {
                        if t < mid {
                            assert(crate::order::key_le(s[t].0, nth(s, mid).0));
                        }
                        assert(f.ensures((nth(s, mid).0,), Ordering::Less));
                    }
                }
                lo = mid + 1;
            },
            seen => {
                proof {
                    assert forall|t: int, o: Ordering|
                        mid <= t < s.len() && #[trigger] f.ensures((s[t].0,), o) implies o != Ordering::Less by {
                        if t > mid {
                            assert(crate::order::key_le(nth(s, mid).0, s[t].0));
                        }
                        assert(f.ensures((nth(s, mid).0,), seen));
                    }
                }
                hi = mid;
            },
        }
    }
    lo
}

} // verus!
