use vstd::prelude::*;
use core::cmp::Ordering;
use crate::EMPTY_REF;
use crate::map::sort::{MapCollection, MAX_LEN};
use crate::rb::node::Entity;
use crate::sorted::{search_by, search_key, upper_bound};

verus! {

/// An ordered map kept as a sorted array. An entry is reached by its
/// position. Every operation that changes the number of entries takes time
/// linear in it: the type is a plain model of `MapTree`.
pub struct MapList<K, V> {
    pub buffer: Vec<Entity<K, V>>,
}

/// The positions `0, 1, .., n - 1` as indices.
pub open spec fn positions(n: int) -> Seq<u32> {
    Seq::new(n as nat, |i: int| i as u32)
}

/// In `positions(n)` every index stands at its own value.
pub proof fn lemma_positions(n: int, index: u32)
    requires
        0 <= n <= MAX_LEN,
    ensures
        positions(n).no_duplicates(),
        !positions(n).contains(EMPTY_REF),
        positions(n).contains(index) <==> index < n,
        index < n ==> positions(n).index_of(index) == index,
{
    let s = positions(n);
    if s.contains(EMPTY_REF) {
        let q = choose|q: int| 0 <= q < s.len() && s[q] == EMPTY_REF;
        assert(s[q] == q as u32);
    }
    if s.contains(index) {
        let q = choose|q: int| 0 <= q < s.len() && s[q] == index;
        assert(s[q] == q as u32);
    }
    if index < n {
        assert(s[index as int] == index);
        let q = s.index_of(index);
        assert(s[q] == index && 0 <= q < s.len());
    }
}

/// The position `i` as an index.
#[inline(always)]
pub fn as_index(i: usize) -> (index: u32)
    requires
        i <= MAX_LEN,
    ensures
        index == i,
        index != EMPTY_REF,
{
    i as u32
}

impl<K: Copy + Ord, V: Clone> MapList<K, V> {
    /// An empty map with room for `capacity` entries.
    #[inline(always)]
    pub fn new(capacity: usize) -> (map: Self)
        requires
            crate::order::total_order::<K>(),
        ensures
            map.wf(),
            map.entries() == Seq::<(K, V)>::empty(),
    {
        let map = Self { buffer: Vec::with_capacity(capacity) };
        proof {
            assert(map.entries() =~= Seq::<(K, V)>::empty());
        }
        map
    }

    /// The entry at position `p` is reached by the index `p`.
    pub proof fn lemma_at(&self, index: u32)
        requires
            self.wf(),
        ensures
            self.indices().contains(index) <==> index < self.buffer@.len(),
            index < self.buffer@.len() ==> self.indices().index_of(index) == index,
    {
        lemma_positions(self.buffer@.len() as int, index);
    }
}

impl<K: Copy + Ord, V: Clone> MapCollection<K, V> for MapList<K, V> {
    open spec fn wf(&self) -> bool {
        &&& crate::order::total_order::<K>()
        &&& crate::order::sorted_by_key(crate::sorted::pairs(self.buffer@))
        &&& self.buffer@.len() <= MAX_LEN
    }

    open spec fn entries(&self) -> Seq<(K, V)> {
        crate::sorted::pairs(self.buffer@)
    }

    open spec fn indices(&self) -> Seq<u32> {
        positions(self.buffer@.len() as int)
    }

    proof fn lemma_wf(&self) {
        lemma_positions(self.buffer@.len() as int, 0);
    }

    #[inline]
    fn is_empty(&self) -> (empty: bool) {
        self.buffer.is_empty()
    }

    #[inline]
    fn insert(&mut self, key: K, val: V) {
        let index = upper_bound(&self.buffer, key);
        self.buffer.insert(index, Entity::new(key, val));
        proof {
            let s = old(self).entries();
            let q = index as int;
            assert(self.entries() =~= s.insert(q, (key, val)));
            assert forall|i: int, j: int| 0 <= i < j < self.entries().len() implies crate::order::key_le(
                #[trigger] self.entries()[i].0,
                #[trigger] self.entries()[j].0,
            ) by {
                let e = self.entries();
                if j < q {
                    assert(crate::order::key_le(s[i].0, s[j].0));
                } else if j == q {
                    assert(crate::order::key_le(s[i].0, key));
                } else if i < q {
                    assert(crate::order::key_le(s[i].0, s[j - 1].0));
                } else if i == q {
                    assert(crate::order::key_lt(key, s[j - 1].0));
                    crate::order::lemma_order(key, s[j - 1].0, key);
                } else {
                    assert(crate::order::key_le(s[i - 1].0, s[j - 1].0));
                }
            }
        }
    }

    #[inline]
    fn delete(&mut self, key: K) {
        match search_key(&self.buffer, key) {
            Ok(index) => {
                let _ = self.buffer.remove(index);
                proof {
                    let s = old(self).entries();
                    let q = index as int;
                    assert(crate::order::hit(s, key, q));
                    assert(self.entries() =~= s.remove(q));
                    assert forall|i: int, j: int| 0 <= i < j < self.entries().len() implies crate::order::key_le(
                        #[trigger] self.entries()[i].0,
                        #[trigger] self.entries()[j].0,
                    ) by {
                        let oi = if i < q {
                            i
                        } else {
                            i + 1
                        };
                        let oj = if j < q {
                            j
                        } else {
                            j + 1
                        };
                        assert(crate::order::key_le(s[oi].0, s[oj].0));
                    }
                }
            },
            Err(q) => {
                proof {
                    let s = self.entries();
                    assert forall|t: int| 0 <= t < s.len() implies !crate::order::key_eq(#[trigger] s[t].0, key) by {
                        crate::order::lemma_order(s[t].0, key, key);
                    }
                }
            },
        }
    }

    #[inline]
    fn delete_by_index(&mut self, index: u32) {
        proof {
            self.lemma_at(index);
        }
        let _ = self.buffer.remove(index as usize);
        proof {
            let s = old(self).entries();
            let q = index as int;
            assert(self.entries() =~= s.remove(q));
            assert forall|i: int, j: int| 0 <= i < j < self.entries().len() implies crate::order::key_le(
                #[trigger] self.entries()[i].0,
                #[trigger] self.entries()[j].0,
            ) by {
                let oi = if i < q {
                    i
                } else {
                    i + 1
                };
                let oj = if j < q {
                    j
                } else {
                    j + 1
                };
                assert(crate::order::key_le(s[oi].0, s[oj].0));
            }
        }
    }

    #[inline]
    fn get_value(&self, key: K) -> (found: Option<&V>) {
        match search_key(&self.buffer, key) {
            Ok(index) => {
                proof {
                    assert(crate::order::hit(self.entries(), key, index as int));
                }
                Some(&self.buffer[index].val)
            },
            Err(q) => {
                proof {
                    let s = self.entries();
                    assert forall|t: int| 0 <= t < s.len() implies !crate::order::key_eq(#[trigger] s[t].0, key) by {
                        crate::order::lemma_order(s[t].0, key, key);
                    }
                }
                None
            },
        }
    }

    #[inline]
    fn value_by_index(&self, index: u32) -> (val: &V) {
        proof {
            self.lemma_at(index);
        }
        &self.buffer[index as usize].val
    }

    #[inline]
    fn value_by_index_mut(&mut self, index: u32) -> (val: &mut V) {
        proof {
            self.lemma_at(index);
        }
        let ghost before = *self;
        let ghost after = *final(self);
        let val = &mut self.buffer[index as usize].val;
        proof {
            let q = index as int;
            assert(after.buffer@ =~= before.buffer@.update(
                q,
                (Entity { key: before.buffer@[q].key, val: *final(val) }),
            ));
            assert(after.entries() =~= before.entries().update(q, (before.entries()[q].0, *final(val))));
            assert forall|i: int, j: int| 0 <= i < j < after.entries().len() implies crate::order::key_le(
                #[trigger] after.entries()[i].0,
                #[trigger] after.entries()[j].0,
            ) by {
                assert(crate::order::key_le(before.entries()[i].0, before.entries()[j].0));
            }
        }
        val
    }

    #[inline]
    fn first_index_less(&self, key: K) -> (index: u32) {
        proof {
            self.lemma_wf();
        }
        let found = search_key(&self.buffer, key);
        let index = match found {
            Ok(index) => as_index(index),
            Err(index) => {
                if index > 0 {
                    as_index(index - 1)
                } else {
                    EMPTY_REF
                }
            },
        };
        proof {
            self.lemma_at(index);
            let s = self.entries();
            if index != EMPTY_REF {
                let p = self.indices().index_of(index);
                crate::order::lemma_order(s[p].0, key, key);
                assert(crate::order::floor_at(s, key, p));
            }
        }
        index
    }

    #[inline]
    fn first_index_less_by<F>(&self, f: F) -> (index: u32) where F: Fn(K) -> Ordering {
        proof {
            self.lemma_wf();
        }
        let found = search_by(&self.buffer, &f);
        let index = match found {
            Ok(index) => as_index(index),
            Err(index) => {
                if index > 0 {
                    as_index(index - 1)
                } else {
                    EMPTY_REF
                }
            },
        };
        proof {
            self.lemma_at(index);
            let s = self.entries();
            if index != EMPTY_REF {
                let p = self.indices().index_of(index);
                if found is Ok {
                    assert(f.ensures((s[p].0,), Ordering::Equal));
                } else {
                    assert(f.ensures((s[p].0,), Ordering::Less));
                }
                assert(crate::order::floor_by(s, f, p));
            }
        }
        index
    }

    #[inline]
    fn clear(&mut self) {
        self.buffer.clear();
        proof {
            assert(self.entries() =~= Seq::<(K, V)>::empty());
        }
    }
}

} // verus!
