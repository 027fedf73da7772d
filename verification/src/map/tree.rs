use vstd::prelude::*;
use core::cmp::Ordering;
use crate::EMPTY_REF;
use crate::map::sort::MapCollection;
use crate::rb::node::Entity;
use crate::rb::shape::RbTree;

verus! {

/// An ordered map kept as a red-black tree in a table of slots. An entry is
/// reached by the index of its slot.
pub struct MapTree<K, V> {
    pub tree: RbTree<K, V>,
}

impl<K: Copy + Ord + Default, V: Clone + Default> MapTree<K, V> {
    /// An empty map with room for `capacity` entries before its table grows.
    #[inline]
    pub fn new(capacity: usize) -> (map: Self)
        requires
            crate::order::total_order::<K>(),
        ensures
            map.wf(),
            map.entries() == Seq::<(K, V)>::empty(),
            map.tree.root == EMPTY_REF,
            map.tree.slots() == crate::rb::pool::slots_for(capacity),
            map.tree.store.unused@ == crate::rb::pool::descending(1, map.tree.slots() - 1),
    {
        Self { tree: RbTree::new(capacity) }
    }

    /// Where the slot `index` stands in key order.
    pub proof fn lemma_index(&self, index: u32)
        requires
            self.wf(),
        ensures
            self.indices().contains(index) <==> (self.tree.live(index)),
            self.tree.live(index) ==> {
                &&& self.indices().index_of(index) == self.tree.mt(index).pos
                &&& 0 <= self.tree.mt(index).pos < self.tree.count()
                &&& self.entries()[self.tree.mt(index).pos] == (
                    self.tree.nd(index).key(),
                    self.tree.nd(index).val(),
                )
            },
    {
        let s = self.tree.order@;
        if self.tree.live(index) {
            assert(self.tree.slot_ok(index));
            let p = self.tree.mt(index).pos;
            assert(s[p] == index);
            let q = s.index_of(index);
            assert(s[q] == index && 0 <= q < s.len());
            assert(self.tree.mt(s[q]).pos == q);
        }
        if s.contains(index) {
            let q = choose|q: int| 0 <= q < s.len() && s[q] == index;
            assert(self.tree.live(s[q]));
        }
    }
}

impl<K: Copy + Ord + Default, V: Clone + Default> MapCollection<K, V> for MapTree<K, V> {
    open spec fn wf(&self) -> bool {
        self.tree.wf()
    }

    open spec fn entries(&self) -> Seq<(K, V)> {
        self.tree.view()
    }

    open spec fn indices(&self) -> Seq<u32> {
        self.tree.order@
    }

    proof fn lemma_wf(&self) {
        let s = self.tree.order@;
        assert forall|i: int, j: int| 0 <= i < j < self.entries().len() implies crate::order::key_le(
            #[trigger] self.entries()[i].0,
            #[trigger] self.entries()[j].0,
        ) by {
            assert(crate::order::key_le(self.tree.key_at(i), self.tree.key_at(j)));
        }
        assert forall|i: int, j: int| 0 <= i < s.len() && 0 <= j < s.len() && i != j implies s[i] != s[j] by {
            assert(self.tree.mt(s[i]).pos == i);
            assert(self.tree.mt(s[j]).pos == j);
        }
        if s.contains(EMPTY_REF) {
            let q = choose|q: int| 0 <= q < s.len() && s[q] == EMPTY_REF;
            assert(self.tree.live(s[q]));
        }
    }

    #[inline]
    fn is_empty(&self) -> (empty: bool) {
        self.tree.is_empty()
    }

    #[inline]
    fn insert(&mut self, key: K, val: V)
        ensures
            exists|q: int, n: u32|
                {
                    &&& crate::order::insert_point(old(self).entries(), key, q)
                    &&& final(self).entries() == #[trigger] old(self).entries().insert(q, (key, val))
                    &&& final(self).indices() == #[trigger] old(self).indices().insert(q, n)
                },
    {
        self.tree.insert_entity(Entity::new(key, val));
        proof {
            let q = choose|q: int|
                {
                    &&& old(self).tree.fenced(key, q, q, true, false)
                    &&& self.tree.view() == #[trigger] old(self).tree.view().insert(q, (key, val))
                    &&& self.tree.grown(&old(self).tree, q)
                };
            let n = choose|n: u32| self.tree.order@ == #[trigger] old(self).tree.order@.insert(q, n);
            assert(self.indices() == old(self).indices().insert(q, n));
            assert(crate::order::insert_point(old(self).entries(), key, q)) by {
                assert forall|t: int| 0 <= t < q implies crate::order::key_le(
                    #[trigger] old(self).entries()[t].0,
                    key,
                ) by {
                    assert(crate::order::key_le(old(self).tree.key_at(t), key));
                }
                assert forall|t: int| q <= t < old(self).entries().len() implies crate::order::key_lt(
                    key,
                    #[trigger] old(self).entries()[t].0,
                ) by {
                    assert(crate::order::key_lt(key, old(self).tree.key_at(t)));
                }
            }
        }
    }

    #[inline]
    fn delete(&mut self, key: K)
        ensures
            !crate::order::holds_key(old(self).entries(), key) ==> *final(self) == *old(self),
            crate::order::holds_key(old(self).entries(), key) ==> exists|q: int|
                {
                    &&& #[trigger] crate::order::hit(old(self).entries(), key, q)
                    &&& final(self).entries() == old(self).entries().remove(q)
                    &&& final(self).indices() == old(self).indices().remove(
                        if old(self).tree.two_children(old(self).indices()[q]) {
                            q + 1
                        } else {
                            q
                        },
                    )
                },
    {
        let index = self.tree.find_index(key);
        if index != EMPTY_REF {
            proof {
                self.lemma_index(index);
                let q = self.tree.mt(index).pos;
                crate::order::lemma_order(key, self.tree.nd(index).key(), key);
                assert(crate::order::hit(self.entries(), key, q));
            }
            self.tree.delete_index(index);
        } else {
            proof {
                assert forall|t: int| 0 <= t < self.entries().len() implies !crate::order::key_eq(
                    #[trigger] self.entries()[t].0,
                    key,
                ) by {
                    assert(!crate::order::key_eq(key, self.tree.key_at(t)));
                    crate::order::lemma_order(key, self.tree.key_at(t), key);
                }
            }
        }
    }

    #[inline]
    fn delete_by_index(&mut self, index: u32)
        ensures
            final(self).indices() == old(self).indices().remove(
                if old(self).tree.two_children(index) {
                    old(self).indices().index_of(index) + 1
                } else {
                    old(self).indices().index_of(index)
                },
            ),
            old(self).tree.two_children(index) ==> final(self).tree.nd(index).entity == old(self).tree.nd(
                old(self).indices()[old(self).indices().index_of(index) + 1],
            ).entity,
    {
        proof {
            self.lemma_index(index);
        }
        self.tree.delete_index(index);
    }

    #[inline]
    fn get_value(&self, key: K) -> (found: Option<&V>) {
        let found = self.tree.search_value(key);
        proof {
            if found is None {
                assert forall|t: int| 0 <= t < self.entries().len() implies !crate::order::key_eq(
                    #[trigger] self.entries()[t].0,
                    key,
                ) by {
                    assert(!crate::order::key_eq(key, self.tree.key_at(t)));
                    crate::order::lemma_order(key, self.tree.key_at(t), key);
                }
            } else {
                let t = choose|t: int|
                    0 <= t < self.tree.count() && crate::order::key_eq(key, #[trigger] self.tree.key_at(t))
                        && self.tree.val_at(t) == *found->0;
                crate::order::lemma_order(key, self.tree.key_at(t), key);
                assert(crate::order::hit(self.entries(), key, t));
                assert(crate::order::key_eq(self.entries()[t].0, key));
            }
        }
        found
    }

    #[inline]
    fn value_by_index(&self, index: u32) -> (val: &V) {
        proof {
            self.lemma_index(index);
        }
        self.tree.val_of(index)
    }

    #[inline]
    fn value_by_index_mut(&mut self, index: u32) -> (val: &mut V) {
        proof {
            self.lemma_index(index);
        }
        self.tree.val_of_mut(index)
    }

    #[inline]
    fn first_index_less(&self, key: K) -> (index: u32) {
        let index = self.tree.search_first_less(key);
        proof {
            if index == EMPTY_REF {
                assert forall|t: int| 0 <= t < self.entries().len() implies crate::order::key_lt(
                    key,
                    #[trigger] self.entries()[t].0,
                ) by {
                    assert(crate::order::key_lt(key, self.tree.key_at(t)));
                }
            } else {
                self.lemma_index(index);
                let p = self.tree.mt(index).pos;
                crate::order::lemma_order(self.entries()[p].0, key, key);
                if !crate::order::key_eq(self.entries()[p].0, key) {
                    assert forall|t: int| p < t < self.entries().len() implies crate::order::key_lt(
                        key,
                        #[trigger] self.entries()[t].0,
                    ) by {
                        assert(crate::order::key_lt(key, self.tree.key_at(t)));
                    }
                }
                assert(crate::order::floor_at(self.entries(), key, p));
                assert(!crate::order::key_lt(key, self.entries()[p].0));
            }
        }
        index
    }

    #[inline]
    fn first_index_less_by<F>(&self, f: F) -> (index: u32) where F: Fn(K) -> Ordering {
        let index = self.tree.search_first_less_by(f);
        proof {
            if index == EMPTY_REF {
                assert forall|t: int, o: Ordering|
                    0 <= t < self.entries().len() && #[trigger] f.ensures((self.entries()[t].0,), o) implies o
                    == Ordering::Greater by {
                    assert(f.ensures((self.tree.key_at(t),), o));
                }
            } else {
                self.lemma_index(index);
                let p = self.tree.mt(index).pos;
                let s = self.entries();
                let x = choose|x: Ordering|
                    {
                        &&& #[trigger] f.ensures((self.tree.nd(index).key(),), x)
                        &&& x != Ordering::Greater
                        &&& x == Ordering::Equal || forall|t: int, o: Ordering|
                            self.tree.mt(index).pos < t < self.tree.count() && #[trigger] f.ensures(
                                (self.tree.key_at(t),),
                                o,
                            ) ==> o == Ordering::Greater
                    };
                assert(f.ensures((s[p].0,), x));
                if x != Ordering::Equal {
                    assert forall|t: int, o: Ordering|
                        p < t < s.len() && #[trigger] f.ensures((s[t].0,), o) implies o
                        == Ordering::Greater by {
                        assert(f.ensures((self.tree.key_at(t),), o));
                    }
                }
                assert(crate::order::floor_by(s, f, p));
            }
        }
        index
    }

    fn clear(&mut self)
        ensures
            final(self).tree.root == crate::EMPTY_REF,
            final(self).tree.slots() == old(self).tree.slots(),
            final(self).tree.cleared_from(&old(self).tree),
            old(self).tree.root == crate::EMPTY_REF ==> *final(self) == *old(self),
    {
        self.tree.clear();
    }
}

} // verus!
