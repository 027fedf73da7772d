use vstd::prelude::*;
use core::cmp::Ordering;
use core::marker::PhantomData;
use crate::{Expiration, ExpiredKey, EMPTY_REF};
use crate::order::is_less;
use crate::rb::node::Entity;
use crate::rb::pool::MAX_SLOTS;
use crate::rb::shape::{RbTree, NIL_INDEX};

verus! {

/// An ordered map whose keys expire, kept as a red-black tree in a table of
/// slots. On its way down the tree an operation deletes the expired nodes it
/// meets; an expired node off the way stays until an operation passes it.
pub struct KeyExpTree<K, E, V> {
    pub tree: RbTree<K, V>,
    pub phantom_data: PhantomData<E>,
}

/// The first `n` entries of `a` are those of `b`.
pub open spec fn same_head<T>(a: Seq<T>, b: Seq<T>, n: int) -> bool {
    &&& 0 <= n <= a.len()
    &&& n <= b.len()
    &&& forall|t: int| 0 <= t < n ==> #[trigger] a[t] == b[t]
}

/// The entries of `a` from position `i` on are those of `b` from `j` on.
pub open spec fn same_tail<T>(a: Seq<T>, b: Seq<T>, i: int, j: int) -> bool {
    &&& 0 <= i <= a.len()
    &&& 0 <= j <= b.len()
    &&& a.len() - i == b.len() - j
    &&& forall|t: int| 0 <= t < a.len() - i ==> #[trigger] a[i + t] == b[j + t]
}

impl<K: ExpiredKey<E>, E: Expiration, V: Copy> KeyExpTree<K, E, V> {
    pub open spec fn inv(&self) -> bool {
        &&& self.tree.wf()
        &&& crate::order::total_order::<E>()
        &&& crate::keys_timed::<K, E>()
    }

    pub open spec fn seq(&self) -> Seq<(K, V)> {
        self.tree.view()
    }

    /// An empty map with room for `capacity` entries before its table grows.
    #[inline]
    pub fn new(capacity: usize) -> (map: Self)
        requires
            crate::order::total_order::<K>(),
            crate::order::total_order::<E>(),
            crate::keys_timed::<K, E>(),
        ensures
            map.inv(),
            map.seq() == Seq::<(K, V)>::empty(),
            map.tree.root == EMPTY_REF,
            map.tree.slots() == crate::rb::pool::slots_for(capacity),
            map.tree.store.unused@ == crate::rb::pool::descending(1, map.tree.slots() - 1),
    {
        Self { tree: RbTree::new(capacity), phantom_data: PhantomData }
    }

    /// Whether the key of the node `index` is expired at `time`.
    #[inline(always)]
    pub fn is_expired(&self, index: u32, time: E) -> (gone: bool)
        requires
            self.inv(),
            self.tree.live(index),
        ensures
            gone == crate::key::exp::expired(self.tree.nd(index).key(), time),
            index != NIL_INDEX,
    {
        proof {
            assert(self.tree.slot_ok(index));
            assert(self.tree.slot_ok(NIL_INDEX));
            crate::order::lemma_order(crate::key_time(self.tree.nd(index).key()), time, time);
        }
        let key = self.tree.key_of(index);
        !is_less(&time, &crate::expiration_of_key(&key))
    }

    /// Deleting the expired node `index` is an eviction.
    pub proof fn lemma_evicted(&self, before: &Self, index: u32, time: E)
        requires
            before.inv(),
            before.tree.live(index),
            crate::key::exp::expired(before.tree.nd(index).key(), time),
            self.seq() == before.seq().remove(before.tree.mt(index).pos),
        ensures
            crate::key::exp::evicts_to(before.seq(), self.seq(), time),
            0 <= before.tree.mt(index).pos < before.seq().len(),
    {
        assert(before.tree.slot_ok(index));
        assert(before.tree.slot_ok(NIL_INDEX));
        let q = before.tree.mt(index).pos;
        assert(before.seq()[q].0 == before.tree.nd(index).key());
        crate::key::exp::lemma_evict_one(before.seq(), q, time);
    }

    /// The root once every expired root was deleted.
    #[inline]
    pub fn expire_root(&mut self, time: E) -> (index: u32)
        requires
            old(self).inv(),
        ensures
            final(self).inv(),
            crate::key::exp::evicts_to(old(self).seq(), final(self).seq(), time),
            index == final(self).tree.root,
            index != EMPTY_REF ==> final(self).tree.live(index) && !crate::key::exp::expired(
                final(self).tree.nd(index).key(),
                time,
            ),
    {
        let mut index = self.tree.root;
        proof {
            crate::key::exp::lemma_evict_none(self.seq(), time);
        }

        while index != EMPTY_REF
            invariant
                self.inv(),
                crate::key::exp::evicts_to(old(self).seq(), self.seq(), time),
                index == self.tree.root,
            decreases self.tree.count(),
        {
            proof {
                assert(self.tree.slot_ok(index));
            }
            if !self.is_expired(index, time) {
                return index;
            }
            let ghost before = *self;
            self.tree.delete_index(index);
            proof {
                self.lemma_evicted(&before, index, time);
                crate::key::exp::lemma_evict_more(old(self).seq(), before.seq(), self.seq(), time);
            }
            index = self.tree.root;
        }
        index
    }

    /// The left child of `n_index` once every expired left child was
    /// deleted.
    #[inline]
    pub fn expire_left(&mut self, n_index: u32, time: E) -> (index: u32)
        requires
            old(self).inv(),
            old(self).tree.live(n_index),
        ensures
            final(self).inv(),
            crate::key::exp::evicts_to(old(self).seq(), final(self).seq(), time),
            final(self).tree.live(n_index),
            final(self).tree.nd(n_index).entity == old(self).tree.nd(n_index).entity,
            index == final(self).tree.nd(n_index).left,
            index != EMPTY_REF ==> final(self).tree.live(index) && !crate::key::exp::expired(
                final(self).tree.nd(index).key(),
                time,
            ),
            final(self).tree.mt(n_index).lo == old(self).tree.mt(n_index).lo,
            final(self).tree.mt(n_index).pos <= old(self).tree.mt(n_index).pos,
            same_head(final(self).seq(), old(self).seq(), old(self).tree.mt(n_index).lo),
    {
        proof {
            assert(self.tree.slot_ok(n_index));
            assert(self.tree.slot_ok(NIL_INDEX));
            crate::key::exp::lemma_evict_none(self.seq(), time);
        }
        let mut index = self.tree.node(n_index).left;

        while index != EMPTY_REF
            invariant
                self.inv(),
                crate::key::exp::evicts_to(old(self).seq(), self.seq(), time),
                self.tree.live(n_index),
                n_index != NIL_INDEX,
                self.tree.nd(n_index).entity == old(self).tree.nd(n_index).entity,
                index == self.tree.nd(n_index).left,
                self.tree.mt(n_index).lo == old(self).tree.mt(n_index).lo,
                self.tree.mt(n_index).pos <= old(self).tree.mt(n_index).pos,
                same_head(self.seq(), old(self).seq(), old(self).tree.mt(n_index).lo),
            decreases self.tree.count(),
        {
            proof {
                assert(self.tree.slot_ok(n_index));
                assert(self.tree.slot_ok(index));
            }
            if !self.is_expired(index, time) {
                return index;
            }
            let ghost before = *self;
            self.tree.delete_index(index);
            proof {
                self.lemma_evicted(&before, index, time);
                crate::key::exp::lemma_evict_more(old(self).seq(), before.seq(), self.seq(), time);
                assert(self.tree.slot_ok(n_index));
            }
            index = self.tree.node(n_index).left;
        }
        index
    }

    /// The right child of `n_index` once every expired right child was
    /// deleted.
    #[inline]
    pub fn expire_right(&mut self, n_index: u32, time: E) -> (index: u32)
        requires
            old(self).inv(),
            old(self).tree.live(n_index),
        ensures
            final(self).inv(),
            crate::key::exp::evicts_to(old(self).seq(), final(self).seq(), time),
            final(self).tree.live(n_index),
            final(self).tree.nd(n_index).entity == old(self).tree.nd(n_index).entity,
            index == final(self).tree.nd(n_index).right,
            index != EMPTY_REF ==> final(self).tree.live(index) && !crate::key::exp::expired(
                final(self).tree.nd(index).key(),
                time,
            ),
            final(self).tree.mt(n_index).pos == old(self).tree.mt(n_index).pos,
            final(self).tree.mt(n_index).hi <= old(self).tree.mt(n_index).hi,
            same_head(final(self).seq(), old(self).seq(), old(self).tree.mt(n_index).pos + 1),
            same_tail(
                final(self).seq(),
                old(self).seq(),
                final(self).tree.mt(n_index).hi,
                old(self).tree.mt(n_index).hi,
            ),
    {
        proof {
            assert(self.tree.slot_ok(n_index));
            assert(self.tree.slot_ok(NIL_INDEX));
            crate::key::exp::lemma_evict_none(self.seq(), time);
        }
        let mut index = self.tree.node(n_index).right;

        while index != EMPTY_REF
            invariant
                self.inv(),
                crate::key::exp::evicts_to(old(self).seq(), self.seq(), time),
                self.tree.live(n_index),
                n_index != NIL_INDEX,
                self.tree.nd(n_index).entity == old(self).tree.nd(n_index).entity,
                index == self.tree.nd(n_index).right,
                self.tree.mt(n_index).pos == old(self).tree.mt(n_index).pos,
                self.tree.mt(n_index).hi <= old(self).tree.mt(n_index).hi,
                same_head(self.seq(), old(self).seq(), old(self).tree.mt(n_index).pos + 1),
                same_tail(self.seq(), old(self).seq(), self.tree.mt(n_index).hi, old(self).tree.mt(n_index).hi),
            decreases self.tree.count(),
        {
            proof {
                assert(self.tree.slot_ok(n_index));
                assert(self.tree.slot_ok(index));
            }
            if !self.is_expired(index, time) {
                return index;
            }
            let ghost before = *self;
            self.tree.delete_index(index);
            proof {
                self.lemma_evicted(&before, index, time);
                crate::key::exp::lemma_evict_more(old(self).seq(), before.seq(), self.seq(), time);
                assert(self.tree.slot_ok(n_index));
                let q = before.tree.mt(index).pos;
                let hi0 = old(self).tree.mt(n_index).hi;
                let hi1 = before.tree.mt(n_index).hi;
                let hi2 = self.tree.mt(n_index).hi;
                assert forall|t: int| 0 <= t < self.seq().len() - hi2 implies #[trigger] self.seq()[hi2 + t]
                    == old(self).seq()[hi0 + t] by {
                    assert(self.seq()[hi2 + t] == before.seq()[hi1 + t]);
                }
            }
            index = self.tree.node(n_index).right;
        }
        index
    }

    /// Makes the table hold at least `capacity` slots, or as many as it can.
    #[inline]
    pub fn reserve_capacity(&mut self, capacity: usize)
        requires
            old(self).inv(),
        ensures
            final(self).inv(),
            final(self).seq() == old(self).seq(),
            final(self).tree.root == old(self).tree.root,
            final(self).tree.order@ == old(self).tree.order@,
            final(self).tree.slots() == if capacity <= old(self).tree.slots() {
                old(self).tree.slots() as int
            } else if capacity <= MAX_SLOTS {
                capacity as int
            } else {
                MAX_SLOTS as int
            },
            final(self).tree.store.grown_from(
                old(self).tree.store,
                final(self).tree.slots() - old(self).tree.slots(),
            ),
            capacity <= old(self).tree.slots() ==> *final(self) == *old(self),
    {
        let have = self.tree.slot_count();
        let additional = if capacity > have {
            capacity - have
        } else {
            0
        };
        if additional > 0 {
            self.tree.reserve(additional)
        } else {
            proof {
                let store = self.tree.store;
                assert(store.buffer@.subrange(0, store.buffer@.len() as int) =~= store.buffer@);
                assert(store.unused@ + crate::rb::pool::descending(store.buffer@.len() as int, 0) =~= store.unused@);
            }
        }
    }
}

impl<K: ExpiredKey<E>, E: Expiration, V: Copy> crate::key::exp::KeyExpCollection<K, E, V> for KeyExpTree<
    K,
    E,
    V,
> {
    open spec fn wf(&self) -> bool {
        self.inv()
    }

    open spec fn entries(&self) -> Seq<(K, V)> {
        self.tree.view()
    }

    proof fn lemma_wf(&self) {
        assert forall|i: int, j: int| 0 <= i < j < self.entries().len() implies crate::order::key_le(
            #[trigger] self.entries()[i].0,
            #[trigger] self.entries()[j].0,
        ) by {
            assert(crate::order::key_le(self.tree.key_at(i), self.tree.key_at(j)));
        }
    }

    #[inline(always)]
    fn is_empty(&self) -> (empty: bool) {
        self.tree.is_empty()
    }

    #[inline(always)]
    fn insert(&mut self, key: K, val: V, time: E) {
        self.insert_entity(Entity::new(key, val), time);
    }

    #[inline(always)]
    fn get_value(&mut self, time: E, key: K) -> (found: Option<V>) {
        self.search_value(time, key)
    }

    #[inline]
    fn first_less(&mut self, time: E, default: V, key: K) -> (val: V) {
        self.search_first_less(time, default, key)
    }

    fn first_less_by<F>(&mut self, time: E, default: V, f: F) -> (val: V) where F: Fn(K) -> Ordering {
        self.search_first_less_by(time, default, f)
    }

    #[inline]
    fn first_less_or_equal(&mut self, time: E, default: V, key: K) -> (val: V) {
        self.search_first_less_or_equal(time, default, key)
    }

    #[inline]
    fn first_less_or_equal_by<F>(&mut self, time: E, default: V, f: F) -> (val: V) where F: Fn(K) -> Ordering {
        self.search_first_less_or_equal_by(time, default, f)
    }

    fn clear(&mut self)
        ensures
            final(self).tree.root == crate::EMPTY_REF,
            final(self).tree.slots() == old(self).tree.slots(),
            final(self).tree.cleared_from(&old(self).tree),
            old(self).tree.root == crate::EMPTY_REF ==> *final(self) == *old(self),
    {
        self.tree.clear();
    }
}

} // verus!
