use vstd::prelude::*;
use core::cmp::Ordering;
use crate::EMPTY_REF;
use crate::order::{is_less, three_way};
use crate::rb::node::Entity;
use crate::rb::pool::{Pool, MAX_SLOTS};
use crate::rb::shape::{Meta, RbTree, NIL_INDEX};

verus! {

impl<K: Ord + Copy, V> RbTree<K, V> {
    /// Every key before position `lo` is below `key` and every key from
    /// position `hi` on is above it; with `ties_left`, keys equal to `key`
    /// may stand before `lo` too, and with `ties_right` from `hi` on.
    pub open spec fn fenced(&self, key: K, lo: int, hi: int, ties_left: bool, ties_right: bool) -> bool {
        &&& 0 <= lo <= hi <= self.count()
        &&& forall|t: int|
            0 <= t < lo ==> if ties_left {
                crate::order::key_le(#[trigger] self.key_at(t), key)
            } else {
                crate::order::key_lt(self.key_at(t), key)
            }
        &&& forall|t: int|
            hi <= t < self.count() ==> if ties_right {
                crate::order::key_le(key, #[trigger] self.key_at(t))
            } else {
                crate::order::key_lt(key, self.key_at(t))
            }
    }

    /// An empty tree with room for `capacity` nodes.
    pub fn new(capacity: usize) -> (tree: Self)
        requires
            crate::order::total_order::<K>(),
        ensures
            tree.wf(),
            tree.view() == Seq::<(K, V)>::empty(),
            tree.root == EMPTY_REF,
            tree.slots() == crate::rb::pool::slots_for(capacity),
            tree.store.unused@ == crate::rb::pool::descending(1, tree.slots() - 1),
    {
        let mut store = Pool::new(capacity);
        let nil_index = store.get_free_index();
        let tree = Self {
            store,
            root: EMPTY_REF,
            meta: Ghost(Seq::new(store.buffer@.len(), |i: int| Meta { live: false, pos: 0, lo: 0, hi: 0, bh: 0 })),
            order: Ghost(Seq::empty()),
        };
        proof {
            assert(nil_index == NIL_INDEX);
            assert forall|i: u32| i < tree.slots() implies #[trigger] tree.slot_ok(i) by {
                assert(crate::rb::pool::is_vacant(tree.store.buffer@[i as int]));
            }
            assert forall|k: int| 0 <= k < tree.store.unused@.len() implies {
                let f = #[trigger] tree.store.unused@[k];
                f != NIL_INDEX && !tree.mt(f).live
            } by {}
            assert(tree.view() =~= Seq::<(K, V)>::empty());
        }
        tree
    }

    #[inline(always)]
    pub fn is_empty(&self) -> (empty: bool)
        requires
            self.wf(),
        ensures
            empty == (self.view().len() == 0),
    {
        proof {
            if self.root != EMPTY_REF {
                assert(self.slot_ok(self.root));
            }
        }
        self.root == EMPTY_REF
    }

    /// The key stored in the node `index`.
    #[inline(always)]
    pub fn key_of(&self, index: u32) -> (key: K)
        requires
            self.structure(),
            self.live(index),
            index != NIL_INDEX,
        ensures
            key == self.nd(index).key(),
            key == self.key_at(self.mt(index).pos),
    {
        proof {
            assert(self.slot_ok(index));
        }
        self.node(index).entity.as_ref().unwrap().key
    }

    /// The value stored in the node `index`.
    #[inline(always)]
    pub fn val_of(&self, index: u32) -> (val: &V)
        requires
            self.structure(),
            self.live(index),
            index != NIL_INDEX,
        ensures
            *val == self.nd(index).val(),
            *val == self.val_at(self.mt(index).pos),
    {
        proof {
            assert(self.slot_ok(index));
        }
        &self.node(index).entity.as_ref().unwrap().val
    }

    /// Going down from the node `n`, whose subtree is fenced for `key`, the
    /// subtree on either side is fenced too once `key` is compared with the
    /// key of `n`.
    pub proof fn lemma_step(&self, key: K, n: u32, ties_left: bool, ties_right: bool)
        requires
            self.wf(),
            self.live(n),
            self.fenced(key, self.mt(n).lo, self.mt(n).hi, ties_left, ties_right),
        ensures
            n != NIL_INDEX,
            crate::order::key_lt(key, self.nd(n).key()) || (ties_right && crate::order::key_le(
                key,
                self.nd(n).key(),
            )) ==> self.fenced(key, self.mt(n).lo, self.mt(n).pos, ties_left, ties_right),
            crate::order::key_lt(self.nd(n).key(), key) || (ties_left && crate::order::key_le(
                self.nd(n).key(),
                key,
            )) ==> self.fenced(key, self.mt(n).pos + 1, self.mt(n).hi, ties_left, ties_right),
            self.nd(n).left != EMPTY_REF ==> self.live(self.nd(n).left) && self.mt(self.nd(n).left).lo
                == self.mt(n).lo && self.mt(self.nd(n).left).hi == self.mt(n).pos,
            self.nd(n).left == EMPTY_REF ==> self.mt(n).lo == self.mt(n).pos,
            self.nd(n).right != EMPTY_REF ==> self.live(self.nd(n).right) && self.mt(self.nd(n).right).lo
                == self.mt(n).pos + 1 && self.mt(self.nd(n).right).hi == self.mt(n).hi,
            self.nd(n).right == EMPTY_REF ==> self.mt(n).pos + 1 == self.mt(n).hi,
            self.nd(n).key() == self.key_at(self.mt(n).pos),
            0 <= self.mt(n).lo <= self.mt(n).pos < self.mt(n).hi <= self.count(),
            self.order@[self.mt(n).pos] == n,
    {
        assert(self.slot_ok(n));
        let p = self.mt(n).pos;
        let nk = self.nd(n).key();
        assert(self.key_at(p) == nk);
        if crate::order::key_lt(key, nk) || (ties_right && crate::order::key_le(key, nk)) {
            assert forall|t: int| p <= t < self.count() implies if ties_right {
                crate::order::key_le(key, #[trigger] self.key_at(t))
            } else {
                crate::order::key_lt(key, self.key_at(t))
            } by {
                if t > p {
                    assert(crate::order::key_le(self.key_at(p), self.key_at(t)));
                }
                crate::order::lemma_order(key, nk, self.key_at(t));
            }
        }
        if crate::order::key_lt(nk, key) || (ties_left && crate::order::key_le(nk, key)) {
            assert forall|t: int| 0 <= t < p + 1 implies if ties_left {
                crate::order::key_le(#[trigger] self.key_at(t), key)
            } else {
                crate::order::key_lt(self.key_at(t), key)
            } by {
                if t < p {
                    assert(crate::order::key_le(self.key_at(t), self.key_at(p)));
                }
                crate::order::lemma_order(self.key_at(t), nk, key);
            }
        }
    }

    /// The whole tree is fenced for every key.
    pub proof fn lemma_start(&self, key: K, ties_left: bool, ties_right: bool)
        requires
            self.wf(),
        ensures
            self.fenced(key, 0, self.count(), ties_left, ties_right),
            self.root != EMPTY_REF ==> self.live(self.root) && self.mt(self.root).lo == 0 && self.mt(
                self.root,
            ).hi == self.count(),
    {
        if self.root != EMPTY_REF {
            assert(self.slot_ok(self.root));
        }
    }

    /// Links `entity` into the tree behind every entry whose key is not
    /// above its own.
    #[inline]
    pub fn insert_entity(&mut self, entity: Entity<K, V>)
        requires
            old(self).wf(),
            old(self).count() + 1 < MAX_SLOTS,
        ensures
            final(self).wf(),
            exists|q: int|
                {
                    &&& old(self).fenced(entity.key, q, q, true, false)
                    &&& final(self).view() == #[trigger] old(self).view().insert(q, (entity.key, entity.val))
                    &&& final(self).grown(old(self), q)
                },
    {
        let mut index = self.root;
        if index == EMPTY_REF {
            self.insert_root(entity);
            proof {
                assert(old(self).fenced(entity.key, 0, 0, true, false));
                assert(self.view() =~= old(self).view().insert(0, (entity.key, entity.val)));
            }
            return ;
        }
        let key = entity.key;
        proof {
            self.lemma_start(key, true, false);
        }

        loop
            invariant
                *self == *old(self),
                self.wf(),
                self.count() + 1 < MAX_SLOTS,
                key == entity.key,
                self.live(index),
                self.fenced(key, self.mt(index).lo, self.mt(index).hi, true, false),
            decreases self.mt(index).hi - self.mt(index).lo,
        {
            let p_index = index;
            proof {
                self.lemma_step(key, index, true, false);
                crate::order::lemma_order(key, self.nd(index).key(), key);
            }
            if is_less(&key, &self.key_of(index)) {
                index = self.node(index).left;
                if index == EMPTY_REF {
                    let ghost q = self.mt(p_index).pos;
                    proof {
                        assert forall|j: int| q <= j < self.count() implies crate::order::key_le(
                            entity.key,
                            #[trigger] self.key_at(j),
                        ) by {
                            crate::order::lemma_order(key, self.key_at(j), key);
                        }
                    }
                    self.insert_as_left(entity, p_index);
                    proof {
                        self.lemma_inserted_at(old(self), q, entity);
                    }
                    return ;
                }
            } else {
                index = self.node(index).right;
                if index == EMPTY_REF {
                    let ghost q = self.mt(p_index).pos + 1;
                    proof {
                        assert forall|j: int| q <= j < self.count() implies crate::order::key_le(
                            entity.key,
                            #[trigger] self.key_at(j),
                        ) by {
                            crate::order::lemma_order(key, self.key_at(j), key);
                        }
                    }
                    self.insert_as_right(entity, p_index);
                    proof {
                        self.lemma_inserted_at(old(self), q, entity);
                    }
                    return ;
                }
            }
        }
    }

    /// The position `q` is a place at which the entity was inserted.
    pub proof fn lemma_inserted_at(&self, before: &Self, q: int, entity: Entity<K, V>)
        requires
            before.fenced(entity.key, q, q, true, false),
            self.view() == before.view().insert(q, (entity.key, entity.val)),
            self.grown(before, q),
        ensures
            exists|q: int|
                {
                    &&& before.fenced(entity.key, q, q, true, false)
                    &&& self.view() == #[trigger] before.view().insert(q, (entity.key, entity.val))
                    &&& self.grown(before, q)
                },
    {
    }

    /// The answers of the probe `f` are settled outside the positions from
    /// `lo` up to `hi`: `Less` before them and `Greater` behind them, or with
    /// `ties_right` anything but `Less`.
    pub open spec fn fenced_by<F: Fn(K) -> Ordering>(&self, f: F, lo: int, hi: int, ties_right: bool) -> bool {
        &&& 0 <= lo <= hi <= self.count()
        &&& forall|t: int, o: Ordering|
            0 <= t < lo && #[trigger] f.ensures((self.key_at(t),), o) ==> o == Ordering::Less
        &&& forall|t: int, o: Ordering|
            hi <= t < self.count() && #[trigger] f.ensures((self.key_at(t),), o) ==> if ties_right {
                o != Ordering::Less
            } else {
                o == Ordering::Greater
            }
    }

    /// The index of a node whose key equals `key`, if there is one.
    #[inline]
    pub fn find_index(&self, key: K) -> (index: u32)
        requires
            self.wf(),
        ensures
            index == EMPTY_REF ==> forall|t: int| 0 <= t < self.count() ==> !crate::order::key_eq(key, #[trigger] self.key_at(t)),
            index != EMPTY_REF ==> self.live(index) && index != NIL_INDEX && crate::order::key_eq(key, self.nd(index).key()),
    {
        let mut index = self.root;
        let ghost mut lo = 0int;
        let ghost mut hi = self.count();
        proof {
            self.lemma_start(key, false, false);
        }

        while index != EMPTY_REF
            invariant
                self.wf(),
                self.fenced(key, lo, hi, false, false),
                index != EMPTY_REF ==> self.live(index) && self.mt(index).lo == lo && self.mt(index).hi == hi,
                index == EMPTY_REF ==> lo == hi,
            decreases hi - lo,
        {
            proof {
                self.lemma_step(key, index, false, false);
            }
            let node_key = self.key_of(index);
            match three_way(&key, &node_key) {
                Ordering::Equal => return index,
                Ordering::Less => {
                    proof {
                        hi = self.mt(index).pos;
                    }
                    index = self.node(index).left;
                },
                Ordering::Greater => {
                    proof {
                        lo = self.mt(index).pos + 1;
                    }
                    index = self.node(index).right;
                },
            }
        }
        proof {
            assert forall|t: int| 0 <= t < self.count() implies !crate::order::key_eq(key, #[trigger] self.key_at(t)) by {
                crate::order::lemma_order(key, self.key_at(t), key);
            }
        }

        EMPTY_REF
    }

    /// The value of a node whose key equals `key`, if there is one.
    #[inline]
    pub fn search_value(&self, key: K) -> (found: Option<&V>)
        requires
            self.wf(),
        ensures
            found is None ==> forall|t: int| 0 <= t < self.count() ==> !crate::order::key_eq(key, #[trigger] self.key_at(t)),
            found is Some ==> exists|t: int|
                0 <= t < self.count() && crate::order::key_eq(key, #[trigger] self.key_at(t)) && self.val_at(t) == *found->0,
    {
        let mut index = self.root;
        let ghost mut lo = 0int;
        let ghost mut hi = self.count();
        proof {
            self.lemma_start(key, false, false);
        }

        while index != EMPTY_REF
            invariant
                self.wf(),
                self.fenced(key, lo, hi, false, false),
                index != EMPTY_REF ==> self.live(index) && self.mt(index).lo == lo && self.mt(index).hi == hi,
                index == EMPTY_REF ==> lo == hi,
            decreases hi - lo,
        {
            proof {
                self.lemma_step(key, index, false, false);
            }
            let node_key = self.key_of(index);
            match three_way(&key, &node_key) {
                Ordering::Equal => {
                    proof {
                        let t = self.mt(index).pos;
                        assert(crate::order::key_eq(key, self.key_at(t)) && self.val_at(t) == self.nd(index).val());
                    }
                    return Some(self.val_of(index));
                },
                Ordering::Less => {
                    proof {
                        hi = self.mt(index).pos;
                    }
                    index = self.node(index).left;
                },
                Ordering::Greater => {
                    proof {
                        lo = self.mt(index).pos + 1;
                    }
                    index = self.node(index).right;
                },
            }
        }
        proof {
            assert forall|t: int| 0 <= t < self.count() implies !crate::order::key_eq(key, #[trigger] self.key_at(t)) by {
                crate::order::lemma_order(key, self.key_at(t), key);
            }
        }

        None
    }

    /// The index of a node whose key equals `key`, or else of the node with
    /// the greatest key below `key`.
    #[inline]
    pub fn search_first_less(&self, key: K) -> (index: u32)
        requires
            self.wf(),
        ensures
            index == EMPTY_REF ==> forall|t: int| 0 <= t < self.count() ==> crate::order::key_lt(key, #[trigger] self.key_at(t)),
            index != EMPTY_REF ==> {
                &&& self.live(index)
                &&& index != NIL_INDEX
                &&& crate::order::key_le(self.nd(index).key(), key)
                &&& crate::order::key_eq(self.nd(index).key(), key) || forall|t: int|
                    self.mt(index).pos < t < self.count() ==> crate::order::key_lt(key, #[trigger] self.key_at(t))
            },
    {
        let mut index = self.root;
        let mut result = EMPTY_REF;
        let ghost mut lo = 0int;
        let ghost mut hi = self.count();
        proof {
            self.lemma_start(key, false, false);
        }
        while index != EMPTY_REF
            invariant
                self.wf(),
                self.fenced(key, lo, hi, false, false),
                index != EMPTY_REF ==> self.live(index) && self.mt(index).lo == lo && self.mt(index).hi == hi,
                index == EMPTY_REF ==> lo == hi,
                lo == 0 ==> result == EMPTY_REF,
                lo > 0 ==> result == self.order@[lo - 1] && self.live(result) && result != NIL_INDEX
                    && self.mt(result).pos == lo - 1,
            decreases hi - lo,
        {
            proof {
                self.lemma_step(key, index, false, false);
                crate::order::lemma_order(key, self.nd(index).key(), key);
            }
            let node_key = self.key_of(index);
            match three_way(&node_key, &key) {
                Ordering::Equal => return index,
                Ordering::Less => {
                    proof {
                        lo = self.mt(index).pos + 1;
                    }
                    result = index;
                    index = self.node(index).right;
                },
                Ordering::Greater => {
                    proof {
                        hi = self.mt(index).pos;
                    }
                    index = self.node(index).left;
                },
            }
        }
        proof {
            if lo > 0 {
                assert(self.slot_ok(result));
                assert(crate::order::key_lt(self.key_at(lo - 1), key));
            }
        }

        result
    }

    /// As `search_first_less`, with the probe `f` in the place of the
    /// comparison with a key.
    #[inline]
    pub fn search_first_less_by<F>(&self, f: F) -> (index: u32) where F: Fn(K) -> Ordering
        requires
            self.wf(),
            crate::order::is_probe(f),
        ensures
            index == EMPTY_REF ==> forall|t: int, o: Ordering|
                0 <= t < self.count() && #[trigger] f.ensures((self.key_at(t),), o) ==> o == Ordering::Greater,
            index != EMPTY_REF ==> {
                &&& self.live(index)
                &&& index != NIL_INDEX
                &&& exists|x: Ordering|
                    {
                        &&& #[trigger] f.ensures((self.nd(index).key(),), x)
                        &&& x != Ordering::Greater
                        &&& x == Ordering::Equal || forall|t: int, o: Ordering|
                            self.mt(index).pos < t < self.count() && #[trigger] f.ensures(
                                (self.key_at(t),),
                                o,
                            ) ==> o == Ordering::Greater
                    }
            },
    {
        let mut index = self.root;
        let mut result = EMPTY_REF;
        let ghost mut lo = 0int;
        let ghost mut hi = self.count();
        proof {
            if self.root != EMPTY_REF {
                assert(self.slot_ok(self.root));
            }
        }
        while index != EMPTY_REF
            invariant
                self.wf(),
                crate::order::is_probe(f),
                self.fenced_by(f, lo, hi, false),
                index != EMPTY_REF ==> self.live(index) && self.mt(index).lo == lo && self.mt(index).hi == hi,
                index == EMPTY_REF ==> lo == hi,
                lo == 0 ==> result == EMPTY_REF,
                lo > 0 ==> result == self.order@[lo - 1] && self.live(result) && result != NIL_INDEX
                    && self.mt(result).pos == lo - 1 && f.ensures((self.nd(result).key(),), Ordering::Less),
            decreases hi - lo,
        {
            proof {
                assert(self.slot_ok(index));
                if self.nd(index).left != EMPTY_REF {
                    assert(self.slot_ok(self.nd(index).left));
                }
                if self.nd(index).right != EMPTY_REF {
                    assert(self.slot_ok(self.nd(index).right));
                }
            }
            let node_key = self.key_of(index);
            let ghost p = self.mt(index).pos;
            match f(node_key) {
                Ordering::Equal => {
                    return index;
                },
                Ordering::Less => {
                    proof {
                        assert forall|t: int, o: Ordering|
                            0 <= t < p + 1 && #[trigger] f.ensures((self.key_at(t),), o) implies o
                            == Ordering::Less by {
                            if t < p {
                                assert(crate::order::key_le(self.key_at(t), self.key_at(p)));
                            } else {
                                crate::order::lemma_order(node_key, node_key, node_key);
                            }
                            assert(f.ensures((self.key_at(p),), Ordering::Less));
                        }
                        lo = p + 1;
                    }
                    result = index;
                    index = self.node(index).right;
                },
                Ordering::Greater => {
                    proof {
                        assert forall|t: int, o: Ordering|
                            p <= t < self.count() && #[trigger] f.ensures((self.key_at(t),), o) implies o
                            == Ordering::Greater by {
                            if t > p {
                                assert(crate::order::key_le(self.key_at(p), self.key_at(t)));
                            } else {
                                crate::order::lemma_order(node_key, node_key, node_key);
                            }
                            assert(f.ensures((self.key_at(p),), Ordering::Greater));
                        }
                        hi = p;
                    }
                    index = self.node(index).left;
                },
            }
        }
        proof {
            if lo > 0 {
                assert(self.slot_ok(result));
            }
        }

        result
    }
}

impl<K: Ord + Copy, V> RbTree<K, V> {
    /// `self` is `before` but for the value stored in the node `index`.
    pub open spec fn value_set(&self, before: &Self, index: u32, val: V) -> bool {
        self.same_but(
            before,
            index,
            (crate::rb::node::Node {
                entity: Some(Entity { key: before.nd(index).key(), val }),
                ..before.nd(index)
            }),
        )
    }

    /// Storing another value in a node leaves the tree well formed and
    /// changes one entry.
    pub proof fn lemma_value_set(&self, before: &Self, index: u32, val: V)
        requires
            before.wf(),
            before.live(index),
            self.value_set(before, index, val),
        ensures
            self.wf(),
            self.order@ == before.order@,
            self.view() == before.view().update(before.mt(index).pos, (before.nd(index).key(), val)),
    {
        assert(before.slot_ok(index));
        assert(self.store.wf());
        assert forall|i: u32| i < self.slots() implies #[trigger] self.slot_ok(i) by {
            assert(before.slot_ok(i));
        }
        assert forall|q: int| 0 <= q < self.count() implies {
            let n = #[trigger] self.order@[q];
            n != NIL_INDEX && self.live(n) && self.mt(n).pos == q
        } by {
            let n = before.order@[q];
            assert(n != NIL_INDEX && before.live(n) && before.mt(n).pos == q);
        }
        assert forall|k: int| 0 <= k < self.store.unused@.len() implies {
            let f = #[trigger] self.store.unused@[k];
            f != NIL_INDEX && !self.mt(f).live
        } by {
            let f = before.store.unused@[k];
            assert(f != NIL_INDEX && !before.mt(f).live);
        }
        assert forall|q: int| 0 <= q < self.count() implies self.key_at(q) == before.key_at(q) && self.val_at(
            q,
        ) == (if q == before.mt(index).pos {
            val
        } else {
            before.val_at(q)
        }) by {
            let n = before.order@[q];
            assert(n != NIL_INDEX && before.live(n) && before.mt(n).pos == q);
        }
        assert forall|i: int, j: int| 0 <= i < j < self.count() implies crate::order::key_le(
            #[trigger] self.key_at(i),
            #[trigger] self.key_at(j),
        ) by {
            assert(crate::order::key_le(before.key_at(i), before.key_at(j)));
        }
        assert forall|i: u32| self.live(i) implies #[trigger] self.bal_ok(i, EMPTY_REF, EMPTY_REF) by {
            assert(before.live(i));
            assert(before.slot_ok(i));
            assert(before.bal_ok(i, EMPTY_REF, EMPTY_REF));
            let nl = before.nd(i).left;
            let nr = before.nd(i).right;
            if nl != EMPTY_REF {
                assert(self.nd(nl).color == before.nd(nl).color);
            }
            if nr != EMPTY_REF {
                assert(self.nd(nr).color == before.nd(nr).color);
            }
        }
        assert(self.view() =~= before.view().update(before.mt(index).pos, (before.nd(index).key(), val)));
    }

    /// The value stored in the node `index`, for writing.
    #[inline(always)]
    pub fn val_of_mut(&mut self, index: u32) -> (val: &mut V)
        requires
            old(self).wf(),
            old(self).live(index),
        ensures
            *val == old(self).nd(index).val(),
            final(self).value_set(old(self), index, *final(val)),
            final(self).wf(),
            final(self).view() == old(self).view().update(
                old(self).mt(index).pos,
                (old(self).nd(index).key(), *final(val)),
            ),
    {
        proof {
            assert(self.slot_ok(index));
        }
        let ghost before = *self;
        let ghost after = *final(self);
        let val = match &mut self.store.buffer[index as usize].entity {
            Some(entity) => &mut entity.val,
            None => unreached(),
        };
        proof {
            assert(after.store.buffer@ =~= before.store.buffer@.update(
                index as int,
                (crate::rb::node::Node {
                    entity: Some(Entity { key: before.nd(index).key(), val: *final(val) }),
                    ..before.nd(index)
                }),
            ));
            after.lemma_value_set(&before, index, *final(val));
        }
        val
    }
}

} // verus!
