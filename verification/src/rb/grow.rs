use vstd::prelude::*;
use crate::EMPTY_REF;
use crate::rb::node::{Color, Entity, Node};
use crate::rb::pool::MAX_SLOTS;
use crate::rb::shape::{Meta, RbTree, NIL_INDEX};

verus! {

/// The slot of a node that has just been linked in without children.
pub open spec fn leaf_slot<K, V>(parent: u32, color: Color, entity: Entity<K, V>) -> Node<K, V> {
    Node { parent, left: EMPTY_REF, right: EMPTY_REF, color, entity: Some(entity) }
}

impl<K: Ord, V> RbTree<K, V> {
    /// `self` is `before` after the free slot `new` was taken and filled with
    /// `slot`. The slot is not yet part of the tree.
    pub open spec fn acquired(&self, before: &Self, new: u32, slot: Node<K, V>) -> bool {
        &&& self.store.wf()
        &&& before.slots() <= self.slots()
        &&& new != NIL_INDEX
        &&& new < self.slots()
        &&& new < before.slots() ==> !before.mt(new).live
        &&& self.root == before.root
        &&& self.order@ == before.order@
        &&& self.meta@.len() == self.slots()
        &&& self.store.unused@.len() + 1 + before.slots() == before.store.unused@.len() + self.slots()
        &&& forall|k: int|
            0 <= k < self.store.unused@.len() ==> {
                let f = #[trigger] self.store.unused@[k];
                f != NIL_INDEX && f != new && (f < before.slots() ==> !before.mt(f).live)
            }
        &&& self.nd(new) == slot
        &&& forall|i: u32|
            i < self.slots() && i != new ==> if i < before.slots() {
                (#[trigger] self.nd(i)) == before.nd(i)
            } else {
                crate::rb::pool::is_vacant(self.nd(i))
            }
        &&& forall|i: u32|
            i < self.slots() ==> if i < before.slots() {
                (#[trigger] self.mt(i)) == before.mt(i)
            } else {
                !self.mt(i).live
            }
    }

    /// `self` is `before` with the red leaf `new` linked under `p`, as its
    /// left child if `left` and as its right child otherwise.
    pub open spec fn leaf_added(&self, before: &Self, p: u32, left: bool, new: u32, entity: Entity<K, V>) -> bool {
        let q = if left {
            before.mt(p).pos
        } else {
            before.mt(p).pos + 1
        };
        &&& self.store.wf()
        &&& before.slots() <= self.slots()
        &&& new != NIL_INDEX
        &&& new < self.slots()
        &&& new < before.slots() ==> !before.mt(new).live
        &&& self.root == before.root
        &&& self.order@ == before.order@.insert(q, new)
        &&& self.meta@.len() == self.slots()
        &&& self.store.unused@.len() + 1 + before.slots() == before.store.unused@.len() + self.slots()
        &&& forall|k: int|
            0 <= k < self.store.unused@.len() ==> {
                let f = #[trigger] self.store.unused@[k];
                f != NIL_INDEX && f != new && (f < before.slots() ==> !before.mt(f).live)
            }
        &&& self.nd(new) == leaf_slot(p, Color::Red, entity)
        &&& self.nd(p) == if left {
            Node { left: new, ..before.nd(p) }
        } else {
            Node { right: new, ..before.nd(p) }
        }
        &&& forall|i: u32|
            i < self.slots() && i != new && i != p ==> if i < before.slots() {
                (#[trigger] self.nd(i)) == before.nd(i)
            } else {
                crate::rb::pool::is_vacant(self.nd(i))
            }
        &&& self.mt(new) == (Meta { live: true, pos: q, lo: q, hi: q + 1, bh: 0 })
        &&& forall|i: u32|
            i < self.slots() && i != new ==> if i < before.slots() {
                (#[trigger] self.mt(i)) == crate::rb::insert::shifted_up(before.mt(i), q, left)
            } else {
                !self.mt(i).live
            }
    }

    /// Linking a red leaf at the place where its key belongs keeps the
    /// structure and the key order; only the leaf may stand under a red node.
    pub proof fn lemma_leaf_added(&self, before: &Self, p: u32, left: bool, new: u32, entity: Entity<K, V>)
        requires
            before.structure(),
            before.keys_sorted(),
            before.balanced(EMPTY_REF, EMPTY_REF),
            !before.mt(NIL_INDEX).live,
            before.live(p),
            left ==> before.nd(p).left == EMPTY_REF,
            !left ==> before.nd(p).right == EMPTY_REF,
            self.leaf_added(before, p, left, new, entity),
            ({
                let q = if left {
                    before.mt(p).pos
                } else {
                    before.mt(p).pos + 1
                };
                &&& forall|j: int| 0 <= j < q ==> crate::order::key_le(#[trigger] before.key_at(j), entity.key)
                &&& forall|j: int| q <= j < before.count() ==> crate::order::key_le(entity.key, #[trigger] before.key_at(j))
            }),
        ensures
            self.structure(),
            self.keys_sorted(),
            self.balanced(EMPTY_REF, new),
            !self.mt(NIL_INDEX).live,
            before.counted() ==> self.counted(),
            self.view() == before.view().insert(
                if left {
                    before.mt(p).pos
                } else {
                    before.mt(p).pos + 1
                },
                (entity.key, entity.val),
            ),
    {
        let q = if left {
            before.mt(p).pos
        } else {
            before.mt(p).pos + 1
        };
        assert(before.slot_ok(p));
        assert(before.bal_ok(p, EMPTY_REF, EMPTY_REF));
        assert(0 <= q <= before.count());
        assert(self.count() == before.count() + 1);
        assert forall|t: int| 0 <= t < self.count() implies {
            let n = #[trigger] self.order@[t];
            n != NIL_INDEX && self.live(n) && self.mt(n).pos == t
        } by {
            if t < q {
                let n = before.order@[t];
                assert(n != NIL_INDEX && before.live(n) && before.mt(n).pos == t);
            } else if t > q {
                let n = before.order@[t - 1];
                assert(n != NIL_INDEX && before.live(n) && before.mt(n).pos == t - 1);
            }
        }
        assert(self.slot_ok(new));
        assert forall|i: u32| i < self.slots() implies #[trigger] self.slot_ok(i) by {
            if i != new {
                if i < before.slots() {
                    assert(before.slot_ok(i));
                    if before.mt(i).live {
                        let m = before.mt(i);
                        let nl = before.nd(i).left;
                        let nr = before.nd(i).right;
                        let np = before.nd(i).parent;
                        assert(before.order@[m.pos] == i);
                        assert(before.order@[before.mt(p).pos] == p);
                        assert(self.order@[self.mt(i).pos] == i);
                        if nl != EMPTY_REF {
                            assert(before.slot_ok(nl));
                        }
                        if nr != EMPTY_REF {
                            assert(before.slot_ok(nr));
                        }
                        if np != EMPTY_REF {
                            assert(before.slot_ok(np));
                        }
                        assert(self.link_ok(self.nd(i).left, i, self.mt(i).lo, self.mt(i).pos));
                        assert(self.link_ok(self.nd(i).right, i, self.mt(i).pos + 1, self.mt(i).hi));
                    }
                }
            }
        }
        assert forall|k: int| 0 <= k < self.store.unused@.len() implies {
            let f = #[trigger] self.store.unused@[k];
            f != NIL_INDEX && !self.mt(f).live
        } by {}
        assert forall|t: int| 0 <= t < self.count() implies #[trigger] self.key_at(t) == (if t < q {
            before.key_at(t)
        } else if t == q {
            entity.key
        } else {
            before.key_at(t - 1)
        }) && self.val_at(t) == (if t < q {
            before.val_at(t)
        } else if t == q {
            entity.val
        } else {
            before.val_at(t - 1)
        }) by {
            if t < q {
                let n = before.order@[t];
                assert(n != NIL_INDEX && before.live(n) && before.mt(n).pos == t);
            } else if t > q {
                let n = before.order@[t - 1];
                assert(n != NIL_INDEX && before.live(n) && before.mt(n).pos == t - 1);
            }
        }
        assert forall|i: int, j: int| 0 <= i < j < self.count() implies crate::order::key_le(
            #[trigger] self.key_at(i),
            #[trigger] self.key_at(j),
        ) by {
            if j < q {
                assert(crate::order::key_le(before.key_at(i), before.key_at(j)));
            } else if j == q {
                assert(crate::order::key_le(before.key_at(i), entity.key));
            } else if i < q {
                assert(crate::order::key_le(before.key_at(i), before.key_at(j - 1)));
            } else if i == q {
                assert(crate::order::key_le(entity.key, before.key_at(j - 1)));
            } else {
                assert(crate::order::key_le(before.key_at(i - 1), before.key_at(j - 1)));
            }
        }
        assert forall|i: u32| self.live(i) implies #[trigger] self.bal_ok(i, EMPTY_REF, new) by {
            if i != new {
                assert(before.live(i));
                assert(before.slot_ok(i));
                assert(before.bal_ok(i, EMPTY_REF, EMPTY_REF));
                let nl = before.nd(i).left;
                let nr = before.nd(i).right;
                if nl != EMPTY_REF {
                    assert(before.slot_ok(nl));
                }
                if nr != EMPTY_REF {
                    assert(before.slot_ok(nr));
                }
            }
        }
        assert(self.view() =~= before.view().insert(q, (entity.key, entity.val)));
    }

    /// Takes a free slot and fills it with a red leaf under `p_index`.
    #[inline]
    pub fn insert_new(&mut self, entity: Entity<K, V>, p_index: u32, color: Color) -> (new_index: u32)
        requires
            old(self).structure(),
            old(self).counted(),
            old(self).count() + 1 < MAX_SLOTS,
        ensures
            final(self).acquired(old(self), new_index, leaf_slot(p_index, color, entity)),
    {
        let new_index = self.store.get_free_index();
        proof {
            let before = old(self);
            let n = before.slots();
            self.meta@ = Seq::new(
                self.slots() as nat,
                |i: int|
                    if i < n {
                        before.meta@[i]
                    } else {
                        Meta { live: false, pos: 0, lo: 0, hi: 0, bh: 0 }
                    },
            );
            if before.store.unused@.len() > 0 {
                let f = before.store.unused@[before.store.unused@.len() - 1];
                assert(f != NIL_INDEX && !before.mt(f).live);
                assert forall|k: int| 0 <= k < self.store.unused@.len() implies {
                    let f = #[trigger] self.store.unused@[k];
                    f != NIL_INDEX && f != new_index && (f < before.slots() ==> !before.mt(f).live)
                } by {
                    let f = before.store.unused@[k];
                    assert(f != NIL_INDEX && !before.mt(f).live);
                }
                assert forall|i: u32| i < self.slots() && i != new_index implies #[trigger] self.nd(i)
                    == before.nd(i) by {}
            } else {
                assert forall|i: u32| i < self.slots() && i != new_index implies if i < before.slots() {
                    (#[trigger] self.nd(i)) == before.nd(i)
                } else {
                    crate::rb::pool::is_vacant(self.nd(i))
                } by {
                    if i < before.slots() {
                        assert(self.store.buffer@.subrange(0, n)[i as int] == self.store.buffer@[i as int]);
                    }
                }
            }
        }
        let ghost mid = *self;
        self.set_node(
            new_index,
            Node { parent: p_index, left: EMPTY_REF, right: EMPTY_REF, color, entity: Some(entity) },
        );
        proof {
            assert forall|i: u32| i < self.slots() && i != new_index implies self.nd(i) == mid.nd(i) by {}
        }
        new_index
    }

    /// One node came into the key order at the position `q`; the nodes that
    /// stood there kept their slots.
    pub open spec fn grown(&self, before: &Self, q: int) -> bool {
        exists|n: u32| self.order@ == #[trigger] before.order@.insert(q, n)
    }

    /// Links `entity` as the left child of `p_index`, which has none.
    #[inline]
    pub fn insert_as_left(&mut self, entity: Entity<K, V>, p_index: u32)
        requires
            old(self).wf(),
            old(self).count() + 1 < MAX_SLOTS,
            old(self).live(p_index),
            old(self).nd(p_index).left == EMPTY_REF,
            forall|j: int|
                0 <= j < old(self).mt(p_index).pos ==> crate::order::key_le(#[trigger] old(self).key_at(j), entity.key),
            forall|j: int|
                old(self).mt(p_index).pos <= j < old(self).count() ==> crate::order::key_le(
                    entity.key,
                    #[trigger] old(self).key_at(j),
                ),
        ensures
            final(self).structure(),
            final(self).counted(),
            final(self).keys_sorted(),
            final(self).balanced(EMPTY_REF, EMPTY_REF),
            !final(self).mt(NIL_INDEX).live,
            final(self).root != EMPTY_REF ==> final(self).nd(final(self).root).is_black(),
            final(self).view() == old(self).view().insert(old(self).mt(p_index).pos, (entity.key, entity.val)),
            final(self).grown(old(self), old(self).mt(p_index).pos),
    {
        let ghost q = self.mt(p_index).pos;
        let new_index = self.insert_new(entity, p_index, Color::Red);
        let ghost mid = *self;
        self.set_left(p_index, new_index);
        proof {
            let before = old(self);
            assert(before.slot_ok(p_index));
            self.order@ = before.order@.insert(q, new_index);
            self.meta@ = Seq::new(
                self.slots() as nat,
                |i: int|
                    if i == new_index {
                        Meta { live: true, pos: q, lo: q, hi: q + 1, bh: 0 }
                    } else {
                        crate::rb::insert::shifted_up(mid.meta@[i], q, true)
                    },
            );
            assert forall|i: u32| i < self.slots() implies self.mt(i) == (if i == new_index {
                Meta { live: true, pos: q, lo: q, hi: q + 1, bh: 0 }
            } else {
                crate::rb::insert::shifted_up(mid.mt(i), q, true)
            }) by {}
            assert forall|i: u32| i < self.slots() && i != new_index && i != p_index implies if i
                < before.slots() {
                self.nd(i) == before.nd(i)
            } else {
                crate::rb::pool::is_vacant(self.nd(i))
            } by {
                assert(self.nd(i) == mid.nd(i));
            }
            assert(self.leaf_added(before, p_index, true, new_index, entity));
            self.lemma_leaf_added(before, p_index, true, new_index, entity);
            assert(self.slot_ok(new_index));
            assert(self.slot_ok(p_index));
        }
        let ghost added = self.order@;
        if self.node(p_index).color == Color::Red {
            let ghost linked = *self;
            self.fix_red_black_properties_after_insert(new_index, p_index);
            proof {
                self.lemma_entries_kept(&linked);
            }
        } else {
            proof {
                self.lemma_twin_settled(new_index);
                assert(old(self).slot_ok(old(self).root));
                assert(self.nd(self.root).color == old(self).nd(old(self).root).color);
            }
        }
        proof {
            assert(self.order@ == added);
        }
    }

    /// Links `entity` as the right child of `p_index`, which has none.
    #[inline]
    pub fn insert_as_right(&mut self, entity: Entity<K, V>, p_index: u32)
        requires
            old(self).wf(),
            old(self).count() + 1 < MAX_SLOTS,
            old(self).live(p_index),
            old(self).nd(p_index).right == EMPTY_REF,
            forall|j: int|
                0 <= j <= old(self).mt(p_index).pos ==> crate::order::key_le(#[trigger] old(self).key_at(j), entity.key),
            forall|j: int|
                old(self).mt(p_index).pos < j < old(self).count() ==> crate::order::key_le(
                    entity.key,
                    #[trigger] old(self).key_at(j),
                ),
        ensures
            final(self).structure(),
            final(self).counted(),
            final(self).keys_sorted(),
            final(self).balanced(EMPTY_REF, EMPTY_REF),
            !final(self).mt(NIL_INDEX).live,
            final(self).root != EMPTY_REF ==> final(self).nd(final(self).root).is_black(),
            final(self).view() == old(self).view().insert(
                old(self).mt(p_index).pos + 1,
                (entity.key, entity.val),
            ),
            final(self).grown(old(self), old(self).mt(p_index).pos + 1),
    {
        let ghost q = self.mt(p_index).pos + 1;
        let new_index = self.insert_new(entity, p_index, Color::Red);
        let ghost mid = *self;
        self.set_right(p_index, new_index);
        proof {
            let before = old(self);
            assert(before.slot_ok(p_index));
            self.order@ = before.order@.insert(q, new_index);
            self.meta@ = Seq::new(
                self.slots() as nat,
                |i: int|
                    if i == new_index {
                        Meta { live: true, pos: q, lo: q, hi: q + 1, bh: 0 }
                    } else {
                        crate::rb::insert::shifted_up(mid.meta@[i], q, false)
                    },
            );
            assert forall|i: u32| i < self.slots() implies self.mt(i) == (if i == new_index {
                Meta { live: true, pos: q, lo: q, hi: q + 1, bh: 0 }
            } else {
                crate::rb::insert::shifted_up(mid.mt(i), q, false)
            }) by {}
            assert forall|i: u32| i < self.slots() && i != new_index && i != p_index implies if i
                < before.slots() {
                self.nd(i) == before.nd(i)
            } else {
                crate::rb::pool::is_vacant(self.nd(i))
            } by {
                assert(self.nd(i) == mid.nd(i));
            }
            assert(self.leaf_added(before, p_index, false, new_index, entity));
            self.lemma_leaf_added(before, p_index, false, new_index, entity);
            assert(self.slot_ok(new_index));
            assert(self.slot_ok(p_index));
        }
        let ghost added = self.order@;
        if self.node(p_index).color == Color::Red {
            let ghost linked = *self;
            self.fix_red_black_properties_after_insert(new_index, p_index);
            proof {
                self.lemma_entries_kept(&linked);
            }
        } else {
            proof {
                self.lemma_twin_settled(new_index);
                assert(old(self).slot_ok(old(self).root));
                assert(self.nd(self.root).color == old(self).nd(old(self).root).color);
            }
        }
        proof {
            assert(self.order@ == added);
        }
    }

    /// Makes `entity` the only node of an empty tree.
    #[inline]
    pub fn insert_root(&mut self, entity: Entity<K, V>)
        requires
            old(self).wf(),
            old(self).root == EMPTY_REF,
        ensures
            final(self).wf(),
            final(self).view() == seq![(entity.key, entity.val)],
            final(self).grown(old(self), 0),
    {
        let new_index = self.insert_new(entity, EMPTY_REF, Color::Black);
        let ghost mid = *self;
        self.root = new_index;
        proof {
            let before = old(self);
            self.order@ = seq![new_index];
            self.meta@ = mid.meta@.update(new_index as int, (Meta { live: true, pos: 0, lo: 0, hi: 1, bh: 1 }));
            assert forall|i: u32| i < self.slots() && i != new_index implies self.nd(i) == mid.nd(i)
                && self.mt(i) == mid.mt(i) by {}
            assert forall|i: u32| i < self.slots() && i != new_index implies !self.mt(i).live by {
                assert(self.mt(i) == mid.mt(i));
                if i < before.slots() {
                    assert(before.slot_ok(i));
                    if before.mt(i).live {
                        assert(before.node_ok(i));
                    }
                }
            }
            assert forall|i: u32| i < self.slots() implies #[trigger] self.slot_ok(i) by {
                if i != new_index {
                    assert(self.nd(i) == mid.nd(i));
                    assert(!self.mt(i).live);
                    if i < before.slots() {
                        assert(before.slot_ok(i));
                    }
                }
            }
            assert forall|i: u32| self.live(i) implies #[trigger] self.bal_ok(i, EMPTY_REF, EMPTY_REF) by {}
            assert(self.view() =~= seq![(entity.key, entity.val)]);
            assert(self.order@ =~= before.order@.insert(0, new_index));
        }
    }

    /// Makes the table hold `additional` slots more, or as many as it has
    /// room for.
    pub fn reserve(&mut self, additional: usize)
        requires
            old(self).wf(),
        ensures
            final(self).wf(),
            final(self).view() == old(self).view(),
            final(self).order@ == old(self).order@,
            final(self).root == old(self).root,
            final(self).slots() == old(self).slots() + crate::rb::pool::room_for(old(self).slots() as int, additional),
            final(self).store.grown_from(
                old(self).store,
                crate::rb::pool::room_for(old(self).slots() as int, additional),
            ),
    {
        self.store.reserve(additional);
        proof {
            let before = old(self);
            let n = before.slots();
            self.meta@ = Seq::new(
                self.slots() as nat,
                |i: int|
                    if i < n {
                        before.meta@[i]
                    } else {
                        Meta { live: false, pos: 0, lo: 0, hi: 0, bh: 0 }
                    },
            );
            let u = self.store.unused@;
            let b = before.store.unused@.len() as int;
            let tail = crate::rb::pool::descending(n, self.slots() - n);
            assert forall|k: int| 0 <= k < u.len() implies (if k < b {
                u[k] == before.store.unused@[k]
            } else {
                n <= u[k] < self.slots()
            }) by {
                if k >= b {
                    assert(u[k] == tail[k - b]);
                }
            }
            assert forall|i: int, j: int| 0 <= i < u.len() && 0 <= j < u.len() && i != j implies u[i]
                != u[j] by {
                if i < b && j < b {
                    assert(before.store.unused@[i] != before.store.unused@[j]);
                } else if i < b {
                    assert(before.store.unused@[i] < n);
                } else if j < b {
                    assert(before.store.unused@[j] < n);
                } else {
                    assert(u[i] == tail[i - b] && u[j] == tail[j - b]);
                }
            }
            assert forall|k: int| 0 <= k < u.len() implies (#[trigger] u[k]) < self.store.buffer@.len() by {
                if k < b {
                    assert(before.store.unused@[k] < n);
                }
            }
            assert forall|i: u32| i < self.slots() implies if i < n {
                self.nd(i) == before.nd(i) && self.mt(i) == before.mt(i)
            } else {
                crate::rb::pool::is_vacant(self.nd(i)) && !self.mt(i).live
            } by {
                if i < n {
                    assert(self.store.buffer@.subrange(0, n)[i as int] == self.store.buffer@[i as int]);
                }
            }
            assert forall|i: u32| i < self.slots() implies #[trigger] self.slot_ok(i) by {
                if i < n {
                    assert(before.slot_ok(i));
                    if before.mt(i).live {
                        let nl = before.nd(i).left;
                        let nr = before.nd(i).right;
                        let np = before.nd(i).parent;
                        if nl != EMPTY_REF {
                            assert(before.slot_ok(nl));
                        }
                        if nr != EMPTY_REF {
                            assert(before.slot_ok(nr));
                        }
                        if np != EMPTY_REF {
                            assert(before.slot_ok(np));
                        }
                    }
                }
            }
            assert forall|q: int| 0 <= q < self.count() implies {
                let m = #[trigger] self.order@[q];
                m != NIL_INDEX && self.live(m) && self.mt(m).pos == q
            } by {
                let m = before.order@[q];
                assert(m != NIL_INDEX && before.live(m) && before.mt(m).pos == q);
            }
            assert forall|k: int| 0 <= k < u.len() implies {
                let f = #[trigger] u[k];
                f != NIL_INDEX && !self.mt(f).live
            } by {
                if k < b {
                    let f = before.store.unused@[k];
                    assert(f != NIL_INDEX && !before.mt(f).live);
                }
            }
            assert forall|q: int| 0 <= q < self.count() implies self.key_at(q) == before.key_at(q)
                && self.val_at(q) == before.val_at(q) by {
                let m = before.order@[q];
                assert(m != NIL_INDEX && before.live(m));
            }
            assert forall|i: int, j: int| 0 <= i < j < self.count() implies crate::order::key_le(
                #[trigger] self.key_at(i),
                #[trigger] self.key_at(j),
            ) by {
                assert(crate::order::key_le(before.key_at(i), before.key_at(j)));
            }
            assert forall|i: u32| self.live(i) implies #[trigger] self.bal_ok(i, EMPTY_REF, EMPTY_REF) by {
                assert(before.live(i));
                assert(before.slot_ok(i));
                assert(before.bal_ok(i, EMPTY_REF, EMPTY_REF));
                let nl = before.nd(i).left;
                let nr = before.nd(i).right;
                if nl != EMPTY_REF {
                    assert(before.slot_ok(nl));
                }
                if nr != EMPTY_REF {
                    assert(before.slot_ok(nr));
                }
            }
            if self.root != EMPTY_REF {
                assert(before.slot_ok(self.root));
            }
            assert(self.view() =~= before.view());
        }
    }

    /// The number of slots in the table.
    #[inline(always)]
    pub fn slot_count(&self) -> (n: usize)
        ensures
            n == self.slots(),
    {
        self.store.buffer.len()
    }
}

} // verus!
