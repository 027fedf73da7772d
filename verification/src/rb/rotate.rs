use vstd::prelude::*;
use crate::EMPTY_REF;
use crate::rb::node::Node;
use crate::rb::shape::{Meta, RbTree, NIL_INDEX};

verus! {

impl<K: Ord, V> RbTree<K, V> {
    /// What a rotation leaves alone: the entities, the colours, the key
    /// order, the free stack and the number of slots.
    pub open spec fn same_content(&self, before: &Self) -> bool {
        &&& self.entries_kept(before)
        &&& forall|i: u32| i < self.slots() ==> (#[trigger] self.nd(i)).color == before.nd(i).color
    }

    /// No entity moved, none came and none went.
    pub open spec fn entries_kept(&self, before: &Self) -> bool {
        &&& self.slots() == before.slots()
        &&& self.order@ == before.order@
        &&& self.store.unused@ == before.store.unused@
        &&& forall|i: u32| i < self.slots() ==> (#[trigger] self.nd(i)).entity == before.nd(i).entity
    }

    /// `self` is `before` after the node `x` was rotated to the left: its
    /// right child `y` took its place and `x` became the left child of `y`.
    pub open spec fn rotated_left(&self, before: &Self, x: u32) -> bool {
        let y = before.nd(x).right;
        let inner = before.nd(y).left;
        let p = before.nd(x).parent;
        &&& self.same_content(before)
        &&& self.root == if p == EMPTY_REF {
            y
        } else {
            before.root
        }
        &&& self.meta@ == before.meta@.update(
            x as int,
            (Meta { hi: before.mt(y).pos, ..before.mt(x) }),
        ).update(y as int, (Meta { lo: before.mt(x).lo, ..before.mt(y) }))
        &&& self.nd(x).left == before.nd(x).left
        &&& self.nd(x).right == inner
        &&& self.nd(x).parent == y
        &&& self.nd(y).left == x
        &&& self.nd(y).right == before.nd(y).right
        &&& self.nd(y).parent == p
        &&& forall|i: u32|
            i < self.slots() && i != x && i != y ==> {
                &&& (#[trigger] self.nd(i)).left == if i == p && before.nd(i).left == x {
                    y
                } else {
                    before.nd(i).left
                }
                &&& self.nd(i).right == if i == p && before.nd(i).left != x {
                    y
                } else {
                    before.nd(i).right
                }
                &&& self.nd(i).parent == if i == inner {
                    x
                } else {
                    before.nd(i).parent
                }
            }
    }

    /// The mirror image of `rotated_left`.
    pub open spec fn rotated_right(&self, before: &Self, x: u32) -> bool {
        let y = before.nd(x).left;
        let inner = before.nd(y).right;
        let p = before.nd(x).parent;
        &&& self.same_content(before)
        &&& self.root == if p == EMPTY_REF {
            y
        } else {
            before.root
        }
        &&& self.meta@ == before.meta@.update(
            x as int,
            (Meta { lo: before.mt(y).pos + 1, ..before.mt(x) }),
        ).update(y as int, (Meta { hi: before.mt(x).hi, ..before.mt(y) }))
        &&& self.nd(x).right == before.nd(x).right
        &&& self.nd(x).left == inner
        &&& self.nd(x).parent == y
        &&& self.nd(y).right == x
        &&& self.nd(y).left == before.nd(y).left
        &&& self.nd(y).parent == p
        &&& forall|i: u32|
            i < self.slots() && i != x && i != y ==> {
                &&& (#[trigger] self.nd(i)).left == if i == p && before.nd(i).left == x {
                    y
                } else {
                    before.nd(i).left
                }
                &&& self.nd(i).right == if i == p && before.nd(i).left != x {
                    y
                } else {
                    before.nd(i).right
                }
                &&& self.nd(i).parent == if i == inner {
                    x
                } else {
                    before.nd(i).parent
                }
            }
    }

    /// Makes `new_child` the child of `parent` in the place of `old_child`,
    /// or the root where `parent` is no node.
    #[inline]
    pub fn replace_parents_child(&mut self, parent: u32, old_child: u32, new_child: u32)
        requires
            new_child < old(self).slots(),
            parent == EMPTY_REF || parent < old(self).slots(),
            parent != new_child,
        ensures
            final(self).store.unused@ == old(self).store.unused@,
            final(self).meta@ == old(self).meta@,
            final(self).order@ == old(self).order@,
            final(self).root == if parent == EMPTY_REF {
                new_child
            } else {
                old(self).root
            },
            final(self).store.buffer@ == if parent == EMPTY_REF {
                old(self).store.buffer@.update(new_child as int, (Node { parent, ..old(self).nd(new_child) }))
            } else if old(self).nd(parent).left == old_child {
                old(self).store.buffer@.update(
                    new_child as int,
                    (Node { parent, ..old(self).nd(new_child) }),
                ).update(parent as int, (Node { left: new_child, ..old(self).nd(parent) }))
            } else {
                old(self).store.buffer@.update(
                    new_child as int,
                    (Node { parent, ..old(self).nd(new_child) }),
                ).update(parent as int, (Node { right: new_child, ..old(self).nd(parent) }))
            },
    {
        self.set_parent(new_child, parent);
        if parent == EMPTY_REF {
            self.root = new_child;
            return ;
        }
        if self.node(parent).left == old_child {
            self.set_left(parent, new_child);
        } else {
            self.set_right(parent, new_child);
        }
    }

    /// A left rotation keeps the structure intact.
    pub proof fn lemma_rotated_left(&self, before: &Self, x: u32)
        requires
            before.structure(),
            before.live(x),
            x != NIL_INDEX,
            before.nd(x).right != EMPTY_REF,
            before.nd(x).right != NIL_INDEX,
            self.rotated_left(before, x),
            self.store.wf(),
        ensures
            self.structure(),
    {
        let y = before.nd(x).right;
        let inner = before.nd(y).left;
        let outer = before.nd(y).right;
        let p = before.nd(x).parent;
        let a = before.nd(x).left;
        assert(before.slot_ok(x));
        assert(before.slot_ok(y));
        assert(self.meta@.len() == self.slots());
        assert(self.mt(x) == (Meta { hi: before.mt(y).pos, ..before.mt(x) }));
        assert(self.mt(y) == (Meta { lo: before.mt(x).lo, ..before.mt(y) }));
        assert forall|i: u32| i < self.slots() && i != x && i != y implies self.mt(i) == before.mt(i) by {}
        if inner != EMPTY_REF {
            assert(before.slot_ok(inner));
        }
        if outer != EMPTY_REF {
            assert(before.slot_ok(outer));
        }
        if a != EMPTY_REF {
            assert(before.slot_ok(a));
        }
        if p != EMPTY_REF {
            assert(before.slot_ok(p));
        }
        assert(self.slot_ok(x));
        assert(self.slot_ok(y));
        assert forall|i: u32| i < self.slots() implies #[trigger] self.slot_ok(i) by {
            assert(before.slot_ok(i));
            if i != x && i != y && before.mt(i).live {
                let nl = before.nd(i).left;
                let nr = before.nd(i).right;
                let np = before.nd(i).parent;
                assert(self.nd(i).entity == before.nd(i).entity);
                if nl != EMPTY_REF {
                    assert(before.slot_ok(nl));
                    assert(nl == x ==> i == p);
                    assert(nl != y);
                }
                if nr != EMPTY_REF {
                    assert(before.slot_ok(nr));
                    assert(nr == x ==> i == p);
                    assert(nr != y);
                }
                if np != EMPTY_REF {
                    assert(before.slot_ok(np));
                }
                if i == NIL_INDEX {
                    assert(self.node_ok(i));
                } else {
                    assert(self.link_ok(self.nd(i).left, i, self.mt(i).lo, self.mt(i).pos));
                    assert(self.link_ok(self.nd(i).right, i, self.mt(i).pos + 1, self.mt(i).hi));
                    assert(self.node_ok(i));
                }
            }
        }
        assert forall|q: int| 0 <= q < self.count() implies {
            let n = #[trigger] self.order@[q];
            n != NIL_INDEX && self.live(n) && self.mt(n).pos == q
        } by {
            let n = before.order@[q];
            assert(n != NIL_INDEX && before.live(n) && before.mt(n).pos == q);
        }
        assert forall|k: int| 0 <= k < self.store.unused@.len() implies {
            let f = #[trigger] self.store.unused@[k];
            f != NIL_INDEX && !self.mt(f).live
        } by {
            let f = before.store.unused@[k];
            assert(f != NIL_INDEX && !before.mt(f).live);
        }
    }

    /// A right rotation keeps the structure intact.
    pub proof fn lemma_rotated_right(&self, before: &Self, x: u32)
        requires
            before.structure(),
            before.live(x),
            x != NIL_INDEX,
            before.nd(x).left != EMPTY_REF,
            before.nd(x).left != NIL_INDEX,
            self.rotated_right(before, x),
            self.store.wf(),
        ensures
            self.structure(),
    {
        let y = before.nd(x).left;
        let inner = before.nd(y).right;
        let outer = before.nd(y).left;
        let p = before.nd(x).parent;
        let a = before.nd(x).right;
        assert(before.slot_ok(x));
        assert(before.slot_ok(y));
        assert(self.meta@.len() == self.slots());
        assert(self.mt(x) == (Meta { lo: before.mt(y).pos + 1, ..before.mt(x) }));
        assert(self.mt(y) == (Meta { hi: before.mt(x).hi, ..before.mt(y) }));
        assert forall|i: u32| i < self.slots() && i != x && i != y implies self.mt(i) == before.mt(i) by {}
        if inner != EMPTY_REF {
            assert(before.slot_ok(inner));
        }
        if outer != EMPTY_REF {
            assert(before.slot_ok(outer));
        }
        if a != EMPTY_REF {
            assert(before.slot_ok(a));
        }
        if p != EMPTY_REF {
            assert(before.slot_ok(p));
        }
        assert(self.slot_ok(x));
        assert(self.slot_ok(y));
        assert forall|i: u32| i < self.slots() implies #[trigger] self.slot_ok(i) by {
            assert(before.slot_ok(i));
            if i != x && i != y && before.mt(i).live {
                let nl = before.nd(i).left;
                let nr = before.nd(i).right;
                let np = before.nd(i).parent;
                assert(self.nd(i).entity == before.nd(i).entity);
                if nl != EMPTY_REF {
                    assert(before.slot_ok(nl));
                    assert(nl == x ==> i == p);
                    assert(nl != y);
                }
                if nr != EMPTY_REF {
                    assert(before.slot_ok(nr));
                    assert(nr == x ==> i == p);
                    assert(nr != y);
                }
                if np != EMPTY_REF {
                    assert(before.slot_ok(np));
                }
                if i == NIL_INDEX {
                    assert(self.node_ok(i));
                } else {
                    assert(self.link_ok(self.nd(i).left, i, self.mt(i).lo, self.mt(i).pos));
                    assert(self.link_ok(self.nd(i).right, i, self.mt(i).pos + 1, self.mt(i).hi));
                    assert(self.node_ok(i));
                }
            }
        }
        assert forall|q: int| 0 <= q < self.count() implies {
            let n = #[trigger] self.order@[q];
            n != NIL_INDEX && self.live(n) && self.mt(n).pos == q
        } by {
            let n = before.order@[q];
            assert(n != NIL_INDEX && before.live(n) && before.mt(n).pos == q);
        }
        assert forall|k: int| 0 <= k < self.store.unused@.len() implies {
            let f = #[trigger] self.store.unused@[k];
            f != NIL_INDEX && !self.mt(f).live
        } by {
            let f = before.store.unused@[k];
            assert(f != NIL_INDEX && !before.mt(f).live);
        }
    }

    pub fn rotate_left(&mut self, index: u32)
        requires
            old(self).structure(),
            old(self).live(index),
            index != NIL_INDEX,
            old(self).nd(index).right != EMPTY_REF,
            old(self).nd(index).right != NIL_INDEX,
        ensures
            final(self).structure(),
            final(self).rotated_left(old(self), index),
    {
        proof {
            assert(self.slot_ok(index));
            assert(self.slot_ok(self.nd(index).right));
        }
        let p = self.node(index).parent;
        let rt_index = self.node(index).right;
        let rt_left = self.node(rt_index).left;
        proof {
            if p != EMPTY_REF {
                assert(self.slot_ok(p));
            }
            if rt_left != EMPTY_REF {
                assert(self.slot_ok(rt_left));
            }
        }
        self.set_left(rt_index, index);

        if rt_left != EMPTY_REF {
            self.set_parent(rt_left, index);
        }
        self.set_right(index, rt_left);
        self.set_parent(index, rt_index);

        self.replace_parents_child(p, index, rt_index);
        proof {
            let before = old(self);
            self.meta@ = before.meta@.update(
                index as int,
                (Meta { hi: before.mt(rt_index).pos, ..before.mt(index) }),
            ).update(rt_index as int, (Meta { lo: before.mt(index).lo, ..before.mt(rt_index) }));
            assert(self.rotated_left(before, index));
            self.lemma_rotated_left(before, index);
        }
    }

    pub fn rotate_right(&mut self, index: u32)
        requires
            old(self).structure(),
            old(self).live(index),
            index != NIL_INDEX,
            old(self).nd(index).left != EMPTY_REF,
            old(self).nd(index).left != NIL_INDEX,
        ensures
            final(self).structure(),
            final(self).rotated_right(old(self), index),
    {
        proof {
            assert(self.slot_ok(index));
            assert(self.slot_ok(self.nd(index).left));
        }
        let p = self.node(index).parent;
        let lt_index = self.node(index).left;
        let lt_right = self.node(lt_index).right;
        proof {
            if p != EMPTY_REF {
                assert(self.slot_ok(p));
            }
            if lt_right != EMPTY_REF {
                assert(self.slot_ok(lt_right));
            }
        }
        self.set_right(lt_index, index);

        if lt_right != EMPTY_REF {
            self.set_parent(lt_right, index);
        }
        self.set_left(index, lt_right);
        self.set_parent(index, lt_index);

        self.replace_parents_child(p, index, lt_index);
        proof {
            let before = old(self);
            self.meta@ = before.meta@.update(
                index as int,
                (Meta { lo: before.mt(lt_index).pos + 1, ..before.mt(index) }),
            ).update(lt_index as int, (Meta { hi: before.mt(index).hi, ..before.mt(lt_index) }));
            assert(self.rotated_right(before, index));
            self.lemma_rotated_right(before, index);
        }
    }
}

} // verus!
