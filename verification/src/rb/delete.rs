use vstd::prelude::*;
use crate::EMPTY_REF;
use crate::rb::node::{Color, Node};
use crate::rb::shape::{Meta, RbTree, NIL_INDEX};

verus! {

impl<K: Ord, V> RbTree<K, V> {
    /// The reserved slot can be taken out again once the tree is rebalanced.
    pub proof fn lemma_phantom_gone(&self, before: &Self)
        requires
            before.structure(),
            before.balanced(EMPTY_REF, EMPTY_REF),
            before.mt(NIL_INDEX).live,
            !before.nd(NIL_INDEX).is_black(),
            self.slots() == before.slots(),
            self.root == before.root,
            self.order@ == before.order@,
            self.store.unused@ == before.store.unused@,
            self.meta@ == before.meta@.update(
                NIL_INDEX as int,
                (Meta { live: false, ..before.mt(NIL_INDEX) }),
            ),
            forall|j: u32|
                j < self.slots() ==> {
                    &&& (#[trigger] self.nd(j)).left == if j == before.nd(NIL_INDEX).parent
                        && before.nd(j).left == NIL_INDEX {
                        EMPTY_REF
                    } else {
                        before.nd(j).left
                    }
                    &&& self.nd(j).right == if j == before.nd(NIL_INDEX).parent && before.nd(j).left
                        != NIL_INDEX {
                        EMPTY_REF
                    } else {
                        before.nd(j).right
                    }
                    &&& self.nd(j).parent == before.nd(j).parent
                    &&& self.nd(j).color == before.nd(j).color
                    &&& self.nd(j).entity == before.nd(j).entity
                },
        ensures
            self.structure(),
            self.balanced(EMPTY_REF, EMPTY_REF),
            !self.mt(NIL_INDEX).live,
            self.entries_kept(before),
    {
        let p = before.nd(NIL_INDEX).parent;
        assert(before.slot_ok(NIL_INDEX));
        assert(before.slot_ok(p));
        assert(before.bal_ok(NIL_INDEX, EMPTY_REF, EMPTY_REF));
        assert(before.bal_ok(p, EMPTY_REF, EMPTY_REF));
        assert(self.store.wf());
        assert forall|i: u32| i < self.slots() implies self.mt(i) == (if i == NIL_INDEX {
            Meta { live: false, ..before.mt(NIL_INDEX) }
        } else {
            before.mt(i)
        }) by {}
        assert forall|i: u32| i < self.slots() implies #[trigger] self.slot_ok(i) by {
            assert(before.slot_ok(i));
            if self.mt(i).live {
                let nl = before.nd(i).left;
                let nr = before.nd(i).right;
                let np = before.nd(i).parent;
                if nl != EMPTY_REF {
                    assert(before.slot_ok(nl));
                }
                if nr != EMPTY_REF {
                    assert(before.slot_ok(nr));
                }
                if np != EMPTY_REF {
                    assert(before.slot_ok(np));
                }
                assert(self.link_ok(self.nd(i).left, i, self.mt(i).lo, self.mt(i).pos));
                assert(self.link_ok(self.nd(i).right, i, self.mt(i).pos + 1, self.mt(i).hi));
            }
        }
        assert forall|q: int| 0 <= q < self.count() implies {
            let n = #[trigger] self.order@[q];
            n != NIL_INDEX && self.live(n) && self.mt(n).pos == q
        } by {
            let n = before.order@[q];
            assert(n != NIL_INDEX && before.live(n) && before.mt(n).pos == q);
        }
        assert forall|k: int| 0 <= k < self.store.unused@.len() implies {
            let f = #[trigger] self.store.unused@[k];
            f != NIL_INDEX && !self.mt(f).live
        } by {
            let f = before.store.unused@[k];
            assert(f != NIL_INDEX && !before.mt(f).live);
        }
        assert forall|i: u32| self.live(i) implies #[trigger] self.bal_ok(i, EMPTY_REF, EMPTY_REF) by {
            assert(before.live(i));
            assert(before.slot_ok(i));
            assert(before.bal_ok(i, EMPTY_REF, EMPTY_REF));
        }
    }

    /// The root may always be painted black.
    pub fn blacken_root(&mut self)
        requires
            old(self).structure(),
            old(self).balanced(EMPTY_REF, EMPTY_REF),
        ensures
            final(self).structure(),
            final(self).balanced(EMPTY_REF, EMPTY_REF),
            final(self).links_kept(old(self)),
            final(self).mt(NIL_INDEX).live == old(self).mt(NIL_INDEX).live,
            final(self).root != EMPTY_REF ==> final(self).nd(final(self).root).is_black(),
            old(self).keys_sorted() ==> final(self).keys_sorted(),
            old(self).counted() ==> final(self).counted(),
            final(self).view() == old(self).view(),
    {
        proof {
            self.lemma_links_kept(old(self));
        }
        if self.root != EMPTY_REF {
            let root = self.root;
            proof {
                assert(self.slot_ok(root));
                assert(self.bal_ok(root, EMPTY_REF, EMPTY_REF));
            }
            self.set_color(root, Color::Black);
            proof {
                let before = old(self);
                self.meta@ = before.meta@.update(
                    root as int,
                    (Meta { bh: before.bh_of(before.nd(root).left) + 1, ..before.mt(root) }),
                );
                assert(self.links_kept(before));
                self.lemma_links_kept(before);
                assert forall|i: u32| self.live(i) implies #[trigger] self.bal_ok(
                    i,
                    EMPTY_REF,
                    EMPTY_REF,
                ) by {
                    assert(before.live(i));
                    assert(before.slot_ok(i));
                    assert(before.bal_ok(i, EMPTY_REF, EMPTY_REF));
                    let nl = before.nd(i).left;
                    let nr = before.nd(i).right;
                    if nl != EMPTY_REF {
                        assert(before.slot_ok(nl));
                    }
                    if nr != EMPTY_REF {
                        assert(before.slot_ok(nr));
                    }
                }
            }
        }
    }

    /// The leftmost node of the subtree of `i`.
    #[inline]
    pub fn find_left_minimum(&self, i: u32) -> (m: u32)
        requires
            self.structure(),
            !self.mt(NIL_INDEX).live,
            self.live(i),
        ensures
            self.live(m),
            self.nd(m).left == EMPTY_REF,
            self.mt(m).pos == self.mt(i).lo,
            self.mt(m).hi <= self.mt(i).hi,
            m == i || self.nd(m).parent != EMPTY_REF,
            exists|k: nat| self.above(i, m, k),
    {
        let mut i = i;
        let ghost start = i;
        let ghost mut depth = 0nat;
        proof {
            assert(self.slot_ok(i));
            assert(self.ancestor(i, 0) == i);
        }
        while self.node(i).left != EMPTY_REF
            invariant
                self.structure(),
                !self.mt(NIL_INDEX).live,
                self.live(i),
                self.live(start),
                self.mt(i).lo == self.mt(start).lo,
                self.mt(i).hi <= self.mt(start).hi,
                i == start || self.nd(i).parent != EMPTY_REF,
                self.above(start, i, depth),
            decreases self.mt(i).hi - self.mt(i).lo,
        {
            let ghost up = i;
            proof {
                assert(self.slot_ok(i));
                assert(self.slot_ok(self.nd(i).left));
            }
            i = self.node(i).left;
            proof {
                assert(self.ancestor(i, depth + 1) == self.ancestor(up, depth));
                assert forall|j: nat| j < depth + 1 implies self.nd(#[trigger] self.ancestor(i, j)).parent
                    != EMPTY_REF by {
                    if j == 0 {
                        assert(self.ancestor(i, 0) == i);
                    } else {
                        assert(self.ancestor(i, j) == self.ancestor(up, (j - 1) as nat));
                    }
                }
                depth = depth + 1;
            }
        }
        proof {
            assert(self.slot_ok(i));
        }
        i
    }

    /// Prepares the reserved slot to stand in for a child of `parent`.
    #[inline]
    pub fn create_nil_node(&mut self, parent: u32)
        requires
            NIL_INDEX < old(self).slots(),
        ensures
            final(self).same_but(
                old(self),
                NIL_INDEX,
                (Node {
                    parent,
                    left: EMPTY_REF,
                    right: EMPTY_REF,
                    color: Color::Red,
                    ..old(self).nd(NIL_INDEX)
                }),
            ),
    {
        self.set_parent(NIL_INDEX, parent);
        self.set_left(NIL_INDEX, EMPTY_REF);
        self.set_right(NIL_INDEX, EMPTY_REF);
        self.set_color(NIL_INDEX, Color::Red);
        proof {
            assert(self.store.buffer@ =~= old(self).store.buffer@.update(
                NIL_INDEX as int,
                (Node {
                    parent,
                    left: EMPTY_REF,
                    right: EMPTY_REF,
                    color: Color::Red,
                    ..old(self).nd(NIL_INDEX)
                }),
            ));
        }
    }

    /// Clears the link of `parent` that leads to `old_child`.
    #[inline]
    pub fn remove_parents_child(&mut self, parent: u32, old_child: u32)
        requires
            parent < old(self).slots(),
        ensures
            final(self).same_but(
                old(self),
                parent,
                if old(self).nd(parent).left == old_child {
                    Node { left: EMPTY_REF, ..old(self).nd(parent) }
                } else {
                    Node { right: EMPTY_REF, ..old(self).nd(parent) }
                },
            ),
    {
        if self.node(parent).left == old_child {
            self.set_left(parent, EMPTY_REF);
        } else {
            self.set_right(parent, EMPTY_REF);
        }
    }

    /// Points the link of `parent` that leads to `old_child` at the reserved
    /// slot.
    #[inline]
    pub fn set_nil_parents_child(&mut self, parent: u32, old_child: u32)
        requires
            parent < old(self).slots(),
        ensures
            final(self).same_but(
                old(self),
                parent,
                if old(self).nd(parent).left == old_child {
                    Node { left: NIL_INDEX, ..old(self).nd(parent) }
                } else {
                    Node { right: NIL_INDEX, ..old(self).nd(parent) }
                },
            ),
    {
        if self.node(parent).left == old_child {
            self.set_left(parent, NIL_INDEX);
        } else {
            self.set_right(parent, NIL_INDEX);
        }
    }

    /// Clears the link that leads to the reserved slot.
    #[inline]
    pub fn fix_parents_nil_child(&mut self)
        requires
            NIL_INDEX < old(self).slots(),
            old(self).nd(NIL_INDEX).parent < old(self).slots(),
        ensures
            final(self).same_but(
                old(self),
                old(self).nd(NIL_INDEX).parent,
                if old(self).nd(old(self).nd(NIL_INDEX).parent).left == NIL_INDEX {
                    Node { left: EMPTY_REF, ..old(self).nd(old(self).nd(NIL_INDEX).parent) }
                } else {
                    Node { right: EMPTY_REF, ..old(self).nd(old(self).nd(NIL_INDEX).parent) }
                },
            ),
    {
        let p_index = self.node(NIL_INDEX).parent;
        if self.node(p_index).left == NIL_INDEX {
            self.set_left(p_index, EMPTY_REF);
        } else {
            self.set_right(p_index, EMPTY_REF);
        }
    }

    /// Records that the node `d` left the tree at its position and that the
    /// reserved slot, where it is the heir, entered it. Nothing is executed.
    #[inline(always)]
    pub fn record_unlinked(&mut self, Ghost(before): Ghost<&Self>, d: u32)
        requires
            old(self).slots() == before.slots(),
            d < before.slots(),
            before.meta@.len() == before.slots(),
        ensures
            final(self).store == old(self).store,
            final(self).root == old(self).root,
            final(self).order@ == before.order@.remove(before.mt(d).pos),
            final(self).meta@.len() == before.slots(),
            !final(self).mt(d).live,
            forall|j: u32|
                j < before.slots() && j != d ==> (#[trigger] final(self).mt(j)) == if j == NIL_INDEX
                    && before.heir(d) == NIL_INDEX {
                    Meta { live: true, pos: 0, lo: before.mt(d).pos, hi: before.mt(d).pos, bh: 1 }
                } else if j == before.heir(d) {
                    Meta { bh: before.mt(d).bh, ..crate::rb::unlink::shifted_down(before.mt(j), before.mt(d).pos) }
                } else {
                    crate::rb::unlink::shifted_down(before.mt(j), before.mt(d).pos)
                },
    {
        proof {
            let q = before.mt(d).pos;
            let c = before.heir(d);
            self.order@ = before.order@.remove(q);
            self.meta@ = Seq::new(
                before.slots() as nat,
                |j: int|
                    if j == d {
                        Meta { live: false, ..before.meta@[j] }
                    } else if j == NIL_INDEX && c == NIL_INDEX {
                        Meta { live: true, pos: 0, lo: q, hi: q, bh: 1 }
                    } else if j == c {
                        Meta { bh: before.mt(d).bh, ..crate::rb::unlink::shifted_down(before.meta@[j], q) }
                    } else {
                        crate::rb::unlink::shifted_down(before.meta@[j], q)
                    },
            );
        }
    }

    /// The free stack may take back a slot that just left the tree.
    pub proof fn lemma_put_back(&self, before: &Self, d: u32)
        requires
            before.structure(),
            d != NIL_INDEX,
            d < before.slots(),
            !before.mt(d).live,
            before.nd(d).entity.is_none(),
            forall|k: int| 0 <= k < before.store.unused@.len() ==> #[trigger] before.store.unused@[k] != d,
            self.store.buffer@ == before.store.buffer@,
            self.store.unused@ == before.store.unused@.push(d),
            self.root == before.root,
            self.meta@ == before.meta@,
            self.order@ == before.order@,
        ensures
            self.structure(),
            self.links_kept_but_stack(before),
    {
        assert forall|i: int, j: int|
            0 <= i < self.store.unused@.len() && 0 <= j < self.store.unused@.len() && i != j implies self.store.unused@[i]
            != self.store.unused@[j] by {
            if i < before.store.unused@.len() && j < before.store.unused@.len() {
                assert(before.store.unused@[i] != before.store.unused@[j]);
            }
        }
        assert forall|k: int| 0 <= k < self.store.unused@.len() implies (#[trigger] self.store.unused@[k])
            < self.store.buffer@.len() by {
            if k < before.store.unused@.len() {
                assert(before.store.unused@[k] < before.store.buffer@.len());
            }
        }
        assert forall|i: u32| i < self.slots() implies #[trigger] self.slot_ok(i) by {
            assert(before.slot_ok(i));
        }
        assert forall|q: int| 0 <= q < self.count() implies {
            let n = #[trigger] self.order@[q];
            n != NIL_INDEX && self.live(n) && self.mt(n).pos == q
        } by {
            let n = before.order@[q];
            assert(n != NIL_INDEX && before.live(n) && before.mt(n).pos == q);
        }
        assert forall|k: int| 0 <= k < self.store.unused@.len() implies {
            let f = #[trigger] self.store.unused@[k];
            f != NIL_INDEX && !self.mt(f).live
        } by {
            if k < before.store.unused@.len() {
                let f = before.store.unused@[k];
                assert(f != NIL_INDEX && !before.mt(f).live);
            }
        }
    }

    /// All but the free stack is as in `before`.
    pub open spec fn links_kept_but_stack(&self, before: &Self) -> bool {
        &&& self.store.buffer@ == before.store.buffer@
        &&& self.root == before.root
        &&& self.meta@ == before.meta@
        &&& self.order@ == before.order@
    }

    /// What a deletion of the node `index` leaves alone of its parent: the
    /// entity, the position but for the shift, and the bound of its subtree
    /// on the side of `index`.
    pub open spec fn parent_frame(&self, before: &Self, index: u32) -> bool {
        let n = before.nd(index).parent;
        n != EMPTY_REF ==> {
            &&& self.live(n)
            &&& n != NIL_INDEX
            &&& self.nd(n).entity == before.nd(n).entity
            &&& before.nd(n).left == index ==> self.mt(n).lo == before.mt(n).lo && self.mt(n).pos
                == before.mt(n).pos - 1
            &&& before.nd(n).left != index ==> self.mt(n).pos == before.mt(n).pos && self.mt(n).hi
                == before.mt(n).hi - 1
        }
    }

    /// After the node `d` was unlinked to delete the node `index`, the parent
    /// of `index` stands above the heir of `d`.
    pub proof fn lemma_cut_anchor(&self, before: &Self, index: u32, d: u32, kd: nat)
        requires
            before.wf(),
            before.live(index),
            before.nd(index).parent != EMPTY_REF,
            before.live(d),
            before.nd(d).left == EMPTY_REF || before.nd(d).right == EMPTY_REF,
            (d == index && kd == 0) || (kd >= 1 && before.above(index, d, kd) && before.mt(d).pos
                == before.mt(index).pos + 1),
            self.unlinked(before, d, index),
            self.structure(),
        ensures
            ({
                let n = before.nd(index).parent;
                let q = before.mt(d).pos;
                let c = before.heir(d);
                &&& self.live(n)
                &&& n != NIL_INDEX
                &&& n != d
                &&& self.mt(n) == crate::rb::unlink::shifted_down(before.mt(n), q)
                &&& self.nd(n).entity == before.nd(n).entity
                &&& before.nd(n).left == index ==> before.mt(n).lo <= q < before.mt(n).pos
                &&& before.nd(n).left != index ==> before.mt(n).pos < q < before.mt(n).hi
                &&& c != EMPTY_REF ==> self.above(n, c, kd + 1) && (self.nd(n).left == self.ancestor(c, kd)
                    <==> before.nd(n).left == index)
            }),
    {
        let n = before.nd(index).parent;
        let q = before.mt(d).pos;
        let c = before.heir(d);
        assert(before.slot_ok(index));
        assert(before.slot_ok(n));
        assert(before.slot_ok(d));
        assert(before.slot_ok(NIL_INDEX));
        before.lemma_parent_above(index);
        if kd >= 1 {
            before.lemma_above_more(index, d, kd);
        } else {
            assert(before.ancestor(d, 0) == index);
        }
        assert(before.above(n, d, kd + 1));
        before.lemma_above(n, d, kd + 1);
        assert(before.ancestor(d, kd) == index);
        if c != EMPTY_REF {
            self.lemma_cut_chain(before, d, index, n, kd + 1, kd + 1);
            if kd >= 1 {
                self.lemma_cut_chain(before, d, index, n, kd + 1, kd);
                before.lemma_between(n, d, kd + 1, 1);
                before.lemma_live_chain(d, 1);
                assert(before.ancestor(d, 1) == before.nd(before.ancestor(d, 0)).parent);
                assert(before.ancestor(d, 0) == d);
            } else {
                assert(self.ancestor(c, 0) == c);
                if c != NIL_INDEX {
                    assert(before.slot_ok(c));
                }
                let nl = before.nd(n).left;
                if nl != EMPTY_REF {
                    assert(before.slot_ok(nl));
                }
            }
        }
    }

    /// What rebalancing leaves alone of the parent of the deleted node is
    /// what the deletion is to leave alone.
    pub proof fn lemma_parent_frame(&self, cut: &Self, before: &Self, index: u32, d: u32, kd: nat)
        requires
            before.nd(index).parent != EMPTY_REF,
            before.nd(index).parent < before.slots(),
            self.slots() == before.slots(),
            cut.slots() == before.slots(),
            ({
                let n = before.nd(index).parent;
                let q = before.mt(d).pos;
                let c = before.heir(d);
                &&& n != NIL_INDEX
                &&& cut.mt(n) == crate::rb::unlink::shifted_down(before.mt(n), q)
                &&& self.nd(n).entity == before.nd(n).entity
                &&& before.nd(n).left == index ==> before.mt(n).lo <= q < before.mt(n).pos
                &&& before.nd(n).left != index ==> before.mt(n).pos < q < before.mt(n).hi
                &&& c != EMPTY_REF ==> (cut.nd(n).left == cut.ancestor(c, kd) <==> before.nd(n).left == index)
                &&& c != EMPTY_REF ==> self.anchored(cut, c, n, kd + 1)
                &&& c == EMPTY_REF ==> self.mt(n) == cut.mt(n)
                &&& cut.mt(n).live
            }),
        ensures
            self.parent_frame(before, index),
    {
        let n = before.nd(index).parent;
        assert(self.mt(n).pos == cut.mt(n).pos);
        assert(self.mt(n).live == cut.mt(n).live);
    }

    /// The node `n` has a left and a right child.
    pub open spec fn two_children(&self, n: u32) -> bool {
        self.nd(n).left != EMPTY_REF && self.nd(n).right != EMPTY_REF
    }

    /// Takes the node `index` out of the tree and frees a slot: its own,
    /// or, where it has two children, that of the node next in key order,
    /// whose entity moves to `index`.
    #[verifier::rlimit(100)]
    pub fn delete_index(&mut self, index: u32)
        requires
            old(self).wf(),
            old(self).live(index),
        ensures
            final(self).wf(),
            final(self).view() == old(self).view().remove(old(self).mt(index).pos),
            final(self).slots() == old(self).slots(),
            old(self).two_children(index) ==> {
                let s = old(self).order@[old(self).mt(index).pos + 1];
                &&& old(self).mt(index).pos + 1 < old(self).count()
                &&& final(self).order@ == old(self).order@.remove(old(self).mt(index).pos + 1)
                &&& final(self).nd(index).entity == old(self).nd(s).entity
                &&& final(self).store.unused@ == old(self).store.unused@.push(s)
            },
            !old(self).two_children(index) ==> {
                &&& final(self).order@ == old(self).order@.remove(old(self).mt(index).pos)
                &&& final(self).store.unused@ == old(self).store.unused@.push(index)
            },
            final(self).parent_frame(old(self), index),
            forall|j: u32|
                j < old(self).slots() && j != index && #[trigger] final(self).live(j) ==> old(self).live(j)
                    && final(self).nd(j).entity == old(self).nd(j).entity,
    {
        let ghost before = *self;
        let ghost anchor = self.nd(index).parent;
        let ghost mut kd = 0nat;
        proof {
            assert(self.slot_ok(index));
            assert(self.slot_ok(NIL_INDEX));
        }
        // The node that is unlinked has one child at most.
        let mut delete_index = index;

        let node = self.node(index);
        let mut nd_left = node.left;
        let mut nd_right = node.right;
        let mut nd_parent = node.parent;
        let mut nd_color = node.color;

        // A node with two children takes the entity of the node next in key order,
        // which is unlinked in its place.
        if nd_left != EMPTY_REF && nd_right != EMPTY_REF {
            proof {
                assert(self.slot_ok(nd_right));
            }
            let successor_index = self.find_left_minimum(nd_right);
            proof {
                assert(self.slot_ok(successor_index));
                let k = choose|k: nat| self.above(nd_right, successor_index, k);
                self.lemma_above_more(nd_right, successor_index, k);
                kd = k + 1;
            }
            let successor = self.node(successor_index);
            nd_parent = successor.parent;
            nd_left = successor.left;
            nd_right = successor.right;
            nd_color = successor.color;

            let entity = self.take_entity(successor_index);
            self.set_entity(index, entity);

            delete_index = successor_index;
        } else {
            let _ = self.take_entity(index);
        }
        let ghost moved = *self;
        proof {
            assert(before.slot_ok(delete_index));
            assert(before.bal_ok(delete_index, EMPTY_REF, EMPTY_REF));
            if nd_parent != EMPTY_REF {
                assert(before.slot_ok(nd_parent));
            }
            assert forall|j: u32| j < self.slots() implies (#[trigger] moved.nd(j)).left == before.nd(j).left
                && moved.nd(j).right == before.nd(j).right && moved.nd(j).parent == before.nd(j).parent
                && moved.nd(j).color == before.nd(j).color && moved.nd(j).entity == (if j
                == delete_index {
                None
            } else if j == index {
                before.nd(delete_index).entity
            } else {
                before.nd(j).entity
            }) by {}
        }

        if nd_left != EMPTY_REF {
            proof {
                assert(before.slot_ok(nd_left));
            }
            self.replace_parents_child(nd_parent, delete_index, nd_left);
            self.record_unlinked(Ghost(&before), delete_index);
            proof {
                self.lemma_cut(&before, index, delete_index, kd);
            }
            let ghost cut = *self;
            self.fix_red_black_properties_after_delete(nd_left, Ghost(anchor), Ghost(kd + 1));
            proof {
                self.lemma_entries_kept(&cut);
                self.lemma_others_kept(&cut, &before, index);
                self.lemma_freed(&cut, &before, index, delete_index);
                if anchor != EMPTY_REF {
                    self.lemma_parent_frame(&cut, &before, index, delete_index, kd);
                }
            }
        } else if nd_right != EMPTY_REF {
            proof {
                assert(before.slot_ok(nd_right));
            }
            self.replace_parents_child(nd_parent, delete_index, nd_right);
            self.record_unlinked(Ghost(&before), delete_index);
            proof {
                self.lemma_cut(&before, index, delete_index, kd);
            }
            let ghost cut = *self;
            self.fix_red_black_properties_after_delete(nd_right, Ghost(anchor), Ghost(kd + 1));
            proof {
                self.lemma_entries_kept(&cut);
                self.lemma_others_kept(&cut, &before, index);
                self.lemma_freed(&cut, &before, index, delete_index);
                if anchor != EMPTY_REF {
                    self.lemma_parent_frame(&cut, &before, index, delete_index, kd);
                }
            }
        } else if nd_parent == EMPTY_REF {
            self.root = EMPTY_REF;
            self.record_unlinked(Ghost(&before), delete_index);
            proof {
                self.lemma_cut(&before, index, delete_index, kd);
            }
        } else {
            // A red leaf is cut off. For a black leaf the reserved slot stands in until
            // the tree is rebalanced.
            if nd_color == Color::Black {
                self.create_nil_node(nd_parent);
                self.set_nil_parents_child(nd_parent, delete_index);
                self.record_unlinked(Ghost(&before), delete_index);
                proof {
                    self.lemma_cut(&before, index, delete_index, kd);
                }
                let ghost cut = *self;
                self.fix_red_black_properties_after_delete(NIL_INDEX, Ghost(anchor), Ghost(kd + 1));
                let ghost fixed = *self;
                proof {
                    self.lemma_entries_kept(&cut);
                    self.lemma_others_kept(&cut, &before, index);
                    self.lemma_freed(&cut, &before, index, delete_index);
                    assert(self.slot_ok(NIL_INDEX));
                    if anchor != EMPTY_REF {
                        fixed.lemma_parent_frame(&cut, &before, index, delete_index, kd);
                    }
                }
                self.fix_parents_nil_child();
                proof {
                    self.meta@ = fixed.meta@.update(
                        NIL_INDEX as int,
                        (Meta { live: false, ..fixed.mt(NIL_INDEX) }),
                    );
                    self.lemma_phantom_gone(&fixed);
                    self.lemma_entries_kept(&fixed);
                    self.lemma_others_kept(&fixed, &before, index);
                    self.lemma_freed(&fixed, &before, index, delete_index);
                    if anchor != EMPTY_REF {
                        assert(self.mt(anchor) == fixed.mt(anchor));
                        assert(self.nd(anchor).entity == fixed.nd(anchor).entity);
                    }
                }
            } else {
                self.remove_parents_child(nd_parent, delete_index);
                self.record_unlinked(Ghost(&before), delete_index);
                proof {
                    self.lemma_cut(&before, index, delete_index, kd);
                    if anchor != EMPTY_REF {
                        self.lemma_parent_frame(self, &before, index, delete_index, kd);
                    }
                }
            }
        }
        let ghost settled = *self;
        proof {
            assert(settled.structure());
            assert(settled.slot_ok(delete_index));
            assert(settled.parent_frame(&before, index));
            assert(settled.others_kept(&before, index));
            assert(settled.freed(&before, index, delete_index));
            assert forall|k: int| 0 <= k < settled.store.unused@.len() implies #[trigger] settled.store.unused@[k]
                != delete_index by {
                let f = before.store.unused@[k];
                assert(f != NIL_INDEX && !before.mt(f).live);
            }
        }

        self.store.put_back(delete_index);
        proof {
            self.lemma_put_back(&settled, delete_index);
            assert forall|i: u32| self.live(i) implies #[trigger] self.bal_ok(i, EMPTY_REF, EMPTY_REF) by {
                assert(settled.bal_ok(i, EMPTY_REF, EMPTY_REF));
            }
            self.lemma_sorted_kept_but_stack(&settled);
            self.lemma_others_kept(&settled, &before, index);
        }
        let ghost freed = *self;
        self.blacken_root();
        proof {
            self.lemma_links_kept(&freed);
            self.lemma_others_kept(&freed, &before, index);
            if anchor != EMPTY_REF {
                assert(self.mt(anchor).lo == freed.mt(anchor).lo);
                assert(self.nd(anchor).entity == freed.nd(anchor).entity);
            }
            assert(self.order@ == settled.order@);
            assert(self.store.unused@ == settled.store.unused@.push(delete_index));
            assert(self.nd(index).entity == settled.nd(index).entity) by {
                assert(freed.nd(index).entity == settled.nd(index).entity);
            }
            assert(before.order@[before.mt(delete_index).pos] == delete_index);
        }
    }

    /// The node `d` left the key order to delete the node `index`: where
    /// the two differ `index` holds what `d` held. The free stack is as it
    /// was.
    pub open spec fn freed(&self, before: &Self, index: u32, d: u32) -> bool {
        &&& self.order@ == before.order@.remove(before.mt(d).pos)
        &&& self.store.unused@ == before.store.unused@
        &&& d != index ==> self.nd(index).entity == before.nd(d).entity
    }

    /// Keeping the order, the free stack and the entity of `index` keeps
    /// what `freed` says.
    pub proof fn lemma_freed(&self, mid: &Self, before: &Self, index: u32, d: u32)
        requires
            mid.freed(before, index, d),
            self.order@ == mid.order@,
            self.store.unused@ == mid.store.unused@,
            self.nd(index).entity == mid.nd(index).entity,
        ensures
            self.freed(before, index, d),
    {
    }

    /// No node but `index` has another entity than in `before`, and no node
    /// is new.
    pub open spec fn others_kept(&self, before: &Self, index: u32) -> bool {
        forall|j: u32|
            j < before.slots() && j != index && j != NIL_INDEX && (#[trigger] self.mt(j)).live
                ==> before.mt(j).live && self.nd(j).entity == before.nd(j).entity
    }

    /// All that follows from unlinking `d` to delete `index`.
    pub proof fn lemma_cut(&self, before: &Self, index: u32, d: u32, kd: nat)
        requires
            before.wf(),
            before.live(index),
            before.live(d),
            before.nd(d).left == EMPTY_REF || before.nd(d).right == EMPTY_REF,
            (d == index && kd == 0) || (kd >= 1 && before.above(index, d, kd) && before.mt(d).pos
                == before.mt(index).pos + 1),
            self.unlinked(before, d, index),
        ensures
            self.structure(),
            self.count() + 1 == before.count(),
            self.keys_sorted(),
            self.view() == before.view().remove(before.mt(index).pos),
            before.heir(d) == EMPTY_REF ==> self.balanced(EMPTY_REF, EMPTY_REF) && !self.mt(NIL_INDEX).live,
            before.heir(d) != EMPTY_REF ==> self.short_at(before.heir(d)),
            self.others_kept(before, index),
            self.freed(before, index, d),
            before.nd(index).parent != EMPTY_REF ==> {
                let n = before.nd(index).parent;
                let q = before.mt(d).pos;
                let c = before.heir(d);
                &&& self.live(n)
                &&& n != NIL_INDEX
                &&& n != d
                &&& self.mt(n) == crate::rb::unlink::shifted_down(before.mt(n), q)
                &&& self.nd(n).entity == before.nd(n).entity
                &&& before.nd(n).left == index ==> before.mt(n).lo <= q < before.mt(n).pos
                &&& before.nd(n).left != index ==> before.mt(n).pos < q < before.mt(n).hi
                &&& c != EMPTY_REF ==> self.above(n, c, kd + 1) && (self.nd(n).left == self.ancestor(c, kd)
                    <==> before.nd(n).left == index)
            },
    {
        self.lemma_unlinked_structure(before, d, index);
        self.lemma_unlinked_view(before, d, index);
        self.lemma_unlinked_balance(before, d, index);
        if before.nd(index).parent != EMPTY_REF {
            self.lemma_cut_anchor(before, index, d, kd);
        }
        assert forall|j: u32|
            j < before.slots() && j != index && j != NIL_INDEX && (#[trigger] self.mt(j)).live implies before.mt(
            j,
        ).live && self.nd(j).entity == before.nd(j).entity by {
            assert(self.nd(j).left == self.nd(j).left);
        }
    }

    /// Keeping the entities keeps what `others_kept` says.
    pub proof fn lemma_others_kept(&self, mid: &Self, before: &Self, index: u32)
        requires
            mid.others_kept(before, index),
            self.slots() == mid.slots(),
            mid.slots() == before.slots(),
            self.meta@.len() == self.slots(),
            forall|j: u32|
                j < self.slots() ==> (#[trigger] self.nd(j)).entity == mid.nd(j).entity && (j != NIL_INDEX
                    ==> self.mt(j).live == mid.mt(j).live),
        ensures
            self.others_kept(before, index),
    {
        assert forall|j: u32|
            j < before.slots() && j != index && j != NIL_INDEX && (#[trigger] self.mt(j)).live implies before.mt(
            j,
        ).live && self.nd(j).entity == before.nd(j).entity by {
            assert(self.nd(j).entity == mid.nd(j).entity);
            assert(mid.mt(j).live);
        }
    }

    /// The entries do not depend on the free stack.
    pub proof fn lemma_sorted_kept_but_stack(&self, before: &Self)
        requires
            self.links_kept_but_stack(before),
        ensures
            before.keys_sorted() ==> self.keys_sorted(),
            self.view() == before.view(),
    {
        assert forall|q: int| 0 <= q < self.count() implies self.key_at(q) == before.key_at(q)
            && self.val_at(q) == before.val_at(q) by {}
        if before.keys_sorted() {
            assert forall|i: int, j: int| 0 <= i < j < self.count() implies crate::order::key_le(
                #[trigger] self.key_at(i),
                #[trigger] self.key_at(j),
            ) by {
                assert(crate::order::key_le(before.key_at(i), before.key_at(j)));
            }
        }
        assert(self.view() =~= before.view());
    }
}

} // verus!
