use vstd::prelude::*;
use crate::EMPTY_REF;
use crate::rb::node::Color;
use crate::rb::shape::{Meta, RbTree, NIL_INDEX};

verus! {

/// How the record of a slot changes when a node enters the key order at
/// position `q`. With `before` the new node stands before the node that was
/// at `q`, in its subtree; otherwise it follows the node at `q - 1`.
pub open spec fn shifted_up(m: Meta, q: int, before: bool) -> Meta {
    Meta {
        live: m.live,
        pos: if m.pos >= q {
            m.pos + 1
        } else {
            m.pos
        },
        lo: if m.lo > q || (!before && m.lo == q) {
            m.lo + 1
        } else {
            m.lo
        },
        hi: if m.hi > q || (!before && m.hi == q) {
            m.hi + 1
        } else {
            m.hi
        },
        bh: m.bh,
    }
}

impl<K: Ord, V> RbTree<K, V> {
    /// Links and positions are those of `before`; colours and black heights
    /// may differ.
    pub open spec fn links_kept(&self, before: &Self) -> bool {
        &&& self.slots() == before.slots()
        &&& self.root == before.root
        &&& self.order@ == before.order@
        &&& self.store.unused@ == before.store.unused@
        &&& self.meta@.len() == before.meta@.len()
        &&& forall|i: u32|
            i < self.slots() ==> {
                &&& (#[trigger] self.nd(i)).parent == before.nd(i).parent
                &&& self.nd(i).left == before.nd(i).left
                &&& self.nd(i).right == before.nd(i).right
                &&& self.nd(i).entity == before.nd(i).entity
            }
        &&& forall|i: u32|
            i < self.slots() ==> {
                &&& (#[trigger] self.mt(i)).live == before.mt(i).live
                &&& self.mt(i).pos == before.mt(i).pos
                &&& self.mt(i).lo == before.mt(i).lo
                &&& self.mt(i).hi == before.mt(i).hi
            }
    }

    /// The structure does not depend on colours or black heights.
    pub proof fn lemma_links_kept(&self, before: &Self)
        requires
            before.structure(),
            self.links_kept(before),
        ensures
            self.structure(),
            before.keys_sorted() ==> self.keys_sorted(),
            self.view() == before.view(),
    {
        assert(self.store.unused@ == before.store.unused@);
        assert(self.store.wf());
        assert forall|i: u32| i < self.slots() implies #[trigger] self.slot_ok(i) by {
            assert(before.slot_ok(i));
            if before.mt(i).live {
                let nl = before.nd(i).left;
                let nr = before.nd(i).right;
                let np = before.nd(i).parent;
                if nl != EMPTY_REF {
                    assert(before.slot_ok(nl));
                }
                if nr != EMPTY_REF {
                    assert(before.slot_ok(nr));
                }
                if np != EMPTY_REF {
                    assert(before.slot_ok(np));
                }
            }
        }
        assert forall|q: int| 0 <= q < self.count() implies {
            let n = #[trigger] self.order@[q];
            n != NIL_INDEX && self.live(n) && self.mt(n).pos == q
        } by {
            let n = before.order@[q];
            assert(n != NIL_INDEX && before.live(n) && before.mt(n).pos == q);
        }
        assert forall|k: int| 0 <= k < self.store.unused@.len() implies {
            let f = #[trigger] self.store.unused@[k];
            f != NIL_INDEX && !self.mt(f).live
        } by {
            let f = before.store.unused@[k];
            assert(f != NIL_INDEX && !before.mt(f).live && f < before.slots());
        }
        assert forall|q: int| 0 <= q < self.count() implies self.key_at(q) == before.key_at(q)
            && self.val_at(q) == before.val_at(q) by {
            let n = before.order@[q];
            assert(n != NIL_INDEX && before.live(n));
            assert(self.nd(n).entity == before.nd(n).entity);
        }
        if before.keys_sorted() {
            assert forall|i: int, j: int| 0 <= i < j < self.count() implies crate::order::key_le(
                #[trigger] self.key_at(i),
                #[trigger] self.key_at(j),
            ) by {
                assert(crate::order::key_le(before.key_at(i), before.key_at(j)));
            }
        }
        assert(self.view() =~= before.view());
    }

    /// Where no entity moved the entries read in key order are the same.
    pub proof fn lemma_entries_kept(&self, before: &Self)
        requires
            before.structure(),
            self.entries_kept(before),
        ensures
            before.keys_sorted() ==> self.keys_sorted(),
            self.view() == before.view(),
    {
        assert forall|q: int| 0 <= q < self.count() implies self.key_at(q) == before.key_at(q)
            && self.val_at(q) == before.val_at(q) by {
            let n = before.order@[q];
            assert(n != NIL_INDEX && before.live(n));
            assert(self.nd(n).entity == before.nd(n).entity);
        }
        if before.keys_sorted() {
            assert forall|i: int, j: int| 0 <= i < j < self.count() implies crate::order::key_le(
                #[trigger] self.key_at(i),
                #[trigger] self.key_at(j),
            ) by {
                assert(crate::order::key_le(before.key_at(i), before.key_at(j)));
            }
        }
        assert(self.view() =~= before.view());
    }

    /// Recolouring a red parent and a red uncle black and the grandparent red
    /// moves the pair of red nodes two levels up.
    pub proof fn lemma_recolored_uncle(&self, before: &Self, n: u32)
        requires
            before.structure(),
            before.balanced(EMPTY_REF, n),
            before.live(n),
            n != NIL_INDEX,
            !before.mt(NIL_INDEX).live,
            before.red(n),
            before.nd(n).parent != EMPTY_REF,
            before.red(before.nd(n).parent),
            before.nd(before.nd(n).parent).parent != EMPTY_REF,
            ({
                let p = before.nd(n).parent;
                let g = before.nd(p).parent;
                let u = if before.nd(g).left == p {
                    before.nd(g).right
                } else {
                    before.nd(g).left
                };
                &&& u != EMPTY_REF
                &&& before.red(u)
                &&& self.links_kept(before)
                &&& self.nd(p).is_black()
                &&& self.nd(u).is_black()
                &&& !self.nd(g).is_black()
                &&& self.mt(p).bh == before.mt(p).bh + 1
                &&& self.mt(u).bh == before.mt(u).bh + 1
                &&& forall|i: u32|
                    i < self.slots() && i != p && i != u && i != g ==> (#[trigger] self.nd(i)).color
                        == before.nd(i).color
                &&& forall|i: u32|
                    i < self.slots() && i != p && i != u ==> (#[trigger] self.mt(i)).bh == before.mt(i).bh
            }),
        ensures
            self.balanced(EMPTY_REF, before.nd(before.nd(n).parent).parent),
    {
        let p = before.nd(n).parent;
        let g = before.nd(p).parent;
        let u = if before.nd(g).left == p {
            before.nd(g).right
        } else {
            before.nd(g).left
        };
        assert(before.slot_ok(n));
        assert(before.slot_ok(p));
        assert(before.slot_ok(g));
        assert(before.slot_ok(u));
        assert(before.bal_ok(n, EMPTY_REF, n));
        assert(before.bal_ok(p, EMPTY_REF, n));
        assert(before.bal_ok(g, EMPTY_REF, n));
        assert(before.bal_ok(u, EMPTY_REF, n));
        assert forall|i: u32| self.live(i) implies #[trigger] self.bal_ok(i, EMPTY_REF, g) by {
            assert(before.live(i));
            assert(before.slot_ok(i));
            assert(before.bal_ok(i, EMPTY_REF, n));
            let nl = before.nd(i).left;
            let nr = before.nd(i).right;
            if nl != EMPTY_REF {
                assert(before.slot_ok(nl));
            }
            if nr != EMPTY_REF {
                assert(before.slot_ok(nr));
            }
        }
    }

    /// A pair of red nodes that no red parent sits above breaks no rule.
    pub proof fn lemma_twin_settled(&self, n: u32)
        requires
            self.structure(),
            self.balanced(EMPTY_REF, n),
            n == EMPTY_REF || (self.live(n) && (self.nd(n).parent == EMPTY_REF || !self.red(
                self.nd(n).parent,
            ) || !self.red(n))),
        ensures
            self.balanced(EMPTY_REF, EMPTY_REF),
    {
        assert forall|i: u32| self.live(i) implies #[trigger] self.bal_ok(i, EMPTY_REF, EMPTY_REF) by {
            assert(self.slot_ok(i));
            assert(self.bal_ok(i, EMPTY_REF, n));
            if n != EMPTY_REF {
                assert(self.slot_ok(n));
            }
        }
    }

    /// Rotating a red parent under its red inner child swaps the two.
    pub proof fn lemma_rotated_twins(&self, before: &Self, n: u32, left: bool)
        requires
            before.structure(),
            before.balanced(EMPTY_REF, n),
            before.live(n),
            n != NIL_INDEX,
            !before.mt(NIL_INDEX).live,
            before.red(n),
            before.nd(n).parent != EMPTY_REF,
            before.red(before.nd(n).parent),
            left ==> before.nd(before.nd(n).parent).right == n && self.rotated_left(
                before,
                before.nd(n).parent,
            ),
            !left ==> before.nd(before.nd(n).parent).left == n && self.rotated_right(
                before,
                before.nd(n).parent,
            ),
        ensures
            self.balanced(EMPTY_REF, before.nd(n).parent),
    {
        let p = before.nd(n).parent;
        assert(before.slot_ok(n));
        assert(before.slot_ok(p));
        assert(before.bal_ok(n, EMPTY_REF, n));
        assert(before.bal_ok(p, EMPTY_REF, n));
        let g = before.nd(p).parent;
        if g != EMPTY_REF {
            assert(before.slot_ok(g));
            assert(before.bal_ok(g, EMPTY_REF, n));
        }
        assert forall|i: u32| i < self.slots() implies self.mt(i).bh == before.mt(i).bh && self.mt(
            i,
        ).live == before.mt(i).live by {}
        assert forall|i: u32| self.live(i) implies #[trigger] self.bal_ok(i, EMPTY_REF, p) by {
            assert(before.live(i));
            assert(before.slot_ok(i));
            assert(before.bal_ok(i, EMPTY_REF, n));
            let nl = before.nd(i).left;
            let nr = before.nd(i).right;
            if nl != EMPTY_REF {
                assert(before.slot_ok(nl));
            }
            if nr != EMPTY_REF {
                assert(before.slot_ok(nr));
            }
        }
    }

    /// A rotation at a node below the root keeps the root and its colour.
    pub proof fn lemma_root_kept(&self, before: &Self, x: u32, left: bool)
        requires
            before.structure(),
            before.live(x),
            x != NIL_INDEX,
            before.nd(x).parent != EMPTY_REF,
            left ==> self.rotated_left(before, x),
            !left ==> self.rotated_right(before, x),
        ensures
            self.root == before.root,
            self.root != EMPTY_REF,
            self.nd(self.root).color == before.nd(before.root).color,
    {
        assert(before.slot_ok(x));
        assert(before.count() > 0);
        assert(before.root != EMPTY_REF);
        assert(before.slot_ok(before.root));
    }

    /// After a grandparent, rotated under its child, swapped colours with
    /// that child, which is black now, the root is black if it was.
    pub proof fn lemma_top_root(&self, mid: &Self, before: &Self, g: u32, left: bool)
        requires
            before.structure(),
            before.live(g),
            before.root != EMPTY_REF ==> before.nd(before.root).is_black(),
            ({
                let t = if left {
                    before.nd(g).right
                } else {
                    before.nd(g).left
                };
                &&& t != EMPTY_REF
                &&& left ==> mid.rotated_left(before, g)
                &&& !left ==> mid.rotated_right(before, g)
                &&& self.links_kept(mid)
                &&& self.nd(t).is_black()
                &&& forall|i: u32|
                    i < self.slots() && i != t && i != g ==> (#[trigger] self.nd(i)).color == mid.nd(
                        i,
                    ).color
            }),
        ensures
            self.root != EMPTY_REF ==> self.nd(self.root).is_black(),
    {
        assert(before.slot_ok(g));
        if before.root != EMPTY_REF {
            assert(before.slot_ok(before.root));
        }
        let t = if left {
            before.nd(g).right
        } else {
            before.nd(g).left
        };
        assert(before.slot_ok(t));
        if before.nd(g).parent != EMPTY_REF {
            assert(self.root == before.root);
            assert(self.root != g);
            assert(self.root != t);
            assert(self.nd(self.root).color == mid.nd(self.root).color);
            assert(mid.nd(self.root).color == before.nd(self.root).color);
        }
    }

    /// Recolouring nodes that stand below the root leaves the root black.
    pub proof fn lemma_root_left(&self, before: &Self, p: u32, u: u32, g: u32)
        requires
            before.structure(),
            before.root != EMPTY_REF ==> before.nd(before.root).is_black(),
            self.links_kept(before),
            before.nd(p).parent != EMPTY_REF,
            before.nd(u).parent != EMPTY_REF,
            before.nd(g).parent != EMPTY_REF,
            forall|i: u32|
                i < self.slots() && i != p && i != u && i != g ==> (#[trigger] self.nd(i)).color
                    == before.nd(i).color,
        ensures
            self.root != EMPTY_REF ==> self.nd(self.root).is_black(),
    {
        if before.root != EMPTY_REF {
            assert(before.slot_ok(before.root));
            assert(self.nd(self.root).color == before.nd(self.root).color);
        }
    }

    /// Rotating a black grandparent under its red child, whose outer child is
    /// red too, and swapping the colours of the two restores every rule.
    pub proof fn lemma_rotated_top(&self, mid: &Self, before: &Self, g: u32, left: bool)
        requires
            before.structure(),
            before.live(g),
            g != NIL_INDEX,
            !before.mt(NIL_INDEX).live,
            before.nd(g).is_black(),
            ({
                let t = if left {
                    before.nd(g).right
                } else {
                    before.nd(g).left
                };
                let u = if left {
                    before.nd(g).left
                } else {
                    before.nd(g).right
                };
                let c = if left {
                    before.nd(t).right
                } else {
                    before.nd(t).left
                };
                &&& t != EMPTY_REF
                &&& before.red(t)
                &&& before.red(c)
                &&& !before.red(u)
                &&& before.balanced(EMPTY_REF, c)
                &&& left ==> mid.rotated_left(before, g)
                &&& !left ==> mid.rotated_right(before, g)
                &&& mid.structure()
                &&& self.links_kept(mid)
                &&& self.nd(t).is_black()
                &&& !self.nd(g).is_black()
                &&& self.mt(t).bh == before.mt(g).bh
                &&& self.mt(g).bh == before.bh_of(u)
                &&& forall|i: u32|
                    i < self.slots() && i != t && i != g ==> (#[trigger] self.nd(i)).color == mid.nd(
                        i,
                    ).color
                &&& forall|i: u32|
                    i < self.slots() && i != t && i != g ==> (#[trigger] self.mt(i)).bh == mid.mt(i).bh
            }),
        ensures
            self.balanced(EMPTY_REF, EMPTY_REF),
    {
        let t = if left {
            before.nd(g).right
        } else {
            before.nd(g).left
        };
        let u = if left {
            before.nd(g).left
        } else {
            before.nd(g).right
        };
        let c = if left {
            before.nd(t).right
        } else {
            before.nd(t).left
        };
        let inner = if left {
            before.nd(t).left
        } else {
            before.nd(t).right
        };
        assert(before.slot_ok(g));
        assert(before.slot_ok(t));
        assert(before.slot_ok(c));
        assert(before.bal_ok(g, EMPTY_REF, c));
        assert(before.bal_ok(t, EMPTY_REF, c));
        assert(before.bal_ok(c, EMPTY_REF, c));
        if u != EMPTY_REF {
            assert(before.slot_ok(u));
            assert(before.bal_ok(u, EMPTY_REF, c));
        }
        if inner != EMPTY_REF {
            assert(before.slot_ok(inner));
            assert(before.bal_ok(inner, EMPTY_REF, c));
        }
        let gg = before.nd(g).parent;
        if gg != EMPTY_REF {
            assert(before.slot_ok(gg));
            assert(before.bal_ok(gg, EMPTY_REF, c));
        }
        assert forall|i: u32| i < self.slots() implies mid.mt(i).bh == before.mt(i).bh && mid.mt(i).live
            == before.mt(i).live by {}
        assert forall|i: u32| self.live(i) implies #[trigger] self.bal_ok(i, EMPTY_REF, EMPTY_REF) by {
            assert(before.live(i));
            assert(before.slot_ok(i));
            assert(before.bal_ok(i, EMPTY_REF, c));
            let nl = before.nd(i).left;
            let nr = before.nd(i).right;
            if nl != EMPTY_REF {
                assert(before.slot_ok(nl));
            }
            if nr != EMPTY_REF {
                assert(before.slot_ok(nr));
            }
        }
    }

    /// The sibling of `p_index` under its parent.
    #[inline]
    pub fn get_uncle(&self, p_index: u32) -> (uncle: u32)
        requires
            self.structure(),
            self.live(p_index),
            p_index != NIL_INDEX,
            self.nd(p_index).parent != EMPTY_REF,
        ensures
            uncle == if self.nd(self.nd(p_index).parent).left == p_index {
                self.nd(self.nd(p_index).parent).right
            } else {
                self.nd(self.nd(p_index).parent).left
            },
            uncle == EMPTY_REF || self.live(uncle),
    {
        proof {
            assert(self.slot_ok(p_index));
            assert(self.slot_ok(self.nd(p_index).parent));
        }
        let parent = self.node(p_index);
        let grandparent = self.node(parent.parent);
        if grandparent.left == p_index {
            grandparent.right
        } else {
            grandparent.left
        }
    }

    /// Restores the colour rules after the red node `n_index` came to stand
    /// under the red node `p_origin`.
    #[verifier::rlimit(50)]
    pub fn fix_red_black_properties_after_insert(&mut self, n_index: u32, p_origin: u32)
        requires
            old(self).structure(),
            old(self).balanced(EMPTY_REF, n_index),
            !old(self).mt(NIL_INDEX).live,
            old(self).live(n_index),
            old(self).nd(n_index).parent == p_origin,
            p_origin != EMPTY_REF,
            old(self).red(n_index),
            old(self).red(p_origin),
            old(self).root != EMPTY_REF ==> old(self).nd(old(self).root).is_black(),
        ensures
            final(self).structure(),
            final(self).balanced(EMPTY_REF, EMPTY_REF),
            !final(self).mt(NIL_INDEX).live,
            final(self).entries_kept(old(self)),
            final(self).root != EMPTY_REF ==> final(self).nd(final(self).root).is_black(),
        decreases old(self).count() - (old(self).mt(n_index).hi - old(self).mt(n_index).lo),
    {
        proof {
            assert(self.slot_ok(n_index));
            assert(self.slot_ok(p_origin));
            assert(self.bal_ok(p_origin, EMPTY_REF, n_index));
        }
        let mut p_index = p_origin;
        // The root is black, so the red parent has a parent.
        let g_index = self.node(p_index).parent;
        proof {
            assert(g_index != EMPTY_REF);
            assert(self.slot_ok(g_index));
            assert(self.bal_ok(g_index, EMPTY_REF, n_index));
            if self.root != EMPTY_REF {
                assert(self.slot_ok(self.root));
            }
        }

        // Under a red uncle the colours move up: parent and uncle turn black, the
        // grandparent red.
        let u_index = self.get_uncle(p_index);

        if u_index != EMPTY_REF && self.node(u_index).color == Color::Red {
            proof {
                assert(self.slot_ok(u_index));
            }
            self.set_color(p_index, Color::Black);
            self.set_color(g_index, Color::Red);
            self.set_color(u_index, Color::Black);
            proof {
                let before = old(self);
                self.meta@ = before.meta@.update(
                    p_index as int,
                    (Meta { bh: before.mt(p_index).bh + 1, ..before.mt(p_index) }),
                ).update(u_index as int, (Meta { bh: before.mt(u_index).bh + 1, ..before.mt(u_index) }));
                assert(self.links_kept(before));
                self.lemma_links_kept(before);
                self.lemma_recolored_uncle(before, n_index);
            }

            // The red grandparent may stand under a red node in its turn.
            let gg_index = self.node(g_index).parent;
            proof {
                assert(self.slot_ok(g_index));
                if gg_index != EMPTY_REF {
                    assert(self.slot_ok(gg_index));
                }
            }
            if gg_index != EMPTY_REF && self.node(gg_index).color == Color::Red {
                self.fix_red_black_properties_after_insert(g_index, gg_index);
            } else {
                proof {
                    self.lemma_twin_settled(g_index);
                    if gg_index != EMPTY_REF {
                        self.lemma_root_left(old(self), p_index, u_index, g_index);
                    }
                }
                if gg_index == EMPTY_REF {
                    // A red grandparent that is the root is painted black.
                    self.blacken_root();
                }
            }
        } else if p_index == self.node(g_index).left {
            // The parent is the left child, the uncle black.
            let ghost mut start = *self;
            // An inner grandchild is first rotated to the outside.
            if n_index == self.node(p_index).right {
                self.rotate_left(p_index);
                proof {
                    self.lemma_root_kept(old(self), p_index, true);
                    self.lemma_rotated_twins(old(self), n_index, true);
                    assert(self.slot_ok(n_index));
                    assert(self.slot_ok(g_index));
                    start = *self;
                }

                // The node has taken the place of its parent.
                p_index = n_index;
            }
            proof {
                assert(start.structure());
                assert(start.slot_ok(g_index));
                assert(start.slot_ok(p_index));
                assert(start.root != EMPTY_REF ==> start.nd(start.root).is_black());
            }

            // The outer grandchild goes up by a rotation of the grandparent,
            self.rotate_right(g_index);
            let ghost mid = *self;

            // which swaps colours with the node that took its place.
            self.set_color(p_index, Color::Black);
            self.set_color(g_index, Color::Red);
            proof {
                self.meta@ = mid.meta@.update(
                    p_index as int,
                    (Meta { bh: start.mt(g_index).bh, ..mid.mt(p_index) }),
                ).update(g_index as int, (Meta { bh: start.bh_of(u_index), ..mid.mt(g_index) }));
                assert(self.links_kept(&mid));
                self.lemma_links_kept(&mid);
                self.lemma_rotated_top(&mid, &start, g_index, false);
                self.lemma_top_root(&mid, &start, g_index, false);
            }
        } else {
            // The parent is the right child, the uncle black.
            let ghost mut start = *self;
            // An inner grandchild is first rotated to the outside.
            if n_index == self.node(p_index).left {
                self.rotate_right(p_index);
                proof {
                    self.lemma_root_kept(old(self), p_index, false);
                    self.lemma_rotated_twins(old(self), n_index, false);
                    assert(self.slot_ok(n_index));
                    assert(self.slot_ok(g_index));
                    start = *self;
                }

                // The node has taken the place of its parent.
                p_index = n_index;
            }
            proof {
                assert(start.structure());
                assert(start.slot_ok(g_index));
                assert(start.slot_ok(p_index));
                assert(start.root != EMPTY_REF ==> start.nd(start.root).is_black());
            }

            // The outer grandchild goes up by a rotation of the grandparent,
            self.rotate_left(g_index);
            let ghost mid = *self;

            // which swaps colours with the node that took its place.
            self.set_color(p_index, Color::Black);
            self.set_color(g_index, Color::Red);
            proof {
                self.meta@ = mid.meta@.update(
                    p_index as int,
                    (Meta { bh: start.mt(g_index).bh, ..mid.mt(p_index) }),
                ).update(g_index as int, (Meta { bh: start.bh_of(u_index), ..mid.mt(g_index) }));
                assert(self.links_kept(&mid));
                self.lemma_links_kept(&mid);
                self.lemma_rotated_top(&mid, &start, g_index, true);
                self.lemma_top_root(&mid, &start, g_index, true);
            }
        }
    }
}

} // verus!
