use vstd::prelude::*;
use crate::EMPTY_REF;
use crate::rb::node::Color;
use crate::rb::shape::{Meta, RbTree, NIL_INDEX};

verus! {

impl<K: Ord, V> RbTree<K, V> {
    /// The state in which a deletion leaves the tree before it is rebalanced:
    /// every path through `n` lacks one black node, which the record of `n`
    /// makes up for, and `n` may be red under a red parent. The reserved
    /// slot, where it stands in for a deleted leaf, is red and lies below `n`
    /// or is `n` itself.
    pub open spec fn short_at(&self, n: u32) -> bool {
        &&& self.structure()
        &&& self.balanced(n, n)
        &&& self.live(n)
        &&& self.mt(NIL_INDEX).live ==> {
            &&& !self.nd(NIL_INDEX).is_black()
            &&& self.mt(n).lo <= self.mt(NIL_INDEX).lo <= self.mt(n).hi
        }
    }

    /// The state after rebalancing: the colour rules hold everywhere and no
    /// entity has moved.
    pub open spec fn settled_from(&self, before: &Self) -> bool {
        &&& self.structure()
        &&& self.balanced(EMPTY_REF, EMPTY_REF)
        &&& self.entries_kept(before)
        &&& self.mt(NIL_INDEX).live == before.mt(NIL_INDEX).live
        &&& self.nd(NIL_INDEX).color == before.nd(NIL_INDEX).color
    }

    /// What one step of rebalancing at the node `x`, a child of `p`, leaves
    /// alone: every position; the interval of every node within the subtree
    /// of `x` and of every node not within the subtree of `p`; and of `p`
    /// itself the bound on the side of `x`. The subtree of `p` does not grow.
    pub open spec fn step_frame(&self, before: &Self, x: u32, p: u32, left: bool) -> bool {
        &&& forall|j: u32|
            j < self.slots() ==> (#[trigger] self.mt(j)).pos == before.mt(j).pos && self.mt(j).live
                == before.mt(j).live
        &&& forall|j: u32|
            j < self.slots() && ((before.mt(x).lo <= before.mt(j).lo && before.mt(j).hi <= before.mt(x).hi)
                || !(before.mt(p).lo <= before.mt(j).lo && before.mt(j).hi <= before.mt(p).hi)) ==> (
            #[trigger] self.mt(j)).lo == before.mt(j).lo && self.mt(j).hi == before.mt(j).hi
        &&& before.mt(p).lo <= self.mt(p).lo
        &&& self.mt(p).hi <= before.mt(p).hi
        &&& left ==> self.mt(p).lo == before.mt(p).lo
        &&& !left ==> self.mt(p).hi == before.mt(p).hi
    }

    /// Rotating the parent of `n` towards `n` is a step at `n`.
    pub proof fn lemma_frame_parent(&self, mid: &Self, before: &Self, n: u32, left: bool)
        requires
            before.structure(),
            before.live(n),
            before.nd(n).parent != EMPTY_REF,
            before.kid(before.nd(n).parent, left) == n,
            before.kid(before.nd(n).parent, !left) != EMPTY_REF,
            before.kid(before.nd(n).parent, !left) != NIL_INDEX,
            mid.links_kept(before),
            left ==> self.rotated_left(mid, before.nd(n).parent),
            !left ==> self.rotated_right(mid, before.nd(n).parent),
        ensures
            self.step_frame(before, n, before.nd(n).parent, left),
    {
        let p = before.nd(n).parent;
        let s = before.kid(p, !left);
        assert(before.slot_ok(n));
        assert(before.slot_ok(p));
        assert(before.slot_ok(s));
        assert(mid.nd(p).left == before.nd(p).left && mid.nd(p).right == before.nd(p).right);
        assert(mid.mt(p) .lo == before.mt(p).lo && mid.mt(p).hi == before.mt(p).hi && mid.mt(p).pos
            == before.mt(p).pos);
        assert(mid.mt(s) .lo == before.mt(s).lo && mid.mt(s).hi == before.mt(s).hi && mid.mt(s).pos
            == before.mt(s).pos);
        assert forall|i: u32| i < self.slots() implies (#[trigger] self.mt(i)).pos == before.mt(i).pos
            && self.mt(i).live == before.mt(i).live && (i != p && i != s ==> self.mt(i).lo == before.mt(
            i,
        ).lo && self.mt(i).hi == before.mt(i).hi) by {
            assert(mid.mt(i).pos == before.mt(i).pos);
        }
    }

    /// Rotating the sibling of `n` away from `n` is a step at `n`.
    pub proof fn lemma_frame_sibling(&self, mid: &Self, before: &Self, n: u32, left: bool)
        requires
            before.structure(),
            before.live(n),
            before.nd(n).parent != EMPTY_REF,
            before.kid(before.nd(n).parent, left) == n,
            before.kid(before.nd(n).parent, !left) != EMPTY_REF,
            before.kid(before.nd(n).parent, !left) != NIL_INDEX,
            before.kid(before.kid(before.nd(n).parent, !left), left) != EMPTY_REF,
            before.kid(before.kid(before.nd(n).parent, !left), left) != NIL_INDEX,
            mid.links_kept(before),
            left ==> self.rotated_right(mid, before.kid(before.nd(n).parent, !left)),
            !left ==> self.rotated_left(mid, before.kid(before.nd(n).parent, !left)),
        ensures
            self.step_frame(before, n, before.nd(n).parent, left),
    {
        let p = before.nd(n).parent;
        let s = before.kid(p, !left);
        let inner = before.kid(s, left);
        assert(before.slot_ok(n));
        assert(before.slot_ok(p));
        assert(before.slot_ok(s));
        assert(before.slot_ok(inner));
        assert(mid.nd(s).left == before.nd(s).left && mid.nd(s).right == before.nd(s).right);
        assert(mid.mt(s) .lo == before.mt(s).lo && mid.mt(s).hi == before.mt(s).hi && mid.mt(s).pos
            == before.mt(s).pos);
        assert(mid.mt(inner) .lo == before.mt(inner).lo && mid.mt(inner).hi == before.mt(inner).hi
            && mid.mt(inner).pos == before.mt(inner).pos);
        assert forall|i: u32| i < self.slots() implies (#[trigger] self.mt(i)).pos == before.mt(i).pos
            && self.mt(i).live == before.mt(i).live && (i != inner && i != s ==> self.mt(i).lo
            == before.mt(i).lo && self.mt(i).hi == before.mt(i).hi) by {
            assert(mid.mt(i).pos == before.mt(i).pos);
        }
    }

    /// Two steps at the same node leave alone what each of them does.
    pub proof fn lemma_two_steps(&self, mid: &Self, before: &Self, x: u32, p: u32, left: bool)
        requires
            self.slots() == mid.slots(),
            mid.slots() == before.slots(),
            x < before.slots(),
            p < before.slots(),
            mid.step_frame(before, x, p, left),
            self.step_frame(mid, x, p, left),
        ensures
            self.step_frame(before, x, p, left),
    {
        assert(mid.mt(x).lo == before.mt(x).lo && mid.mt(x).hi == before.mt(x).hi);
        assert forall|j: u32|
            j < self.slots() && ((before.mt(x).lo <= before.mt(j).lo && before.mt(j).hi <= before.mt(x).hi)
                || !(before.mt(p).lo <= before.mt(j).lo && before.mt(j).hi <= before.mt(p).hi)) implies (
        #[trigger] self.mt(j)).lo == before.mt(j).lo && self.mt(j).hi == before.mt(j).hi by {
            assert(mid.mt(j).lo == before.mt(j).lo && mid.mt(j).hi == before.mt(j).hi);
        }
        assert forall|j: u32| j < self.slots() implies (#[trigger] self.mt(j)).pos == before.mt(j).pos
            && self.mt(j).live == before.mt(j).live by {
            assert(mid.mt(j).pos == before.mt(j).pos);
        }
    }

    /// A state leaves itself alone.
    pub proof fn lemma_no_step(&self, x: u32, p: u32, left: bool)
        ensures
            self.step_frame(self, x, p, left),
    {
    }

    /// What rebalancing from the node `x` upwards leaves alone: every
    /// position; the interval of every node within the subtree of `x`; and of
    /// the node `a`, which stands `k` levels above `x`, the bound on the side
    /// of `x`.
    pub open spec fn anchored(&self, before: &Self, x: u32, a: u32, k: nat) -> bool {
        &&& forall|j: u32|
            j < self.slots() ==> (#[trigger] self.mt(j)).pos == before.mt(j).pos && self.mt(j).live
                == before.mt(j).live
        &&& forall|j: u32|
            j < self.slots() && before.mt(x).lo <= before.mt(j).lo && before.mt(j).hi <= before.mt(x).hi ==> (
            #[trigger] self.mt(j)).lo == before.mt(j).lo && self.mt(j).hi == before.mt(j).hi
        &&& a != EMPTY_REF && k >= 1 ==> {
            let c = before.ancestor(x, (k - 1) as nat);
            &&& before.nd(a).left == c ==> self.mt(a).lo == before.mt(a).lo
            &&& before.nd(a).left != c ==> self.mt(a).hi == before.mt(a).hi
        }
    }

    /// Colours and black heights of `self` are those of `before` but for the
    /// four nodes given; links and positions are the same.
    pub open spec fn repainted(&self, before: &Self, a: u32, b: u32, c: u32, d: u32) -> bool {
        &&& self.links_kept(before)
        &&& forall|i: u32|
            i < self.slots() && i != a && i != b && i != c && i != d ==> (#[trigger] self.nd(i)).color
                == before.nd(i).color
        &&& forall|i: u32|
            i < self.slots() && i != a && i != b && i != c && i != d ==> (#[trigger] self.mt(i)).bh
                == before.mt(i).bh
    }

    /// A red sibling: after it and the parent swapped colours and the parent
    /// was rotated towards `n`, the new sibling of `n` is black.
    pub proof fn lemma_red_sibling(&self, mid: &Self, before: &Self, n: u32, left: bool)
        requires
            before.short_at(n),
            before.nd(n).parent != EMPTY_REF,
            before.kid(before.nd(n).parent, left) == n,
            before.red(before.kid(before.nd(n).parent, !left)),
            ({
                let p = before.nd(n).parent;
                let s = before.kid(p, !left);
                &&& mid.repainted(before, s, p, p, p)
                &&& mid.nd(s).is_black()
                &&& !mid.nd(p).is_black()
                &&& mid.mt(p).bh == before.mt(n).bh
                &&& mid.mt(s).bh == before.mt(p).bh
                &&& left ==> self.rotated_left(mid, p)
                &&& !left ==> self.rotated_right(mid, p)
            }),
            self.structure(),
        ensures
            self.short_at(n),
            self.nd(n).parent == before.nd(n).parent,
            self.kid(before.nd(n).parent, left) == n,
            self.kid(before.nd(n).parent, !left) != EMPTY_REF,
            !self.red(self.kid(before.nd(n).parent, !left)),
            self.red(before.nd(n).parent),
            self.mt(n) == before.mt(n),
            self.mt(NIL_INDEX).live == before.mt(NIL_INDEX).live,
            self.nd(NIL_INDEX).color == before.nd(NIL_INDEX).color,
    {
        let p = before.nd(n).parent;
        let s = before.kid(p, !left);
        let inner = before.kid(s, left);
        let outer = before.kid(s, !left);
        assert(before.slot_ok(n));
        assert(before.slot_ok(p));
        assert(before.slot_ok(s));
        assert(mid.nd(p).left == before.nd(p).left && mid.nd(p).right == before.nd(p).right);
        assert(p < self.slots() && s < self.slots() && mid.kid(p, !left) == s);
        assert forall|i: u32| i < self.slots() implies (#[trigger] self.mt(i)).bh == mid.mt(i).bh && self.mt(
            i,
        ).live == mid.mt(i).live by {
            if left {
                assert(self.rotated_left(mid, p));
            } else {
                assert(self.rotated_right(mid, p));
            }
        }
        assert forall|i: u32| i < self.slots() implies (#[trigger] mid.mt(i)).live == before.mt(i).live by {}
        assert(before.bal_ok(n, n, n));
        assert(before.bal_ok(p, n, n));
        assert(before.bal_ok(s, n, n));
        if before.mt(NIL_INDEX).live {
            assert(before.slot_ok(NIL_INDEX));
        }
        if inner != EMPTY_REF {
            assert(before.slot_ok(inner));
            assert(before.bal_ok(inner, n, n));
        }
        if outer != EMPTY_REF {
            assert(before.slot_ok(outer));
            assert(before.bal_ok(outer, n, n));
        }
        let g = before.nd(p).parent;
        if g != EMPTY_REF {
            assert(before.slot_ok(g));
            assert(before.bal_ok(g, n, n));
        }
        assert(s != NIL_INDEX);
        assert(p != NIL_INDEX);
        assert forall|i: u32| self.live(i) implies #[trigger] self.bal_ok(i, n, n) by {
            assert(before.live(i));
            assert(before.slot_ok(i));
            assert(before.bal_ok(i, n, n));
            let nl = before.nd(i).left;
            let nr = before.nd(i).right;
            if nl != EMPTY_REF {
                assert(before.slot_ok(nl));
            }
            if nr != EMPTY_REF {
                assert(before.slot_ok(nr));
            }
        }
    }

    /// A black sibling with two black children turns red. Under a red parent,
    /// which turns black, that restores every rule; under a black parent it
    /// moves the shortage one level up.
    pub proof fn lemma_black_family(&self, before: &Self, n: u32)
        requires
            before.short_at(n),
            before.nd(n).parent != EMPTY_REF,
            ({
                let p = before.nd(n).parent;
                let s = before.sibling(n);
                &&& s != EMPTY_REF
                &&& !before.red(s)
                &&& !before.red(before.nd(s).left)
                &&& !before.red(before.nd(s).right)
                &&& self.repainted(before, s, p, n, n)
                &&& !self.nd(s).is_black()
                &&& self.nd(p).is_black()
                &&& self.nd(n).color == before.nd(n).color
                &&& self.mt(s).bh == before.mt(s).bh - 1
                &&& self.mt(n).bh == before.mt(n).bh - 1
                &&& self.mt(p).bh == before.mt(p).bh
            }),
        ensures
            self.structure(),
            before.red(before.nd(n).parent) ==> self.balanced(EMPTY_REF, EMPTY_REF),
            !before.red(before.nd(n).parent) ==> self.short_at(before.nd(n).parent),
            self.entries_kept(before),
            self.mt(NIL_INDEX).live == before.mt(NIL_INDEX).live,
            self.nd(NIL_INDEX).color == before.nd(NIL_INDEX).color,
            before.mt(before.nd(n).parent).hi - before.mt(before.nd(n).parent).lo > before.mt(n).hi
                - before.mt(n).lo,
    {
        let p = before.nd(n).parent;
        let s = before.sibling(n);
        self.lemma_links_kept(before);
        assert(before.slot_ok(n));
        assert(before.slot_ok(p));
        assert(before.slot_ok(s));
        assert(before.bal_ok(n, n, n));
        assert(before.bal_ok(p, n, n));
        assert(before.bal_ok(s, n, n));
        if before.mt(NIL_INDEX).live {
            assert(before.slot_ok(NIL_INDEX));
        }
        let sl = before.nd(s).left;
        let sr = before.nd(s).right;
        if sl != EMPTY_REF {
            assert(before.slot_ok(sl));
            assert(before.bal_ok(sl, n, n));
        }
        if sr != EMPTY_REF {
            assert(before.slot_ok(sr));
            assert(before.bal_ok(sr, n, n));
        }
        let g = before.nd(p).parent;
        if g != EMPTY_REF {
            assert(before.slot_ok(g));
            assert(before.bal_ok(g, n, n));
        }
        assert(s != NIL_INDEX);
        assert(p != NIL_INDEX);
        if before.red(p) {
            assert forall|i: u32| self.live(i) implies #[trigger] self.bal_ok(i, EMPTY_REF, EMPTY_REF) by {
                assert(before.live(i));
                assert(before.slot_ok(i));
                assert(before.bal_ok(i, n, n));
                let nl = before.nd(i).left;
                let nr = before.nd(i).right;
                if nl != EMPTY_REF {
                    assert(before.slot_ok(nl));
                }
                if nr != EMPTY_REF {
                    assert(before.slot_ok(nr));
                }
            }
        } else {
            assert forall|i: u32| self.live(i) implies #[trigger] self.bal_ok(i, p, p) by {
                assert(before.live(i));
                assert(before.slot_ok(i));
                assert(before.bal_ok(i, n, n));
                let nl = before.nd(i).left;
                let nr = before.nd(i).right;
                if nl != EMPTY_REF {
                    assert(before.slot_ok(nl));
                }
                if nr != EMPTY_REF {
                    assert(before.slot_ok(nr));
                }
            }
        }
    }

    /// A black sibling whose inner child is red and whose outer child is
    /// black: after the two swapped colours and the sibling was rotated away
    /// from `n`, the sibling of `n` is black and its outer child red.
    pub proof fn lemma_inner_nephew(&self, mid: &Self, before: &Self, n: u32, left: bool)
        requires
            before.short_at(n),
            before.nd(n).parent != EMPTY_REF,
            before.kid(before.nd(n).parent, left) == n,
            ({
                let p = before.nd(n).parent;
                let s = before.kid(p, !left);
                let inner = before.kid(s, left);
                let outer = before.kid(s, !left);
                &&& s != EMPTY_REF
                &&& !before.red(s)
                &&& before.red(inner)
                &&& !before.red(outer)
                &&& mid.repainted(before, s, inner, inner, inner)
                &&& mid.nd(inner).is_black()
                &&& !mid.nd(s).is_black()
                &&& mid.mt(s).bh == before.mt(n).bh - 1
                &&& mid.mt(inner).bh == before.mt(n).bh
                &&& left ==> self.rotated_right(mid, s)
                &&& !left ==> self.rotated_left(mid, s)
            }),
            self.structure(),
        ensures
            self.short_at(n),
            self.nd(n).parent == before.nd(n).parent,
            self.kid(before.nd(n).parent, left) == n,
            self.kid(before.nd(n).parent, !left) == before.kid(before.kid(before.nd(n).parent, !left), left),
            !self.red(self.kid(before.nd(n).parent, !left)),
            self.red(self.kid(self.kid(before.nd(n).parent, !left), !left)),
            self.mt(n) == before.mt(n),
            self.entries_kept(before),
            self.mt(NIL_INDEX).live == before.mt(NIL_INDEX).live,
            self.nd(NIL_INDEX).color == before.nd(NIL_INDEX).color,
    {
        let p = before.nd(n).parent;
        let s = before.kid(p, !left);
        let inner = before.kid(s, left);
        let outer = before.kid(s, !left);
        assert(before.slot_ok(n));
        assert(before.slot_ok(p));
        assert(before.slot_ok(s));
        assert(before.slot_ok(inner));
        assert(mid.nd(s).left == before.nd(s).left && mid.nd(s).right == before.nd(s).right);
        assert(inner < self.slots() && s < self.slots() && mid.kid(s, left) == inner);
        assert forall|i: u32| i < self.slots() implies (#[trigger] self.mt(i)).bh == mid.mt(i).bh && self.mt(
            i,
        ).live == mid.mt(i).live by {
            if left {
                assert(self.rotated_right(mid, s));
            } else {
                assert(self.rotated_left(mid, s));
            }
        }
        assert forall|i: u32| i < self.slots() implies (#[trigger] mid.mt(i)).live == before.mt(i).live by {}
        assert(before.bal_ok(n, n, n));
        assert(before.bal_ok(p, n, n));
        assert(before.bal_ok(s, n, n));
        assert(before.bal_ok(inner, n, n));
        if before.mt(NIL_INDEX).live {
            assert(before.slot_ok(NIL_INDEX));
        }
        if outer != EMPTY_REF {
            assert(before.slot_ok(outer));
            assert(before.bal_ok(outer, n, n));
        }
        let il = before.nd(inner).left;
        let ir = before.nd(inner).right;
        if il != EMPTY_REF {
            assert(before.slot_ok(il));
            assert(before.bal_ok(il, n, n));
        }
        if ir != EMPTY_REF {
            assert(before.slot_ok(ir));
            assert(before.bal_ok(ir, n, n));
        }
        assert(s != NIL_INDEX);
        assert(inner != NIL_INDEX);
        assert forall|i: u32| self.live(i) implies #[trigger] self.bal_ok(i, n, n) by {
            assert(before.live(i));
            assert(before.slot_ok(i));
            assert(before.bal_ok(i, n, n));
            let nl = before.nd(i).left;
            let nr = before.nd(i).right;
            if nl != EMPTY_REF {
                assert(before.slot_ok(nl));
            }
            if nr != EMPTY_REF {
                assert(before.slot_ok(nr));
            }
        }
    }

    /// A black sibling whose outer child is red: after the sibling took the
    /// parent's colour, parent and outer child turned black and the parent
    /// was rotated towards `n`, every rule holds.
    pub proof fn lemma_outer_nephew(&self, mid: &Self, before: &Self, n: u32, left: bool)
        requires
            before.short_at(n),
            before.nd(n).parent != EMPTY_REF,
            before.kid(before.nd(n).parent, left) == n,
            ({
                let p = before.nd(n).parent;
                let s = before.kid(p, !left);
                let outer = before.kid(s, !left);
                &&& s != EMPTY_REF
                &&& !before.red(s)
                &&& before.red(outer)
                &&& mid.repainted(before, s, p, outer, n)
                &&& mid.nd(s).color == before.nd(p).color
                &&& mid.nd(p).is_black()
                &&& mid.nd(outer).is_black()
                &&& mid.nd(n).color == before.nd(n).color
                &&& mid.mt(n).bh == before.mt(n).bh - 1
                &&& mid.mt(p).bh == before.mt(n).bh
                &&& mid.mt(outer).bh == before.mt(n).bh
                &&& mid.mt(s).bh == before.mt(p).bh
                &&& left ==> self.rotated_left(mid, p)
                &&& !left ==> self.rotated_right(mid, p)
            }),
            self.structure(),
        ensures
            self.balanced(EMPTY_REF, EMPTY_REF),
            self.entries_kept(before),
            self.mt(NIL_INDEX).live == before.mt(NIL_INDEX).live,
            self.nd(NIL_INDEX).color == before.nd(NIL_INDEX).color,
    {
        let p = before.nd(n).parent;
        let s = before.kid(p, !left);
        let inner = before.kid(s, left);
        let outer = before.kid(s, !left);
        assert(before.slot_ok(n));
        assert(before.slot_ok(p));
        assert(before.slot_ok(s));
        assert(mid.nd(p).left == before.nd(p).left && mid.nd(p).right == before.nd(p).right);
        assert(p < self.slots() && s < self.slots() && mid.kid(p, !left) == s);
        assert forall|i: u32| i < self.slots() implies (#[trigger] self.mt(i)).bh == mid.mt(i).bh && self.mt(
            i,
        ).live == mid.mt(i).live by {
            if left {
                assert(self.rotated_left(mid, p));
            } else {
                assert(self.rotated_right(mid, p));
            }
        }
        assert forall|i: u32| i < self.slots() implies (#[trigger] mid.mt(i)).live == before.mt(i).live by {}
        assert(before.slot_ok(outer));
        assert(before.bal_ok(n, n, n));
        assert(before.bal_ok(p, n, n));
        assert(before.bal_ok(s, n, n));
        assert(before.bal_ok(outer, n, n));
        if before.mt(NIL_INDEX).live {
            assert(before.slot_ok(NIL_INDEX));
        }
        if inner != EMPTY_REF {
            assert(before.slot_ok(inner));
            assert(before.bal_ok(inner, n, n));
        }
        let g = before.nd(p).parent;
        if g != EMPTY_REF {
            assert(before.slot_ok(g));
            assert(before.bal_ok(g, n, n));
        }
        let ol = before.nd(outer).left;
        let or = before.nd(outer).right;
        if ol != EMPTY_REF {
            assert(before.slot_ok(ol));
        }
        if or != EMPTY_REF {
            assert(before.slot_ok(or));
        }
        assert(s != NIL_INDEX);
        assert(outer != NIL_INDEX);
        assert(p != NIL_INDEX);
        assert forall|i: u32| self.live(i) implies #[trigger] self.bal_ok(i, EMPTY_REF, EMPTY_REF) by {
            assert(before.live(i));
            assert(before.slot_ok(i));
            assert(before.bal_ok(i, n, n));
            let nl = before.nd(i).left;
            let nr = before.nd(i).right;
            if nl != EMPTY_REF {
                assert(before.slot_ok(nl));
            }
            if nr != EMPTY_REF {
                assert(before.slot_ok(nr));
            }
        }
    }

    /// One step at `x` leaves alone what rebalancing from `x` upwards is to
    /// leave alone.
    pub proof fn lemma_step_anchored(&self, before: &Self, x: u32, a: u32, k: nat)
        requires
            before.structure(),
            before.live(x),
            before.nd(x).parent != EMPTY_REF,
            self.slots() == before.slots(),
            a != EMPTY_REF ==> before.above(a, x, k),
            self.step_frame(
                before,
                x,
                before.nd(x).parent,
                before.nd(before.nd(x).parent).left == x,
            ),
        ensures
            self.anchored(before, x, a, k),
    {
        let p = before.nd(x).parent;
        assert(before.slot_ok(x));
        assert(before.slot_ok(p));
        if a != EMPTY_REF && k >= 1 {
            before.lemma_above(a, x, k);
            let k1 = (k - 1) as nat;
            if k1 == 0 {
                assert(before.ancestor(p, 0) == p);
                assert(before.ancestor(x, 0) == x);
                assert(a == p);
            } else {
                before.lemma_above(a, p, k1);
                assert(self.mt(a).lo == before.mt(a).lo && self.mt(a).hi == before.mt(a).hi);
            }
        }
    }

    /// Where the step at `x` changed colours only, what rebalancing from the
    /// parent of `x` upwards leaves alone is left alone from `x` upwards.
    pub proof fn lemma_up_anchored(&self, mid: &Self, before: &Self, x: u32, a: u32, k: nat)
        requires
            before.structure(),
            before.live(x),
            before.nd(x).parent != EMPTY_REF,
            mid.links_kept(before),
            self.slots() == before.slots(),
            a != EMPTY_REF ==> before.above(a, x, k),
            self.anchored(
                mid,
                before.nd(x).parent,
                if a != EMPTY_REF && k >= 1 {
                    a
                } else {
                    EMPTY_REF
                },
                if a != EMPTY_REF && k >= 1 {
                    (k - 1) as nat
                } else {
                    0nat
                },
            ),
        ensures
            self.anchored(before, x, a, k),
    {
        let p = before.nd(x).parent;
        assert(before.slot_ok(x));
        assert(before.slot_ok(p));
        assert forall|j: u32| j < self.slots() implies (#[trigger] self.mt(j)).pos == before.mt(j).pos
            && self.mt(j).live == before.mt(j).live by {
            assert(mid.mt(j).pos == before.mt(j).pos);
        }
        assert forall|j: u32|
            j < self.slots() && before.mt(x).lo <= before.mt(j).lo && before.mt(j).hi <= before.mt(x).hi implies (
        #[trigger] self.mt(j)).lo == before.mt(j).lo && self.mt(j).hi == before.mt(j).hi by {
            assert(mid.mt(j).lo == before.mt(j).lo && mid.mt(j).hi == before.mt(j).hi);
            assert(mid.mt(p).lo == before.mt(p).lo && mid.mt(p).hi == before.mt(p).hi);
        }
        if a != EMPTY_REF && k >= 1 {
            before.lemma_above(a, x, k);
            let k1 = (k - 1) as nat;
            assert(mid.mt(a).lo == before.mt(a).lo && mid.mt(a).hi == before.mt(a).hi);
            assert(mid.mt(p).lo == before.mt(p).lo && mid.mt(p).hi == before.mt(p).hi);
            if k1 == 0 {
                assert(before.ancestor(p, 0) == p);
                assert(a == p);
            } else {
                mid.lemma_above_kept(before, a, p, k1);
                let k2 = (k1 - 1) as nat;
                assert(before.ancestor(x, k1) == before.ancestor(p, k2));
                assert(mid.ancestor(p, k2) == before.ancestor(p, k2));
                assert(mid.nd(a).left == before.nd(a).left);
            }
        }
    }

    /// What is known of the relatives of a node that is short of a black
    /// node and is not the root.
    pub proof fn lemma_family(&self, n: u32)
        requires
            self.short_at(n),
            self.nd(n).parent != EMPTY_REF,
        ensures
            ({
                let p = self.nd(n).parent;
                let s = self.sibling(n);
                let sl = self.nd(s).left;
                let sr = self.nd(s).right;
                &&& p != NIL_INDEX
                &&& self.live(p)
                &&& p != n
                &&& (self.nd(p).left == n || self.nd(p).right == n)
                &&& self.nd(p).left != self.nd(p).right
                &&& s != EMPTY_REF
                &&& s != NIL_INDEX
                &&& self.live(s)
                &&& s != n
                &&& s != p
                &&& self.nd(s).parent == p
                &&& sl != EMPTY_REF ==> self.live(sl) && sl != NIL_INDEX && sl != n && sl != p && sl != s
                &&& sr != EMPTY_REF ==> self.live(sr) && sr != NIL_INDEX && sr != n && sr != p && sr != s
                &&& sl != EMPTY_REF ==> sl != sr
                &&& self.mt(p).hi - self.mt(p).lo > self.mt(n).hi - self.mt(n).lo
                &&& self.mt(n).bh >= 1
                &&& 0 <= self.mt(n).hi - self.mt(n).lo
                &&& self.mt(p).hi - self.mt(p).lo <= self.count()
            }),
    {
        let p = self.nd(n).parent;
        assert(self.slot_ok(n));
        assert(self.slot_ok(p));
        assert(self.bal_ok(n, n, n));
        assert(self.bal_ok(p, n, n));
        let s = self.sibling(n);
        assert(s != EMPTY_REF);
        assert(self.slot_ok(s));
        assert(self.bal_ok(s, n, n));
        if self.mt(NIL_INDEX).live {
            assert(self.slot_ok(NIL_INDEX));
        }
        let sl = self.nd(s).left;
        let sr = self.nd(s).right;
        if sl != EMPTY_REF {
            assert(self.slot_ok(sl));
        }
        if sr != EMPTY_REF {
            assert(self.slot_ok(sr));
        }
    }

    /// The other child of the parent of `n_index`.
    #[inline(always)]
    pub fn get_sibling(&self, n_index: u32) -> (s_index: u32)
        requires
            self.short_at(n_index),
            self.nd(n_index).parent != EMPTY_REF,
        ensures
            s_index == self.sibling(n_index),
            s_index != EMPTY_REF,
            self.live(s_index),
    {
        proof {
            self.lemma_family(n_index);
        }
        let p_index = self.node(n_index).parent;
        let parent = self.node(p_index);
        if n_index == parent.left {
            parent.right
        } else {
            parent.left
        }
    }

    /// Turns a red sibling of `n_index` into a black one.
    pub fn handle_red_sibling(&mut self, n_index: u32, s_index: u32)
        requires
            old(self).short_at(n_index),
            old(self).nd(n_index).parent != EMPTY_REF,
            s_index == old(self).sibling(n_index),
            old(self).red(s_index),
        ensures
            final(self).short_at(n_index),
            final(self).nd(n_index).parent == old(self).nd(n_index).parent,
            !final(self).red(final(self).sibling(n_index)),
            final(self).red(old(self).nd(n_index).parent),
            (final(self).nd(old(self).nd(n_index).parent).left == n_index) == (old(self).nd(
                old(self).nd(n_index).parent,
            ).left == n_index),
            final(self).mt(n_index) == old(self).mt(n_index),
            final(self).entries_kept(old(self)),
            final(self).mt(NIL_INDEX).live == old(self).mt(NIL_INDEX).live,
            final(self).nd(NIL_INDEX).color == old(self).nd(NIL_INDEX).color,
            final(self).step_frame(
                old(self),
                n_index,
                old(self).nd(n_index).parent,
                old(self).nd(old(self).nd(n_index).parent).left == n_index,
            ),
    {
        proof {
            self.lemma_family(n_index);
        }
        // Sibling and parent swap colours,
        self.set_color(s_index, Color::Black);
        let p_index = self.node(n_index).parent;
        self.set_color(p_index, Color::Red);
        let left = n_index == self.node(p_index).left;
        proof {
            let before = old(self);
            self.meta@ = before.meta@.update(
                p_index as int,
                (Meta { bh: before.mt(n_index).bh, ..before.mt(p_index) }),
            ).update(s_index as int, (Meta { bh: before.mt(p_index).bh, ..before.mt(s_index) }));
            assert(self.repainted(before, s_index, p_index, p_index, p_index));
            self.lemma_links_kept(before);
        }
        let ghost mid = *self;

        // and the parent is rotated towards the node.
        if left {
            self.rotate_left(p_index)
        } else {
            self.rotate_right(p_index)
        }
        proof {
            self.lemma_red_sibling(&mid, old(self), n_index, left);
            self.lemma_frame_parent(&mid, old(self), n_index, left);
        }
    }

    /// Restores the rules where the sibling of `n_index` is black and has a
    /// red child.
    #[verifier::rlimit(100)]
    pub fn handle_black_sibling_with_at_least_one_red_child(&mut self, n_index: u32, s_origin: u32)
        requires
            old(self).short_at(n_index),
            old(self).nd(n_index).parent != EMPTY_REF,
            s_origin == old(self).sibling(n_index),
            !old(self).red(s_origin),
            old(self).red(old(self).nd(s_origin).left) || old(self).red(old(self).nd(s_origin).right),
        ensures
            final(self).settled_from(old(self)),
            final(self).step_frame(
                old(self),
                n_index,
                old(self).nd(n_index).parent,
                old(self).nd(old(self).nd(n_index).parent).left == n_index,
            ),
            final(self).raised(old(self), n_index),
    {
        proof {
            self.lemma_family(n_index);
            let p = self.nd(n_index).parent;
            let sl = self.nd(s_origin).left;
            let sr = self.nd(s_origin).right;
            self.lemma_inside(p, p);
            self.lemma_inside(s_origin, p);
            if sl != EMPTY_REF {
                self.lemma_inside(sl, p);
            }
            if sr != EMPTY_REF {
                self.lemma_inside(sr, p);
            }
            assert(self.outside_kept(old(self), p, p));
        }
        let p_index = self.node(n_index).parent;

        let mut s_index = s_origin;
        let mut sibling_left = self.node(s_origin).left;
        let mut sibling_right = self.node(s_origin).right;

        let node_is_left_child = n_index == self.node(p_index).left;

        // Where the outer child of the sibling is black, the inner one is red: the
        // two swap colours and the sibling is rotated away from the node.
        if node_is_left_child && self.is_black(sibling_right) {
            if sibling_left != EMPTY_REF {
                self.set_color(sibling_left, Color::Black);
            }
            self.set_color(s_index, Color::Red);
            proof {
                let before = old(self);
                self.meta@ = before.meta@.update(
                    s_index as int,
                    (Meta { bh: before.mt(n_index).bh - 1, ..before.mt(s_index) }),
                ).update(
                    sibling_left as int,
                    (Meta { bh: before.mt(n_index).bh, ..before.mt(sibling_left) }),
                );
                assert(self.repainted(before, s_index, sibling_left, sibling_left, sibling_left));
                self.lemma_links_kept(before);
                self.lemma_outside_painted(before, before, p_index, s_index, sibling_left, sibling_left, sibling_left);
            }
            let ghost mid = *self;
            self.rotate_right(s_index);
            proof {
                assert(self.nd(p_index).parent == old(self).nd(p_index).parent) by {
                    let inner = old(self).nd(sibling_left).right;
                    assert(old(self).slot_ok(p_index));
                    assert(old(self).slot_ok(s_index));
                    assert(old(self).slot_ok(sibling_left));
                    if inner != EMPTY_REF {
                        assert(old(self).slot_ok(inner));
                    }
                }
                self.lemma_outside_rotated(&mid, old(self), p_index, s_index, false);
                self.lemma_inner_nephew(&mid, old(self), n_index, true);
                self.lemma_frame_sibling(&mid, old(self), n_index, true);
                self.lemma_family(n_index);
            }
            s_index = self.node(p_index).right;

            sibling_left = self.node(s_index).left;
            sibling_right = self.node(s_index).right;
        } else if !node_is_left_child && self.is_black(sibling_left) {
            if sibling_right != EMPTY_REF {
                self.set_color(sibling_right, Color::Black);
            }
            self.set_color(s_index, Color::Red);
            proof {
                let before = old(self);
                self.meta@ = before.meta@.update(
                    s_index as int,
                    (Meta { bh: before.mt(n_index).bh - 1, ..before.mt(s_index) }),
                ).update(
                    sibling_right as int,
                    (Meta { bh: before.mt(n_index).bh, ..before.mt(sibling_right) }),
                );
                assert(self.repainted(before, s_index, sibling_right, sibling_right, sibling_right));
                self.lemma_links_kept(before);
                self.lemma_outside_painted(before, before, p_index, s_index, sibling_right, sibling_right, sibling_right);
            }
            let ghost mid = *self;
            self.rotate_left(s_index);
            proof {
                assert(self.nd(p_index).parent == old(self).nd(p_index).parent) by {
                    let inner = old(self).nd(sibling_right).left;
                    assert(old(self).slot_ok(p_index));
                    assert(old(self).slot_ok(s_index));
                    assert(old(self).slot_ok(sibling_right));
                    if inner != EMPTY_REF {
                        assert(old(self).slot_ok(inner));
                    }
                }
                self.lemma_outside_rotated(&mid, old(self), p_index, s_index, true);
                self.lemma_inner_nephew(&mid, old(self), n_index, false);
                self.lemma_frame_sibling(&mid, old(self), n_index, false);
                self.lemma_family(n_index);
            }
            s_index = self.node(p_index).left;

            sibling_left = self.node(s_index).left;
            sibling_right = self.node(s_index).right;
        }

        // The outer child of the sibling is red now: the sibling takes the colour of
        // the parent, parent and outer child turn black, and the parent is rotated
        // towards the node.
        let ghost start = *self;
        proof {
            assert(start.short_at(n_index));
            assert(start.entries_kept(old(self)));
            if start == *old(self) {
                start.lemma_no_step(n_index, p_index, node_is_left_child);
            }
            assert(start.step_frame(old(self), n_index, p_index, node_is_left_child));
            assert(start.outside_kept(old(self), p_index, p_index));
            assert(start.nd(p_index).color == old(self).nd(p_index).color);
            assert(start.nd(p_index).parent == old(self).nd(p_index).parent);
            assert(start.mt(p_index).bh == old(self).mt(p_index).bh);
        }
        let parent_color = self.node(p_index).color;
        self.set_color(s_index, parent_color);
        self.set_color(p_index, Color::Black);
        if node_is_left_child {
            if sibling_right != EMPTY_REF {
                self.set_color(sibling_right, Color::Black);
            }
            proof {
                self.meta@ = start.meta@.update(
                    n_index as int,
                    (Meta { bh: start.mt(n_index).bh - 1, ..start.mt(n_index) }),
                ).update(p_index as int, (Meta { bh: start.mt(n_index).bh, ..start.mt(p_index) })).update(
                    sibling_right as int,
                    (Meta { bh: start.mt(n_index).bh, ..start.mt(sibling_right) }),
                ).update(s_index as int, (Meta { bh: start.mt(p_index).bh, ..start.mt(s_index) }));
                assert(self.repainted(&start, s_index, p_index, sibling_right, n_index));
                self.lemma_links_kept(&start);
                self.lemma_outside_painted(&start, old(self), p_index, s_index, p_index, sibling_right, n_index);
            }
            let ghost mid = *self;
            self.rotate_left(p_index);
            proof {
                self.lemma_outside_rotated(&mid, old(self), p_index, p_index, true);
                self.lemma_outer_nephew(&mid, &start, n_index, true);
                self.lemma_frame_parent(&mid, &start, n_index, true);
                self.lemma_two_steps(&start, old(self), n_index, p_index, true);
            }
        } else {
            if sibling_left != EMPTY_REF {
                self.set_color(sibling_left, Color::Black);
            }
            proof {
                self.meta@ = start.meta@.update(
                    n_index as int,
                    (Meta { bh: start.mt(n_index).bh - 1, ..start.mt(n_index) }),
                ).update(p_index as int, (Meta { bh: start.mt(n_index).bh, ..start.mt(p_index) })).update(
                    sibling_left as int,
                    (Meta { bh: start.mt(n_index).bh, ..start.mt(sibling_left) }),
                ).update(s_index as int, (Meta { bh: start.mt(p_index).bh, ..start.mt(s_index) }));
                assert(self.repainted(&start, s_index, p_index, sibling_left, n_index));
                self.lemma_links_kept(&start);
                self.lemma_outside_painted(&start, old(self), p_index, s_index, p_index, sibling_left, n_index);
            }
            let ghost mid = *self;
            self.rotate_right(p_index);
            proof {
                self.lemma_outside_rotated(&mid, old(self), p_index, p_index, false);
                self.lemma_outer_nephew(&mid, &start, n_index, false);
                self.lemma_frame_parent(&mid, &start, n_index, false);
                self.lemma_two_steps(&start, old(self), n_index, p_index, false);
            }
        }
    }

    /// Restores the colour rules after the paths through `n_index` lost a
    /// black node. For the proofs the caller may name a node `a` that stands
    /// `k` levels above `n_index`.
    pub fn fix_red_black_properties_after_delete(&mut self, n_index: u32, Ghost(a): Ghost<u32>, Ghost(k): Ghost<nat>)
        requires
            old(self).short_at(n_index),
            a != EMPTY_REF ==> old(self).above(a, n_index, k),
        ensures
            final(self).settled_from(old(self)),
            final(self).anchored(old(self), n_index, a, k),
        decreases old(self).count() - (old(self).mt(n_index).hi - old(self).mt(n_index).lo),
    {
        proof {
            assert(self.slot_ok(n_index));
        }
        // At the root nothing is short any more.
        if n_index == self.root {
            proof {
                let before = old(self);
                self.meta@ = before.meta@.update(
                    n_index as int,
                    (Meta { bh: before.mt(n_index).bh - 1, ..before.mt(n_index) }),
                );
                assert(self.links_kept(before));
                self.lemma_links_kept(before);
                assert forall|i: u32| self.live(i) implies #[trigger] self.bal_ok(
                    i,
                    EMPTY_REF,
                    EMPTY_REF,
                ) by {
                    assert(before.slot_ok(i));
                    assert(before.bal_ok(i, n_index, n_index));
                }
                if a != EMPTY_REF && k >= 1 {
                    before.lemma_above(a, n_index, k);
                    assert(before.ancestor(n_index, 0) == n_index);
                }
            }
            return ;
        }
        proof {
            self.lemma_family(n_index);
        }
        let ghost p = self.nd(n_index).parent;
        let ghost left = self.nd(p).left == n_index;

        let mut s_index = self.get_sibling(n_index);
        let ghost mut turned = false;

        // A red sibling is turned into a black one first.
        if self.node(s_index).color == Color::Red {
            self.handle_red_sibling(n_index, s_index);
            proof {
                self.lemma_family(n_index);
                turned = true;
            }
            s_index = self.get_sibling(n_index)
        }
        let ghost start = *self;
        proof {
            if !turned {
                start.lemma_no_step(n_index, p, left);
            }
            assert(start.step_frame(old(self), n_index, p, left));
        }
        let sibling_left = self.node(s_index).left;
        let sibling_right = self.node(s_index).right;

        // A black sibling without a red child turns red.
        if self.is_black(sibling_left) && self.is_black(sibling_right) {
            self.set_color(s_index, Color::Red);
            let p_index = self.node(n_index).parent;

            // Under a red parent, which turns black, that is all.
            let parent_red = self.node(p_index).color == Color::Red;
            if parent_red {
                self.set_color(p_index, Color::Black);
            }
            proof {
                self.meta@ = start.meta@.update(
                    s_index as int,
                    (Meta { bh: start.mt(s_index).bh - 1, ..start.mt(s_index) }),
                ).update(n_index as int, (Meta { bh: start.mt(n_index).bh - 1, ..start.mt(n_index) }));
                assert(self.repainted(&start, s_index, p_index, n_index, n_index));
                self.lemma_black_family(&start, n_index);
            }
            let ghost painted = *self;
            if !parent_red {
                // Under a black parent the parent is short now.
                proof {
                    assert(!turned);
                    assert(start == *old(self));
                    if a != EMPTY_REF && k >= 1 {
                        old(self).lemma_above(a, n_index, k);
                        painted.lemma_above_kept(old(self), a, p_index, (k - 1) as nat);
                    }
                }
                self.fix_red_black_properties_after_delete(
                    p_index,
                    Ghost(
                        if a != EMPTY_REF && k >= 1 {
                            a
                        } else {
                            EMPTY_REF
                        },
                    ),
                    Ghost(
                        if a != EMPTY_REF && k >= 1 {
                            (k - 1) as nat
                        } else {
                            0nat
                        },
                    ),
                );
                proof {
                    self.lemma_up_anchored(&painted, old(self), n_index, a, k);
                }
            } else {
                proof {
                    painted.lemma_no_step(n_index, p, left);
                    assert(painted.step_frame(&start, n_index, p, left)) by {
                        assert forall|j: u32| j < painted.slots() implies (#[trigger] painted.mt(j)).pos
                            == start.mt(j).pos && painted.mt(j).live == start.mt(j).live && painted.mt(j).lo
                            == start.mt(j).lo && painted.mt(j).hi == start.mt(j).hi by {}
                    }
                    painted.lemma_two_steps(&start, old(self), n_index, p, left);
                    self.lemma_step_anchored(old(self), n_index, a, k);
                }
            }
        } else {
            self.handle_black_sibling_with_at_least_one_red_child(n_index, s_index);
            proof {
                self.lemma_two_steps(&start, old(self), n_index, p, left);
                self.lemma_step_anchored(old(self), n_index, a, k);
            }
        }
    }
}

} // verus!
