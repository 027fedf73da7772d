use vstd::prelude::*;
use crate::EMPTY_REF;
use crate::rb::shape::{RbTree, NIL_INDEX};

verus! {

impl<K: Ord, V> RbTree<K, V> {
    /// The node `j` does not stand within the subtree of `p`.
    pub open spec fn outside(&self, j: u32, p: u32) -> bool {
        !(self.mt(p).lo <= self.mt(j).lo && self.mt(j).hi <= self.mt(p).hi)
    }

    /// The nodes of `before` that do not stand within the subtree of `p`
    /// have their colour and their links, but that a link which led to `p`
    /// leads to `top`.
    pub open spec fn outside_kept(&self, before: &Self, p: u32, top: u32) -> bool {
        forall|j: u32|
            j < self.slots() && before.live(j) && before.outside(j, p) ==> {
                &&& (#[trigger] self.nd(j)).color == before.nd(j).color
                &&& self.nd(j).parent == before.nd(j).parent
                &&& self.nd(j).left == if before.nd(j).left == p {
                    top
                } else {
                    before.nd(j).left
                }
                &&& self.nd(j).right == if before.nd(j).right == p {
                    top
                } else {
                    before.nd(j).right
                }
            }
    }

    /// The state after the sibling of `n`, or its inner child, was raised
    /// into the place of the parent `p` of `n`: the node in that place has
    /// the colour and the black height that `p` had, `p` is black and
    /// stands under it with `n` on the same side as before, and nothing
    /// changed outside the subtree.
    pub open spec fn raised(&self, before: &Self, n: u32) -> bool {
        let p = before.nd(n).parent;
        let top = self.nd(p).parent;
        let left = before.nd(p).left == n;
        &&& top != EMPTY_REF
        &&& self.live(top)
        &&& self.nd(top).parent == before.nd(p).parent
        &&& self.nd(top).color == before.nd(p).color
        &&& self.mt(top).bh == before.mt(p).bh
        &&& self.nd(p).is_black()
        &&& self.kid(top, left) == p
        &&& self.kid(p, left) == n
        &&& self.root == if before.nd(p).parent == EMPTY_REF {
            top
        } else {
            before.root
        }
        &&& self.outside_kept(before, p, top)
    }

    /// A child stands within the subtree of its parent.
    pub proof fn lemma_inside(&self, x: u32, p: u32)
        requires
            self.structure(),
            self.live(x),
            x != NIL_INDEX,
            !self.outside(x, p),
        ensures
            self.nd(x).left != EMPTY_REF ==> !self.outside(self.nd(x).left, p),
            self.nd(x).right != EMPTY_REF ==> !self.outside(self.nd(x).right, p),
    {
        assert(self.slot_ok(x));
    }

    /// Painting nodes within the subtree of `p` changes nothing outside
    /// it.
    pub proof fn lemma_outside_painted(&self, mid: &Self, before: &Self, p: u32, a: u32, b: u32, c: u32, d: u32)
        requires
            mid.outside_kept(before, p, p),
            self.repainted(mid, a, b, c, d),
            a < self.slots() ==> !before.outside(a, p),
            b < self.slots() ==> !before.outside(b, p),
            c < self.slots() ==> !before.outside(c, p),
            d < self.slots() ==> !before.outside(d, p),
        ensures
            self.outside_kept(before, p, p),
    {
        assert forall|j: u32| j < self.slots() && before.live(j) && before.outside(j, p) implies {
            &&& (#[trigger] self.nd(j)).color == before.nd(j).color
            &&& self.nd(j).parent == before.nd(j).parent
            &&& self.nd(j).left == before.nd(j).left
            &&& self.nd(j).right == before.nd(j).right
        } by {
            assert(mid.nd(j).color == before.nd(j).color);
        }
    }

    /// A rotation at the node `x` within the subtree of `p` changes nothing
    /// outside it, but that a rotation at `p` itself puts the node that
    /// rises in the place of `p`.
    pub proof fn lemma_outside_rotated(&self, mid: &Self, before: &Self, p: u32, x: u32, left: bool)
        requires
            before.structure(),
            before.live(p),
            p != NIL_INDEX,
            mid.outside_kept(before, p, p),
            mid.slots() == before.slots(),
            mid.nd(p).parent == before.nd(p).parent,
            x < mid.slots(),
            left ==> self.rotated_left(mid, x),
            !left ==> self.rotated_right(mid, x),
            !before.outside(x, p),
            mid.kid(x, !left) < mid.slots(),
            !before.outside(mid.kid(x, !left), p),
            mid.kid(mid.kid(x, !left), left) < mid.slots() ==> !before.outside(mid.kid(mid.kid(x, !left), left), p),
            x != p ==> mid.nd(x).parent < mid.slots() && !before.outside(mid.nd(x).parent, p),
        ensures
            self.outside_kept(
                before,
                p,
                if x == p {
                    mid.kid(x, !left)
                } else {
                    p
                },
            ),
    {
        let y = mid.kid(x, !left);
        let inner = mid.kid(y, left);
        let px = mid.nd(x).parent;
        let top = if x == p {
            y
        } else {
            p
        };
        assert forall|j: u32| j < self.slots() && before.live(j) && before.outside(j, p) implies {
            &&& (#[trigger] self.nd(j)).color == before.nd(j).color
            &&& self.nd(j).parent == before.nd(j).parent
            &&& self.nd(j).left == if before.nd(j).left == p {
                top
            } else {
                before.nd(j).left
            }
            &&& self.nd(j).right == if before.nd(j).right == p {
                top
            } else {
                before.nd(j).right
            }
        } by {
            assert(mid.nd(j).color == before.nd(j).color);
            assert(before.slot_ok(j));
            assert(before.slot_ok(p));
            assert(j != x && j != y && j != inner);
            if before.nd(j).left == p || before.nd(j).right == p {
                assert(before.nd(p).parent == j);
            }
        }
    }
}

} // verus!
