use vstd::prelude::*;
use crate::EMPTY_REF;
use crate::rb::shape::{RbTree, NIL_INDEX};

verus! {

impl<K: Ord, V> RbTree<K, V> {
    /// `path` is a way down the tree from its first node: each node is a
    /// child of the node before it, and the last has a child missing.
    pub open spec fn is_descent(&self, path: Seq<u32>) -> bool {
        &&& path.len() > 0
        &&& self.live(path[0])
        &&& forall|i: int|
            0 <= i < path.len() - 1 ==> (#[trigger] path[i + 1]) != EMPTY_REF && (path[i + 1] == self.nd(
                path[i],
            ).left || path[i + 1] == self.nd(path[i]).right)
        &&& self.nd(path.last()).left == EMPTY_REF || self.nd(path.last()).right == EMPTY_REF
    }

    /// The number of black nodes on `path`.
    pub open spec fn blacks(&self, path: Seq<u32>) -> int
        decreases path.len(),
    {
        if path.len() == 0 {
            0
        } else {
            (if self.nd(path[0]).is_black() {
                1int
            } else {
                0int
            }) + self.blacks(path.drop_first())
        }
    }

    /// Every way down from a node to a missing child passes the same number
    /// of black nodes: the black height that is recorded for the node.
    pub proof fn lemma_black_height(&self, path: Seq<u32>)
        requires
            self.wf(),
            self.is_descent(path),
        ensures
            self.blacks(path) == self.mt(path[0]).bh,
        decreases path.len(),
    {
        let n = path[0];
        assert(self.slot_ok(n));
        assert(self.slot_ok(NIL_INDEX));
        assert(self.bal_ok(n, EMPTY_REF, EMPTY_REF));
        let rest = path.drop_first();
        if path.len() == 1 {
            assert(rest.len() == 0);
            assert(self.blacks(rest) == 0);
            assert(path.last() == n);
        } else {
            let next = path[0int + 1];
            assert(next == rest[0]);
            assert(self.slot_ok(next));
            assert forall|i: int| 0 <= i < rest.len() - 1 implies (#[trigger] rest[i + 1]) != EMPTY_REF && (rest[i
                + 1] == self.nd(rest[i]).left || rest[i + 1] == self.nd(rest[i]).right) by {
                assert(rest[i + 1] == path[(i + 1) + 1]);
                assert(rest[i] == path[i + 1]);
            }
            assert(rest.last() == path.last());
            self.lemma_black_height(rest);
        }
    }

    /// Below a node of black height `h` stand at least `2^h - 1` nodes,
    /// the node itself counted.
    pub proof fn lemma_black_size(&self, n: u32)
        requires
            self.wf(),
            self.live(n),
        ensures
            0 <= self.mt(n).bh,
            vstd::arithmetic::power2::pow2(self.mt(n).bh as nat) <= self.mt(n).hi - self.mt(n).lo + 1,
        decreases self.mt(n).hi - self.mt(n).lo,
    {
        assert(self.slot_ok(n));
        assert(self.slot_ok(NIL_INDEX));
        assert(self.bal_ok(n, EMPTY_REF, EMPTY_REF));
        let left = self.nd(n).left;
        let right = self.nd(n).right;
        let below = self.bh_of(left);
        vstd::arithmetic::power2::lemma2_to64();
        if left != EMPTY_REF {
            self.lemma_black_size(left);
        }
        if right != EMPTY_REF {
            self.lemma_black_size(right);
        }
        vstd::arithmetic::power2::lemma_pow2_unfold((below + 1) as nat);
    }

    /// The black height of a tree is at most 31: a tree of a greater one
    /// would hold more nodes than the table has slots.
    pub proof fn lemma_black_bound(&self)
        requires
            self.wf(),
        ensures
            0 <= self.bh_of(self.root) <= 31,
    {
        if self.root != EMPTY_REF {
            let h = self.mt(self.root).bh;
            assert(self.slot_ok(self.root));
            self.lemma_black_size(self.root);
            vstd::arithmetic::power2::lemma2_to64();
            if h > 32 {
                vstd::arithmetic::power2::lemma_pow2_strictly_increases(32, h as nat);
            }
        }
    }

    /// The rules of a red-black tree hold between any two operations: the
    /// root is black, no red node has a red child, two ways down from the
    /// root pass the same number of black nodes, and the keys in the order of
    /// their positions never decrease.
    pub proof fn lemma_rules(&self, n: u32, first: Seq<u32>, second: Seq<u32>, i: int, j: int)
        requires
            self.wf(),
        ensures
            self.root != EMPTY_REF ==> self.nd(self.root).is_black(),
            self.live(n) && !self.nd(n).is_black() ==> !self.red(self.nd(n).left) && !self.red(self.nd(n).right),
            self.is_descent(first) && self.is_descent(second) && first[0] == self.root && second[0] == self.root
                ==> self.blacks(first) == self.blacks(second),
            0 <= i <= j < self.view().len() ==> crate::order::key_le(self.view()[i].0, self.view()[j].0),
    {
        if self.live(n) {
            assert(self.bal_ok(n, EMPTY_REF, EMPTY_REF));
        }
        if self.is_descent(first) && self.is_descent(second) && first[0] == self.root && second[0] == self.root {
            self.lemma_black_height(first);
            self.lemma_black_height(second);
        }
        if 0 <= i <= j < self.view().len() {
            if i < j {
                assert(crate::order::key_le(self.key_at(i), self.key_at(j)));
            } else {
                crate::order::lemma_order(self.key_at(i), self.key_at(i), self.key_at(i));
            }
        }
    }
}

} // verus!
