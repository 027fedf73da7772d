use vstd::prelude::*;
use crate::EMPTY_REF;
use crate::rb::shape::{RbTree, NIL_INDEX};

verus! {

impl<K: Ord, V> RbTree<K, V> {
    /// The node reached from `x` by following the parent link `k` times.
    pub open spec fn ancestor(&self, x: u32, k: nat) -> u32
        decreases k,
    {
        if k == 0 {
            x
        } else {
            self.ancestor(self.nd(x).parent, (k - 1) as nat)
        }
    }

    /// The node `a` stands `k` levels above the node `x`.
    pub open spec fn above(&self, a: u32, x: u32, k: nat) -> bool {
        &&& self.live(x)
        &&& self.live(a)
        &&& a != NIL_INDEX
        &&& self.ancestor(x, k) == a
        &&& forall|j: nat| j < k ==> self.nd(#[trigger] self.ancestor(x, j)).parent != EMPTY_REF
    }

    /// The subtree of a node lies within the subtree of each node above it,
    /// and is smaller.
    pub proof fn lemma_above(&self, a: u32, x: u32, k: nat)
        requires
            self.structure(),
            self.above(a, x, k),
        ensures
            self.mt(a).lo <= self.mt(x).lo,
            self.mt(x).hi <= self.mt(a).hi,
            k >= 1 ==> self.mt(a).hi - self.mt(a).lo > self.mt(x).hi - self.mt(x).lo,
            k >= 1 ==> self.above(a, self.nd(x).parent, (k - 1) as nat),
            k >= 1 ==> {
                let c = self.ancestor(x, (k - 1) as nat);
                &&& self.live(c)
                &&& self.nd(c).parent == a
                &&& self.nd(a).left == c ==> self.mt(x).hi <= self.mt(a).pos
                &&& self.nd(a).left != c ==> self.nd(a).right == c && self.mt(a).pos < self.mt(x).lo
            },
        decreases k,
    {
        assert(self.slot_ok(x));
        if k >= 1 {
            let p = self.nd(x).parent;
            assert(self.ancestor(x, 0) == x);
            assert(p != EMPTY_REF);
            assert(self.slot_ok(p));
            let k1 = (k - 1) as nat;
            assert forall|j: nat| j < k1 implies self.nd(#[trigger] self.ancestor(p, j)).parent != EMPTY_REF by {
                assert(self.ancestor(x, j + 1) == self.ancestor(p, j));
            }
            assert(self.above(a, p, k1));
            self.lemma_above(a, p, k1);
            if k1 == 0 {
                assert(self.ancestor(x, 0) == x);
            } else {
                assert(self.ancestor(x, k1) == self.ancestor(p, (k1 - 1) as nat));
            }
        }
    }

    /// Where the parent links along the way are the same, so is the node
    /// that stands above.
    pub proof fn lemma_above_kept(&self, before: &Self, a: u32, x: u32, k: nat)
        requires
            before.structure(),
            before.above(a, x, k),
            self.slots() == before.slots(),
            self.meta@.len() == self.slots(),
            forall|j: u32| j < self.slots() ==> (#[trigger] self.mt(j)).live == before.mt(j).live,
            forall|j: u32|
                j < self.slots() && before.live(j) && before.mt(a).lo <= before.mt(j).lo && before.mt(j).hi
                    <= before.mt(a).hi && j != a ==> (#[trigger] self.nd(j)).parent == before.nd(j).parent,
        ensures
            self.above(a, x, k),
            forall|j: nat| j <= k ==> #[trigger] self.ancestor(x, j) == before.ancestor(x, j),
        decreases k,
    {
        before.lemma_above(a, x, k);
        if k >= 1 {
            let p = before.nd(x).parent;
            assert(before.ancestor(x, 0) == x);
            let k1 = (k - 1) as nat;
            self.lemma_above_kept(before, a, p, k1);
            assert(self.nd(x).parent == p);
            assert forall|j: nat| j <= k implies #[trigger] self.ancestor(x, j) == before.ancestor(x, j) by {
                if j > 0 {
                    assert(self.ancestor(x, j) == self.ancestor(p, (j - 1) as nat));
                    assert(before.ancestor(x, j) == before.ancestor(p, (j - 1) as nat));
                }
            }
            assert forall|j: nat| j < k implies self.nd(#[trigger] self.ancestor(x, j)).parent != EMPTY_REF by {
                if j == 0 {
                    assert(self.ancestor(x, 0) == x);
                } else {
                    assert(self.ancestor(x, j) == self.ancestor(p, (j - 1) as nat));
                    assert(before.ancestor(x, j) == before.ancestor(p, (j - 1) as nat));
                    assert(before.nd(before.ancestor(x, j)).parent != EMPTY_REF);
                    let aj = before.ancestor(x, j);
                    assert(before.above(aj, x, j)) by {
                        assert forall|i: nat| i < j implies before.nd(#[trigger] before.ancestor(x, i)).parent
                            != EMPTY_REF by {}
                        before.lemma_live_chain(x, j);
                    }
                    before.lemma_between(a, x, k, j);
                    assert(self.nd(aj).parent == before.nd(aj).parent);
                }
            }
        }
    }

    /// Every node on the way up from a live node is live.
    pub proof fn lemma_live_chain(&self, x: u32, k: nat)
        requires
            self.structure(),
            self.live(x),
            forall|j: nat| j < k ==> self.nd(#[trigger] self.ancestor(x, j)).parent != EMPTY_REF,
        ensures
            self.live(self.ancestor(x, k)),
            k >= 1 ==> self.ancestor(x, k) != NIL_INDEX,
            k >= 1 ==> self.ancestor(x, k) == self.nd(self.ancestor(x, (k - 1) as nat)).parent,
        decreases k,
    {
        assert(self.slot_ok(x));
        if k >= 1 {
            let p = self.nd(x).parent;
            assert(self.ancestor(x, 0) == x);
            assert(self.slot_ok(p));
            let k1 = (k - 1) as nat;
            assert forall|j: nat| j < k1 implies self.nd(#[trigger] self.ancestor(p, j)).parent != EMPTY_REF by {
                assert(self.ancestor(x, j + 1) == self.ancestor(p, j));
            }
            self.lemma_live_chain(p, k1);
            if k1 >= 1 {
                assert(self.ancestor(x, k1) == self.ancestor(p, (k1 - 1) as nat));
            }
        }
    }

    /// A node on the way from `x` up to `a` lies within the subtree of `a`
    /// and is not `a`.
    pub proof fn lemma_between(&self, a: u32, x: u32, k: nat, j: nat)
        requires
            self.structure(),
            self.above(a, x, k),
            j < k,
        ensures
            self.live(self.ancestor(x, j)),
            self.ancestor(x, j) != a,
            self.mt(a).lo <= self.mt(self.ancestor(x, j)).lo,
            self.mt(self.ancestor(x, j)).hi <= self.mt(a).hi,
        decreases j,
    {
        self.lemma_above(a, x, k);
        if j > 0 {
            let p = self.nd(x).parent;
            assert(self.ancestor(x, j) == self.ancestor(p, (j - 1) as nat));
            self.lemma_between(a, p, (k - 1) as nat, (j - 1) as nat);
        }
    }

    /// The parent of a node that is not the root stands one level above it.
    pub proof fn lemma_parent_above(&self, x: u32)
        requires
            self.structure(),
            self.live(x),
            self.nd(x).parent != EMPTY_REF,
        ensures
            self.above(self.nd(x).parent, x, 1),
    {
        assert(self.slot_ok(x));
        let p = self.nd(x).parent;
        assert(self.ancestor(p, 0) == p);
        assert(self.ancestor(x, 1) == self.ancestor(p, 0));
        assert(self.ancestor(x, 0) == x);
    }

    /// A node that stands above `a` stands above every node below `a`.
    pub proof fn lemma_above_more(&self, a: u32, x: u32, k: nat)
        requires
            self.structure(),
            self.above(a, x, k),
            self.nd(a).parent != EMPTY_REF,
        ensures
            self.above(self.nd(a).parent, x, k + 1),
            self.ancestor(x, k) == a,
        decreases k,
    {
        assert(self.slot_ok(a));
        if k == 0 {
            self.lemma_parent_above(x);
        } else {
            let p = self.nd(x).parent;
            self.lemma_above(a, x, k);
            self.lemma_above_more(a, p, (k - 1) as nat);
            let n = self.nd(a).parent;
            assert(self.ancestor(x, k + 1) == self.ancestor(p, k));
            assert forall|j: nat| j < k + 1 implies self.nd(#[trigger] self.ancestor(x, j)).parent
                != EMPTY_REF by {
                if j == 0 {
                    assert(self.ancestor(x, 0) == x);
                    assert(self.ancestor(x, 0) == x && self.nd(self.ancestor(x, 0)).parent != EMPTY_REF);
                } else {
                    assert(self.ancestor(x, j) == self.ancestor(p, (j - 1) as nat));
                }
            }
        }
    }

    /// After the node `d` was unlinked its heir stands where `d` stood below
    /// the nodes above it.
    pub proof fn lemma_cut_chain(&self, before: &Self, d: u32, keep: u32, a: u32, k: nat, j: nat)
        requires
            before.wf(),
            before.live(d),
            before.nd(d).left == EMPTY_REF || before.nd(d).right == EMPTY_REF,
            keep == d || (before.live(keep) && before.mt(d).pos == before.mt(keep).pos + 1),
            self.unlinked(before, d, keep),
            self.structure(),
            before.heir(d) != EMPTY_REF,
            before.above(a, d, k),
            1 <= j <= k,
        ensures
            self.ancestor(before.heir(d), j) == before.ancestor(d, j),
            self.live(before.ancestor(d, j)),
            before.ancestor(d, j) != before.heir(d),
            before.ancestor(d, j) != d,
            forall|i: nat| i < j ==> self.nd(#[trigger] self.ancestor(before.heir(d), i)).parent != EMPTY_REF,
        decreases j,
    {
        let c = before.heir(d);
        let p = before.nd(d).parent;
        assert(before.slot_ok(d));
        assert(before.slot_ok(NIL_INDEX));
        assert(before.ancestor(d, 0) == d);
        assert(p != EMPTY_REF);
        assert(before.slot_ok(p));
        if c != NIL_INDEX {
            assert(before.slot_ok(c));
        }
        assert(self.nd(c).parent == p);
        assert(self.ancestor(c, 0) == c);
        assert forall|i: nat| i < j implies before.nd(#[trigger] before.ancestor(d, i)).parent != EMPTY_REF by {}
        before.lemma_live_chain(d, j);
        let aj = before.ancestor(d, j);
        assert forall|i: nat| i < j implies before.nd(#[trigger] before.ancestor(d, i)).parent != EMPTY_REF by {}
        assert(before.above(aj, d, j));
        before.lemma_above(aj, d, j);
        assert(aj != d);
        assert(aj != c);
        assert(aj != NIL_INDEX);
        assert(self.mt(aj).live);
        if j == 1 {
            assert(before.ancestor(d, 1) == before.ancestor(p, 0));
            assert(before.ancestor(p, 0) == p);
            assert(self.ancestor(c, 1) == self.ancestor(p, 0));
            assert(self.ancestor(p, 0) == p);
            assert forall|i: nat| i < j implies self.nd(#[trigger] self.ancestor(c, i)).parent != EMPTY_REF by {
                assert(i == 0);
            }
        } else {
            let j1 = (j - 1) as nat;
            self.lemma_cut_chain(before, d, keep, a, k, j1);
            let aj1 = before.ancestor(d, j1);
            assert(self.ancestor(c, j1) == aj1);
            assert(aj == before.nd(aj1).parent);
            assert(self.nd(aj1).parent == before.nd(aj1).parent);
            assert forall|i: nat| i < j implies self.nd(#[trigger] self.ancestor(c, i)).parent != EMPTY_REF by {
                if i == j1 {
                    assert(self.ancestor(c, j1) == aj1);
                }
            }
            assert(self.live(c));
            self.lemma_live_chain(c, j);
        }
    }
}

} // verus!
