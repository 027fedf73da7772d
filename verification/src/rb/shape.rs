use vstd::prelude::*;
use crate::EMPTY_REF;
use crate::rb::node::Node;
use crate::rb::pool::Pool;

verus! {

/// The index of the slot that is never handed out. While a black leaf is
/// being deleted it stands in the leaf's place until the tree is rebalanced.
pub const NIL_INDEX: u32 = 0;

/// What the proofs record about one slot.
pub struct Meta {
    /// The slot is linked into the tree.
    pub live: bool,
    /// Where the node stands in key order.
    pub pos: int,
    /// The node's subtree holds exactly the positions `lo <= p < hi`.
    pub lo: int,
    pub hi: int,
    /// The number of black nodes on every path from the node down to a missing
    /// child, as the node's parent counts it.
    pub bh: int,
}

pub struct RbTree<K, V> {
    pub store: Pool<K, V>,
    pub root: u32,
    pub meta: Ghost<Seq<Meta>>,
    pub order: Ghost<Seq<u32>>,
}

impl<K: Ord, V> RbTree<K, V> {
    pub open spec fn nd(&self, i: u32) -> Node<K, V> {
        self.store.buffer@[i as int]
    }

    pub open spec fn mt(&self, i: u32) -> Meta {
        self.meta@[i as int]
    }

    pub open spec fn slots(&self) -> int {
        self.store.buffer@.len() as int
    }

    pub open spec fn count(&self) -> int {
        self.order@.len() as int
    }

    pub open spec fn live(&self, i: u32) -> bool {
        i < self.slots() && self.mt(i).live
    }

    /// The link `c`, held by node `n`, leads to a subtree that covers the
    /// positions from `lo` up to `hi`.
    pub open spec fn link_ok(&self, c: u32, n: u32, lo: int, hi: int) -> bool {
        if c == EMPTY_REF {
            lo == hi
        } else {
            &&& self.live(c)
            &&& self.nd(c).parent == n
            &&& self.mt(c).lo == lo
            &&& self.mt(c).hi == hi
        }
    }

    /// The live node `n` agrees with its neighbours.
    pub open spec fn node_ok(&self, n: u32) -> bool {
        let node = self.nd(n);
        let m = self.mt(n);
        if n == NIL_INDEX {
            &&& node.left == EMPTY_REF
            &&& node.right == EMPTY_REF
            &&& node.entity.is_none()
            &&& 0 <= m.lo == m.hi <= self.count()
            &&& node.parent != NIL_INDEX
            &&& self.live(node.parent)
            &&& (self.nd(node.parent).left == n || self.nd(node.parent).right == n)
        } else {
            &&& 0 <= m.lo <= m.pos < m.hi <= self.count()
            &&& self.order@[m.pos] == n
            &&& node.entity.is_some()
            &&& self.link_ok(node.left, n, m.lo, m.pos)
            &&& self.link_ok(node.right, n, m.pos + 1, m.hi)
            &&& if node.parent == EMPTY_REF {
                &&& self.root == n
                &&& m.lo == 0
                &&& m.hi == self.count()
            } else {
                &&& node.parent != NIL_INDEX
                &&& self.live(node.parent)
                &&& (self.nd(node.parent).left == n || self.nd(node.parent).right == n)
            }
        }
    }

    /// A slot is either a consistent node of the tree or holds nothing.
    pub open spec fn slot_ok(&self, i: u32) -> bool {
        if self.mt(i).live {
            self.node_ok(i)
        } else {
            self.nd(i).entity.is_none()
        }
    }

    pub open spec fn key_at(&self, p: int) -> K {
        self.nd(self.order@[p]).key()
    }

    pub open spec fn val_at(&self, p: int) -> V {
        self.nd(self.order@[p]).val()
    }

    /// Links, positions and the free stack are consistent.
    pub open spec fn structure(&self) -> bool {
        &&& self.store.wf()
        &&& self.meta@.len() == self.slots()
        &&& self.root == EMPTY_REF ==> self.count() == 0
        &&& self.root != EMPTY_REF ==> self.root != NIL_INDEX && self.live(self.root) && self.nd(
            self.root,
        ).parent == EMPTY_REF
        &&& forall|i: u32| i < self.slots() ==> #[trigger] self.slot_ok(i)
        &&& forall|p: int|
            0 <= p < self.count() ==> {
                let n = #[trigger] self.order@[p];
                n != NIL_INDEX && self.live(n) && self.mt(n).pos == p
            }
        &&& forall|k: int|
            0 <= k < self.store.unused@.len() ==> {
                let f = #[trigger] self.store.unused@[k];
                f != NIL_INDEX && !self.mt(f).live
            }
    }

    /// Every slot but the reserved one is either a node or free for use.
    pub open spec fn counted(&self) -> bool {
        self.count() + self.store.unused@.len() + 1 == self.slots()
    }

    /// The keys read in position order never decrease.
    pub open spec fn keys_sorted(&self) -> bool {
        forall|i: int, j: int|
            0 <= i < j < self.count() ==> crate::order::key_le(#[trigger] self.key_at(i), #[trigger] self.key_at(j))
    }

    pub open spec fn bh_of(&self, c: u32) -> int {
        if c == EMPTY_REF {
            0
        } else {
            self.mt(c).bh
        }
    }

    pub open spec fn red(&self, c: u32) -> bool {
        c != EMPTY_REF && !self.nd(c).is_black()
    }

    /// The left or the right child link of `n`.
    pub open spec fn kid(&self, n: u32, left: bool) -> u32 {
        if left {
            self.nd(n).left
        } else {
            self.nd(n).right
        }
    }

    /// The other child of the parent of `n`.
    pub open spec fn sibling(&self, n: u32) -> u32 {
        let p = self.nd(n).parent;
        if self.nd(p).left == n {
            self.nd(p).right
        } else {
            self.nd(p).left
        }
    }

    /// The colour rules at node `n`. Node `short`, if any, is counted as one
    /// black node taller than it is; node `twin`, if any, may be red under a
    /// red parent.
    pub open spec fn bal_ok(&self, n: u32, short: u32, twin: u32) -> bool {
        let node = self.nd(n);
        &&& 0 <= self.bh_of(node.left) == self.bh_of(node.right)
        &&& self.mt(n).bh == self.bh_of(node.left) + (if node.is_black() {
            1int
        } else {
            0int
        }) + (if n == short {
            1int
        } else {
            0int
        })
        &&& !node.is_black() ==> {
            &&& !self.red(node.left) || node.left == twin
            &&& !self.red(node.right) || node.right == twin
        }
    }

    pub open spec fn balanced(&self, short: u32, twin: u32) -> bool {
        forall|n: u32| self.live(n) ==> #[trigger] self.bal_ok(n, short, twin)
    }

    /// Everything that holds of a tree between two operations.
    pub open spec fn wf(&self) -> bool {
        &&& crate::order::total_order::<K>()
        &&& self.structure()
        &&& self.counted()
        &&& self.keys_sorted()
        &&& self.balanced(EMPTY_REF, EMPTY_REF)
        &&& !self.mt(NIL_INDEX).live
        &&& self.root != EMPTY_REF ==> self.nd(self.root).is_black()
    }

    /// The entries in key order.
    pub open spec fn view(&self) -> Seq<(K, V)> {
        Seq::new(self.count() as nat, |p: int| (self.key_at(p), self.val_at(p)))
    }
}

} // verus!
