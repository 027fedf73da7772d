use vstd::prelude::*;
use crate::EMPTY_REF;
use crate::rb::node::Color;
use crate::rb::shape::{Meta, RbTree, NIL_INDEX};

verus! {

/// How the record of a slot changes when the node at position `q` leaves the
/// key order.
pub open spec fn shifted_down(m: Meta, q: int) -> Meta {
    Meta {
        live: m.live,
        pos: if m.pos > q {
            m.pos - 1
        } else {
            m.pos
        },
        lo: if m.lo > q {
            m.lo - 1
        } else {
            m.lo
        },
        hi: if m.hi > q {
            m.hi - 1
        } else {
            m.hi
        },
        bh: m.bh,
    }
}

impl<K: Ord, V> RbTree<K, V> {
    /// What takes the place of a node with at most one child when it is
    /// unlinked: its child; nothing, for a red leaf or the root; the reserved
    /// slot, for a black leaf.
    pub open spec fn heir(&self, d: u32) -> u32 {
        let node = self.nd(d);
        if node.left != EMPTY_REF {
            node.left
        } else if node.right != EMPTY_REF {
            node.right
        } else if node.parent == EMPTY_REF || !node.is_black() {
            EMPTY_REF
        } else {
            NIL_INDEX
        }
    }

    /// `self` is `before` after the node `d`, which has at most one child, was
    /// unlinked and its entity handed to the node `keep`, whose own entity is
    /// gone. Where `keep` is `d` no entity moved.
    pub open spec fn unlinked(&self, before: &Self, d: u32, keep: u32) -> bool {
        let q = before.mt(d).pos;
        let p = before.nd(d).parent;
        let c = before.heir(d);
        &&& self.slots() == before.slots()
        &&& self.store.wf()
        &&& self.store.unused@ == before.store.unused@
        &&& self.meta@.len() == self.slots()
        &&& self.order@ == before.order@.remove(q)
        &&& self.root == if p == EMPTY_REF {
            c
        } else {
            before.root
        }
        &&& self.nd(d).entity.is_none()
        &&& !self.mt(d).live
        &&& forall|j: u32|
            j < self.slots() && j != d ==> {
                &&& (#[trigger] self.nd(j)).left == if j == p && before.nd(p).left == d {
                    c
                } else if j == NIL_INDEX && c == NIL_INDEX {
                    EMPTY_REF
                } else {
                    before.nd(j).left
                }
                &&& self.nd(j).right == if j == p && before.nd(p).left != d {
                    c
                } else if j == NIL_INDEX && c == NIL_INDEX {
                    EMPTY_REF
                } else {
                    before.nd(j).right
                }
                &&& self.nd(j).parent == if j == c {
                    p
                } else {
                    before.nd(j).parent
                }
                &&& self.nd(j).color == if j == NIL_INDEX && c == NIL_INDEX {
                    Color::Red
                } else {
                    before.nd(j).color
                }
                &&& self.nd(j).entity == if j == keep {
                    before.nd(d).entity
                } else {
                    before.nd(j).entity
                }
            }
        &&& forall|j: u32|
            j < self.slots() && j != d ==> (#[trigger] self.mt(j)) == if j == NIL_INDEX && c == NIL_INDEX {
                Meta { live: true, pos: 0, lo: q, hi: q, bh: 1 }
            } else if j == c {
                Meta { bh: before.mt(d).bh, ..shifted_down(before.mt(j), q) }
            } else {
                shifted_down(before.mt(j), q)
            }
    }

    /// Unlinking a node with at most one child keeps links, positions and
    /// the free stack consistent.
    pub proof fn lemma_unlinked_structure(&self, before: &Self, d: u32, keep: u32)
        requires
            before.wf(),
            before.live(d),
            before.nd(d).left == EMPTY_REF || before.nd(d).right == EMPTY_REF,
            keep == d || (before.live(keep) && before.mt(d).pos == before.mt(keep).pos + 1),
            self.unlinked(before, d, keep),
        ensures
            self.structure(),
            self.count() + 1 == before.count(),
    {
        let q = before.mt(d).pos;
        let p = before.nd(d).parent;
        let c = before.heir(d);
        let dl = before.nd(d).left;
        let dr = before.nd(d).right;
        assert(before.slot_ok(d));
        assert(before.bal_ok(d, EMPTY_REF, EMPTY_REF));
        assert(d != NIL_INDEX);
        assert(before.slot_ok(NIL_INDEX));
        if p != EMPTY_REF {
            assert(before.slot_ok(p));
            assert(before.bal_ok(p, EMPTY_REF, EMPTY_REF));
        }
        if dl != EMPTY_REF {
            assert(before.slot_ok(dl));
            assert(before.bal_ok(dl, EMPTY_REF, EMPTY_REF));
        }
        if dr != EMPTY_REF {
            assert(before.slot_ok(dr));
            assert(before.bal_ok(dr, EMPTY_REF, EMPTY_REF));
        }
        if keep != d {
            assert(before.slot_ok(keep));
        }
        assert(self.count() + 1 == before.count());
        assert forall|t: int| 0 <= t < self.count() implies {
            let n = #[trigger] self.order@[t];
            n != NIL_INDEX && self.live(n) && self.mt(n).pos == t && n != d
        } by {
            if t < q {
                let n = before.order@[t];
                assert(n != NIL_INDEX && before.live(n) && before.mt(n).pos == t);
            } else {
                let n = before.order@[t + 1];
                assert(n != NIL_INDEX && before.live(n) && before.mt(n).pos == t + 1);
            }
        }
        assert forall|i: u32| i < self.slots() implies #[trigger] self.slot_ok(i) by {
            assert(before.slot_ok(i));
            if i != d && self.mt(i).live {
                if i == NIL_INDEX {
                    assert(c == NIL_INDEX);
                    assert(self.node_ok(i));
                } else {
                    let m = before.mt(i);
                    let nl = before.nd(i).left;
                    let nr = before.nd(i).right;
                    let np = before.nd(i).parent;
                    assert(before.order@[m.pos] == i);
                    assert(m.pos != q);
                    assert(self.order@[self.mt(i).pos] == i);
                    if nl != EMPTY_REF {
                        assert(before.slot_ok(nl));
                    }
                    if nr != EMPTY_REF {
                        assert(before.slot_ok(nr));
                    }
                    if np != EMPTY_REF {
                        assert(before.slot_ok(np));
                    }
                    assert(self.link_ok(self.nd(i).left, i, self.mt(i).lo, self.mt(i).pos));
                    assert(self.link_ok(self.nd(i).right, i, self.mt(i).pos + 1, self.mt(i).hi));
                    assert(self.node_ok(i));
                }
            }
        }
        assert forall|k: int| 0 <= k < self.store.unused@.len() implies {
            let f = #[trigger] self.store.unused@[k];
            f != NIL_INDEX && !self.mt(f).live
        } by {
            let f = before.store.unused@[k];
            assert(f != NIL_INDEX && !before.mt(f).live);
        }
    }

    /// The entry that stood at the position of `keep` is gone; the others
    /// keep their order.
    pub proof fn lemma_unlinked_view(&self, before: &Self, d: u32, keep: u32)
        requires
            before.wf(),
            before.live(d),
            before.nd(d).left == EMPTY_REF || before.nd(d).right == EMPTY_REF,
            keep == d || (before.live(keep) && before.mt(d).pos == before.mt(keep).pos + 1),
            self.unlinked(before, d, keep),
        ensures
            self.keys_sorted(),
            self.view() == before.view().remove(before.mt(keep).pos),
    {
        let q = before.mt(d).pos;
        assert(before.slot_ok(d));
        if keep != d {
            assert(before.slot_ok(keep));
        }
        assert(self.count() + 1 == before.count());
        let kq = before.mt(keep).pos;
        assert forall|t: int| 0 <= t < self.count() implies #[trigger] self.key_at(t) == (if t < kq {
            before.key_at(t)
        } else {
            before.key_at(t + 1)
        }) && self.val_at(t) == (if t < kq {
            before.val_at(t)
        } else {
            before.val_at(t + 1)
        }) by {
            if t < q {
                let n = before.order@[t];
                assert(n != NIL_INDEX && before.live(n) && before.mt(n).pos == t);
                if keep != d {
                    assert(before.order@[kq] == keep);
                }
            } else {
                let n = before.order@[t + 1];
                assert(n != NIL_INDEX && before.live(n) && before.mt(n).pos == t + 1);
            }
        }
        assert forall|i: int, j: int| 0 <= i < j < self.count() implies crate::order::key_le(
            #[trigger] self.key_at(i),
            #[trigger] self.key_at(j),
        ) by {
            let oi = if i < kq {
                i
            } else {
                i + 1
            };
            let oj = if j < kq {
                j
            } else {
                j + 1
            };
            assert(crate::order::key_le(before.key_at(oi), before.key_at(oj)));
        }
        assert(self.view() =~= before.view().remove(kq));
    }

    /// The node that took the place of `d`, if there is one, is short of one
    /// black node; otherwise every colour rule holds.
    pub proof fn lemma_unlinked_balance(&self, before: &Self, d: u32, keep: u32)
        requires
            before.wf(),
            before.live(d),
            before.nd(d).left == EMPTY_REF || before.nd(d).right == EMPTY_REF,
            keep == d || (before.live(keep) && before.mt(d).pos == before.mt(keep).pos + 1),
            self.unlinked(before, d, keep),
            self.structure(),
        ensures
            before.heir(d) == EMPTY_REF ==> self.balanced(EMPTY_REF, EMPTY_REF) && !self.mt(NIL_INDEX).live,
            before.heir(d) != EMPTY_REF ==> self.short_at(before.heir(d)),
    {
        let q = before.mt(d).pos;
        let p = before.nd(d).parent;
        let c = before.heir(d);
        let dl = before.nd(d).left;
        let dr = before.nd(d).right;
        assert(before.slot_ok(d));
        assert(before.bal_ok(d, EMPTY_REF, EMPTY_REF));
        assert(d != NIL_INDEX);
        assert(before.slot_ok(NIL_INDEX));
        if p != EMPTY_REF {
            assert(before.slot_ok(p));
            assert(before.bal_ok(p, EMPTY_REF, EMPTY_REF));
        }
        if dl != EMPTY_REF {
            assert(before.slot_ok(dl));
            assert(before.bal_ok(dl, EMPTY_REF, EMPTY_REF));
        }
        if dr != EMPTY_REF {
            assert(before.slot_ok(dr));
            assert(before.bal_ok(dr, EMPTY_REF, EMPTY_REF));
        }
        if keep != d {
            assert(before.slot_ok(keep));
        }
        if c == EMPTY_REF {
            assert forall|i: u32| self.live(i) implies #[trigger] self.bal_ok(i, EMPTY_REF, EMPTY_REF) by {
                assert(before.live(i));
                assert(before.slot_ok(i));
                assert(before.bal_ok(i, EMPTY_REF, EMPTY_REF));
                let nl = before.nd(i).left;
                let nr = before.nd(i).right;
                if nl != EMPTY_REF {
                    assert(before.slot_ok(nl));
                }
                if nr != EMPTY_REF {
                    assert(before.slot_ok(nr));
                }
            }
        } else {
            assert forall|i: u32| self.live(i) implies #[trigger] self.bal_ok(i, c, c) by {
                if i != NIL_INDEX {
                    assert(before.live(i));
                    assert(before.slot_ok(i));
                    assert(before.bal_ok(i, EMPTY_REF, EMPTY_REF));
                    let nl = before.nd(i).left;
                    let nr = before.nd(i).right;
                    if nl != EMPTY_REF {
                        assert(before.slot_ok(nl));
                    }
                    if nr != EMPTY_REF {
                        assert(before.slot_ok(nr));
                    }
                }
            }
        }
    }
}

} // verus!
