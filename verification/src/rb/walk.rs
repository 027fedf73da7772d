use vstd::prelude::*;
use crate::EMPTY_REF;
use crate::rb::shape::{Meta, RbTree, NIL_INDEX};

verus! {

/// Distinct indices below `n` are at most `n` in number.
pub proof fn lemma_distinct_bounded(s: Seq<u32>, n: int)
    requires
        0 <= n,
        s.no_duplicates(),
        forall|k: int| 0 <= k < s.len() ==> (#[trigger] s[k]) < n,
    ensures
        s.len() <= n,
{
    let m = s.map_values(|x: u32| x as int);
    assert(m.len() == s.len());
    assert(m.no_duplicates()) by {
        assert forall|i: int, j: int| 0 <= i < m.len() && 0 <= j < m.len() && i != j implies m[i] != m[j] by {
            assert(s[i] != s[j]);
        }
    }
    m.unique_seq_to_set();
    let range = vstd::set_lib::set_int_range(0, n);
    {
        vstd::set_lib::lemma_int_range(0, n);
        assert(m.to_set().subset_of(range)) by {
            assert forall|x: int| m.to_set().contains(x) implies range.contains(x) by {
                let k = choose|k: int| 0 <= k < m.len() && m[k] == x;
                assert(s[k] < n);
            }
        }
        vstd::set_lib::lemma_len_subset(m.to_set(), range);
        assert(m.to_set().len() <= range.len());
        assert(range.len() == n);
        assert(m.len() == m.to_set().len());
    }
}

/// Distinct positions below `n` are at most `n` in number.
pub proof fn lemma_distinct_within(s: Seq<int>, n: int)
    requires
        0 <= n,
        s.no_duplicates(),
        forall|k: int| 0 <= k < s.len() ==> 0 <= (#[trigger] s[k]) < n,
    ensures
        s.len() <= n,
{
    s.unique_seq_to_set();
    let range = vstd::set_lib::set_int_range(0, n);
    vstd::set_lib::lemma_int_range(0, n);
    assert(s.to_set().subset_of(range)) by {
        assert forall|x: int| s.to_set().contains(x) implies range.contains(x) by {
            let k = choose|k: int| 0 <= k < s.len() && s[k] == x;
            assert(0 <= s[k] < n);
        }
    }
    vstd::set_lib::lemma_len_subset(s.to_set(), range);
}

/// Distinct positions that leave none out are as many as there are
/// positions.
pub proof fn lemma_distinct_complete(s: Seq<int>, n: int)
    requires
        0 <= n,
        s.no_duplicates(),
        forall|k: int| 0 <= k < s.len() ==> 0 <= (#[trigger] s[k]) < n,
        forall|p: int| 0 <= p < n ==> s.contains(p),
    ensures
        s.len() == n,
{
    s.unique_seq_to_set();
    vstd::set_lib::lemma_int_range(0, n);
    assert(s.to_set() =~= vstd::set_lib::set_int_range(0, n)) by {
        assert forall|x: int| s.to_set().contains(x) implies 0 <= x < n by {
            let k = choose|k: int| 0 <= k < s.len() && s[k] == x;
            assert(0 <= s[k] < n);
        }
    }
}

impl<K: Ord, V> RbTree<K, V> {
    /// The state while the tree is taken apart: the free stack holds, behind
    /// what it held in `before`, nodes of `before`, each once and the root
    /// first. The first `done` of its entries have been looked at, and their
    /// children are on the stack; no other node is.
    pub open spec fn released(&self, before: &Self, done: int) -> bool {
        let u = self.store.unused@;
        let b = before.store.unused@.len() as int;
        &&& self.store.wf()
        &&& self.slots() == before.slots()
        &&& self.meta@ == before.meta@
        &&& self.order@ == before.order@
        &&& b < u.len()
        &&& b <= done <= u.len()
        &&& u.subrange(0, b) == before.store.unused@
        &&& u[b] == before.root
        &&& forall|j: u32|
            j < self.slots() ==> {
                &&& (#[trigger] self.nd(j)).left == before.nd(j).left
                &&& self.nd(j).right == before.nd(j).right
                &&& self.nd(j).parent == before.nd(j).parent
                &&& !before.mt(j).live ==> self.nd(j).entity == before.nd(j).entity
            }
        &&& forall|k: int|
            b <= k < u.len() ==> {
                &&& before.live(#[trigger] u[k])
                &&& u[k] != NIL_INDEX
                &&& self.nd(u[k]).entity.is_none()
            }
        &&& forall|k: int|
            b < k < u.len() ==> exists|m: int| b <= m < done && #[trigger] u[m] == before.nd(#[trigger] u[k]).parent
        &&& forall|k: int|
            b <= k < done ==> {
                &&& before.nd(#[trigger] u[k]).left != EMPTY_REF ==> u.contains(before.nd(u[k]).left)
                &&& before.nd(u[k]).right != EMPTY_REF ==> u.contains(before.nd(u[k]).right)
            }
    }

    /// A child of the entry that is looked at next is not on the stack yet.
    pub proof fn lemma_fresh_child(&self, before: &Self, done: int, c: u32)
        requires
            before.wf(),
            self.released(before, done),
            done < self.store.unused@.len(),
            c != EMPTY_REF,
            c == before.nd(self.store.unused@[done]).left || c == before.nd(self.store.unused@[done]).right,
        ensures
            before.live(c),
            c != NIL_INDEX,
            c < self.slots(),
            !self.store.unused@.contains(c),
            before.nd(c).parent == self.store.unused@[done],
    {
        let u = self.store.unused@;
        let b = before.store.unused@.len() as int;
        let x = u[done];
        assert(before.live(x) && x != NIL_INDEX);
        assert(before.slot_ok(x));
        assert(before.slot_ok(c));
        if u.contains(c) {
            let k = choose|k: int| 0 <= k < u.len() && u[k] == c;
            if k < b {
                assert(u.subrange(0, b)[k] == u[k]);
                let f = before.store.unused@[k];
                assert(f != NIL_INDEX && !before.mt(f).live);
            } else if k == b {
                assert(before.root != EMPTY_REF);
            } else {
                let m = choose|m: int| b <= m < done && #[trigger] u[m] == before.nd(u[k]).parent;
                assert(u[m] == u[done]);
            }
        }
    }

    /// Once every entry of the stack has been looked at, every node of
    /// `before` is on it.
    pub proof fn lemma_all_released(&self, before: &Self, n: u32)
        requires
            before.wf(),
            self.released(before, self.store.unused@.len() as int),
            before.live(n),
        ensures
            self.store.unused@.contains(n),
            n != NIL_INDEX,
        decreases before.count() - (before.mt(n).hi - before.mt(n).lo),
    {
        let u = self.store.unused@;
        let b = before.store.unused@.len() as int;
        assert(before.slot_ok(n));
        assert(before.slot_ok(NIL_INDEX));
        let p = before.nd(n).parent;
        if p == EMPTY_REF {
            assert(u[b] == n);
        } else {
            assert(before.slot_ok(p));
            self.lemma_all_released(before, p);
            let k = choose|k: int| 0 <= k < u.len() && u[k] == p;
            if k < b {
                assert(u.subrange(0, b)[k] == u[k]);
                let f = before.store.unused@[k];
                assert(f != NIL_INDEX && !before.mt(f).live);
            }
            assert(b <= k < u.len());
        }
    }

    /// The stack then holds as many nodes as the tree had.
    pub proof fn lemma_released_count(&self, before: &Self)
        requires
            before.wf(),
            self.released(before, self.store.unused@.len() as int),
        ensures
            self.store.unused@.len() == before.store.unused@.len() + before.count(),
    {
        let u = self.store.unused@;
        let b = before.store.unused@.len() as int;
        let q = u.subrange(b, u.len() as int);
        let s = Seq::new(q.len(), |k: int| before.mt(q[k]).pos);
        assert forall|i: int, j: int| 0 <= i < s.len() && 0 <= j < s.len() && i != j implies s[i] != s[j] by {
            assert(q[i] == u[b + i] && q[j] == u[b + j]);
            assert(u[b + i] != u[b + j]);
            assert(before.slot_ok(u[b + i]));
            assert(before.slot_ok(u[b + j]));
        }
        assert forall|k: int| 0 <= k < s.len() implies 0 <= (#[trigger] s[k]) < before.count() by {
            assert(q[k] == u[b + k]);
            assert(before.slot_ok(u[b + k]));
        }
        assert forall|p: int| 0 <= p < before.count() implies s.contains(p) by {
            let n = before.order@[p];
            assert(n != NIL_INDEX && before.live(n) && before.mt(n).pos == p);
            self.lemma_all_released(before, n);
            let k = choose|k: int| 0 <= k < u.len() && u[k] == n;
            if k < b {
                assert(u.subrange(0, b)[k] == u[k]);
                let f = before.store.unused@[k];
                assert(f != NIL_INDEX && !before.mt(f).live);
            }
            assert(q[k - b] == n);
            assert(s[k - b] == p);
        }
        lemma_distinct_complete(s, before.count());
    }

    /// Empties the slot `index` and returns it to the free stack.
    #[inline]
    fn release(&mut self, index: u32)
        requires
            index < old(self).slots(),
        ensures
            final(self).store.buffer@ == old(self).store.buffer@.update(
                index as int,
                (crate::rb::node::Node { entity: None, ..old(self).nd(index) }),
            ),
            final(self).store.unused@ == old(self).store.unused@.push(index),
            final(self).root == old(self).root,
            final(self).meta@ == old(self).meta@,
            final(self).order@ == old(self).order@,
    {
        let _ = self.take_entity(index);
        self.store.put_back(index);
    }

    /// The stack has room for the children of the entry at `done`.
    pub proof fn lemma_room(&self, before: &Self, done: int)
        requires
            before.wf(),
            self.released(before, done),
            done < self.store.unused@.len(),
        ensures
            self.store.unused@.len() + (if before.nd(self.store.unused@[done]).left != EMPTY_REF {
                1int
            } else {
                0int
            }) + (if before.nd(self.store.unused@[done]).right != EMPTY_REF {
                1int
            } else {
                0int
            }) <= self.slots(),
    {
        let u0 = self.store.unused@;
        let x = u0[done];
        let l = before.nd(x).left;
        let r = before.nd(x).right;
        let kids = if l != EMPTY_REF && r != EMPTY_REF {
            seq![l, r]
        } else if l != EMPTY_REF {
            seq![l]
        } else if r != EMPTY_REF {
            seq![r]
        } else {
            Seq::<u32>::empty()
        };
        let u = u0 + kids;
        assert(before.live(x) && x != NIL_INDEX);
        assert(before.slot_ok(x));
        if l != EMPTY_REF {
            self.lemma_fresh_child(before, done, l);
        }
        if r != EMPTY_REF {
            self.lemma_fresh_child(before, done, r);
        }
        assert(l != EMPTY_REF ==> l != r);
        assert forall|i: int, j: int| 0 <= i < u.len() && 0 <= j < u.len() && i != j implies u[i] != u[j] by {
            if i < u0.len() && j < u0.len() {
                assert(u0[i] != u0[j]);
            } else if i < u0.len() {
                assert(u0.contains(u0[i]));
            } else if j < u0.len() {
                assert(u0.contains(u0[j]));
            }
        }
        assert forall|k: int| 0 <= k < u.len() implies (#[trigger] u[k]) < self.slots() by {
            if k < u0.len() {
                assert(u0[k] < self.store.buffer@.len());
            }
        }
        lemma_distinct_bounded(u, self.slots());
    }

    /// Pushing the children of the entry at `done` completes one more step
    /// of taking the tree apart.
    pub proof fn lemma_scanned(&self, mid: &Self, before: &Self, done: int)
        requires
            before.wf(),
            mid.released(before, done),
            done < mid.store.unused@.len(),
            ({
                let x = mid.store.unused@[done];
                let l = before.nd(x).left;
                let r = before.nd(x).right;
                let kids = if l != EMPTY_REF && r != EMPTY_REF {
                    seq![l, r]
                } else if l != EMPTY_REF {
                    seq![l]
                } else if r != EMPTY_REF {
                    seq![r]
                } else {
                    Seq::<u32>::empty()
                };
                &&& self.store.unused@ == mid.store.unused@ + kids
                &&& self.slots() == mid.slots()
                &&& forall|j: u32|
                    j < self.slots() ==> (#[trigger] self.nd(j)) == if j == l || j == r {
                        crate::rb::node::Node { entity: None, ..mid.nd(j) }
                    } else {
                        mid.nd(j)
                    }
            }),
            self.root == mid.root,
            self.meta@ == mid.meta@,
            self.order@ == mid.order@,
        ensures
            self.released(before, done + 1),
    {
        let u0 = mid.store.unused@;
        let u = self.store.unused@;
        let b = before.store.unused@.len() as int;
        let x = u0[done];
        let l = before.nd(x).left;
        let r = before.nd(x).right;
        assert(before.live(x) && x != NIL_INDEX);
        assert(before.slot_ok(x));
        if l != EMPTY_REF {
            mid.lemma_fresh_child(before, done, l);
        }
        if r != EMPTY_REF {
            mid.lemma_fresh_child(before, done, r);
        }
        assert(l != EMPTY_REF ==> l != r);
        assert forall|k: int| 0 <= k < u0.len() implies u[k] == u0[k] by {}
        assert(u.subrange(0, b) =~= before.store.unused@) by {
            assert forall|k: int| 0 <= k < b implies u.subrange(0, b)[k] == before.store.unused@[k] by {
                assert(u0.subrange(0, b)[k] == u0[k]);
            }
        }
        assert forall|i: int, j: int| 0 <= i < u.len() && 0 <= j < u.len() && i != j implies u[i] != u[j] by {
            if i < u0.len() && j < u0.len() {
                assert(u0[i] != u0[j]);
            } else if i < u0.len() {
                assert(u0.contains(u0[i]));
            } else if j < u0.len() {
                assert(u0.contains(u0[j]));
            }
        }
        assert forall|k: int| 0 <= k < u.len() implies (#[trigger] u[k]) < self.store.buffer@.len() by {
            if k < u0.len() {
                assert(u0[k] < mid.store.buffer@.len());
            }
        }
        assert forall|k: int| b <= k < u.len() implies {
            &&& before.live(#[trigger] u[k])
            &&& u[k] != NIL_INDEX
            &&& self.nd(u[k]).entity.is_none()
        } by {
            if k < u0.len() {
                assert(before.live(u0[k]) && u0[k] != NIL_INDEX && mid.nd(u0[k]).entity.is_none());
            }
        }
        assert forall|k: int| b < k < u.len() implies exists|m: int|
            b <= m < done + 1 && #[trigger] u[m] == before.nd(#[trigger] u[k]).parent by {
            if k < u0.len() {
                let m = choose|m: int| b <= m < done && #[trigger] u0[m] == before.nd(u0[k]).parent;
                assert(u[m] == before.nd(u[k]).parent);
            } else {
                assert(u[done] == before.nd(u[k]).parent);
            }
        }
        assert forall|k: int| b <= k < done + 1 implies {
            &&& before.nd(#[trigger] u[k]).left != EMPTY_REF ==> u.contains(before.nd(u[k]).left)
            &&& before.nd(u[k]).right != EMPTY_REF ==> u.contains(before.nd(u[k]).right)
        } by {
            if k < done {
                let cl = before.nd(u0[k]).left;
                let cr = before.nd(u0[k]).right;
                if cl != EMPTY_REF {
                    let m = choose|m: int| 0 <= m < u0.len() && u0[m] == cl;
                    assert(u[m] == cl);
                }
                if cr != EMPTY_REF {
                    let m = choose|m: int| 0 <= m < u0.len() && u0[m] == cr;
                    assert(u[m] == cr);
                }
            } else {
                if l != EMPTY_REF {
                    assert(u[u0.len() as int] == l);
                }
                if r != EMPTY_REF {
                    assert(u[u.len() - 1] == r);
                }
            }
        }
        assert forall|j: u32| j < self.slots() implies {
            &&& (#[trigger] self.nd(j)).left == before.nd(j).left
            &&& self.nd(j).right == before.nd(j).right
            &&& self.nd(j).parent == before.nd(j).parent
            &&& !before.mt(j).live ==> self.nd(j).entity == before.nd(j).entity
        } by {
            assert(mid.nd(j).left == before.nd(j).left);
        }
    }

    /// The free stack after all nodes of `before` were returned to it: what
    /// was on it lies below, and above lie the nodes of `before`, each once,
    /// the root first.
    pub open spec fn cleared_from(&self, before: &Self) -> bool {
        let u = self.store.unused@;
        let b = before.store.unused@.len() as int;
        &&& u.len() == b + before.count()
        &&& u.subrange(0, b) == before.store.unused@
        &&& before.root != EMPTY_REF ==> u[b] == before.root
        &&& forall|k: int| b <= k < u.len() ==> before.live(#[trigger] u[k])
        &&& forall|j: u32| before.live(j) ==> exists|k: int| b <= k < u.len() && #[trigger] u[k] == j
        &&& forall|i: int, k: int| 0 <= i < k < u.len() ==> u[i] != u[k]
    }

    /// Returns every node to the free stack: the root first, then level by
    /// level the children of the nodes that are on the stack already.
    pub fn clear(&mut self)
        requires
            old(self).wf(),
        ensures
            final(self).wf(),
            final(self).view() == Seq::<(K, V)>::empty(),
            final(self).root == EMPTY_REF,
            final(self).slots() == old(self).slots(),
            old(self).root == EMPTY_REF ==> *final(self) == *old(self),
            final(self).cleared_from(old(self)),
    {
        if self.root == EMPTY_REF {
            proof {
                assert(self.view() =~= Seq::<(K, V)>::empty());
                assert(self.store.unused@.subrange(0, self.store.unused@.len() as int) =~= self.store.unused@);
                assert forall|j: u32| !self.live(j) by {
                    if j < self.slots() {
                        assert(self.slot_ok(j));
                    }
                }
                assert(self.cleared_from(old(self)));
            }
            return ;
        }
        let ghost before = *self;
        proof {
            assert(self.slot_ok(self.root));
            lemma_distinct_bounded(self.store.unused@, self.slots());
        }
        let root = self.root;
        self.release(root);
        self.root = EMPTY_REF;
        proof {
            let u = self.store.unused@;
            let b = before.store.unused@.len() as int;
            assert(u.subrange(0, b) =~= before.store.unused@);
            assert forall|i: int, j: int| 0 <= i < u.len() && 0 <= j < u.len() && i != j implies u[i]
                != u[j] by {
                if i < b && j < b {
                    assert(before.store.unused@[i] != before.store.unused@[j]);
                } else if i < b {
                    let f = before.store.unused@[i];
                    assert(f != NIL_INDEX && !before.mt(f).live);
                } else if j < b {
                    let f = before.store.unused@[j];
                    assert(f != NIL_INDEX && !before.mt(f).live);
                }
            }
            assert forall|k: int| 0 <= k < u.len() implies (#[trigger] u[k]) < self.store.buffer@.len() by {
                if k < b {
                    assert(before.store.unused@[k] < before.store.buffer@.len());
                }
            }
            assert(self.released(&before, b));
        }

        let mut n: usize = 1;
        while n > 0
            invariant
                before.wf(),
                self.root == EMPTY_REF,
                n <= self.store.unused@.len() - before.store.unused@.len(),
                self.released(&before, self.store.unused@.len() - n),
            decreases self.slots() - (self.store.unused@.len() - n),
        {
            proof {
                lemma_distinct_bounded(self.store.unused@, self.slots());
            }
            let i0 = self.store.unused.len() - n;
            n = 0;
            let end = self.store.unused.len();
            let mut i = i0;
            while i < end
                invariant
                    before.wf(),
                    self.root == EMPTY_REF,
                    i0 <= i <= end,
                    end + n == self.store.unused@.len(),
                    self.store.unused@.len() <= self.slots(),
                    before.store.unused@.len() <= i0,
                    self.released(&before, i as int),
                decreases end - i,
            {
                let ghost mid = *self;
                let index = self.store.unused[i];
                let left = self.node(index).left;
                let right = self.node(index).right;
                proof {
                    assert(before.live(index) && index != NIL_INDEX);
                    assert(before.slot_ok(index));
                    if left != EMPTY_REF {
                        mid.lemma_fresh_child(&before, i as int, left);
                    }
                    if right != EMPTY_REF {
                        mid.lemma_fresh_child(&before, i as int, right);
                    }
                    mid.lemma_room(&before, i as int);
                }
                if left != EMPTY_REF {
                    self.release(left);
                    n += 1;
                }
                if right != EMPTY_REF {
                    self.release(right);
                    n += 1;
                }
                proof {
                    let kids = if left != EMPTY_REF && right != EMPTY_REF {
                        seq![left, right]
                    } else if left != EMPTY_REF {
                        seq![left]
                    } else if right != EMPTY_REF {
                        seq![right]
                    } else {
                        Seq::<u32>::empty()
                    };
                    assert(self.store.unused@ =~= mid.store.unused@ + kids);
                    self.lemma_scanned(&mid, &before, i as int);
                }
                i += 1;
            }
        }
        proof {
            let mid = *self;
            mid.lemma_released_count(&before);
            self.order@ = Seq::empty();
            self.meta@ = Seq::new(
                self.slots() as nat,
                |j: int| Meta { live: false, pos: 0, lo: 0, hi: 0, bh: 0 },
            );
            let u = self.store.unused@;
            let b = before.store.unused@.len() as int;
            assert forall|i: u32| i < self.slots() implies #[trigger] self.slot_ok(i) by {
                assert(before.slot_ok(i));
                if before.mt(i).live {
                    mid.lemma_all_released(&before, i);
                    let k = choose|k: int| 0 <= k < u.len() && u[k] == i;
                    if k < b {
                        assert(u.subrange(0, b)[k] == u[k]);
                        let f = before.store.unused@[k];
                        assert(f != NIL_INDEX && !before.mt(f).live);
                    }
                } else {
                    assert(mid.nd(i).entity == before.nd(i).entity);
                }
            }
            assert forall|k: int| 0 <= k < u.len() implies {
                let f = #[trigger] u[k];
                f != NIL_INDEX && !self.mt(f).live
            } by {
                if k < b {
                    assert(u.subrange(0, b)[k] == u[k]);
                    let f = before.store.unused@[k];
                    assert(f != NIL_INDEX && !before.mt(f).live);
                }
            }
            assert(self.view() =~= Seq::<(K, V)>::empty());
            assert forall|j: u32| before.live(j) implies exists|k: int| b <= k < u.len() && #[trigger] u[k] == j by {
                mid.lemma_all_released(&before, j);
                let k = choose|k: int| 0 <= k < u.len() && u[k] == j;
                if k < b {
                    assert(u.subrange(0, b)[k] == u[k]);
                    let f = before.store.unused@[k];
                    assert(f != NIL_INDEX && !before.mt(f).live);
                }
            }
            assert(self.cleared_from(&before));
        }
    }
}

} // verus!
