use vstd::prelude::*;
use crate::{Expiration, ExpiredKey, EMPTY_REF};
use crate::key::tree::KeyExpTree;
use crate::rb::node::{Color, Node};
use crate::rb::shape::{RbTree, NIL_INDEX};

verus! {

/// A collection that can be turned into the array of its values.
pub trait IntoArray<E, V>: Sized {
    /// The collection is consistent.
    spec fn ready(&self) -> bool;

    /// The values of the entries that are not expired at `time`, in key
    /// order.
    spec fn values_at(&self, time: E) -> Seq<V>;

    fn into_ordered_vec(self, time: E) -> (values: Vec<V>)
        requires
            self.ready(),
        ensures
            values@ == self.values_at(time),
    ;
}

impl<K: ExpiredKey<E>, E: Expiration, V: Copy> IntoArray<E, V> for KeyExpTree<K, E, V> {
    open spec fn ready(&self) -> bool {
        self.inv()
    }

    open spec fn values_at(&self, time: E) -> Seq<V> {
        crate::key::exp::values(crate::key::exp::unexpired(self.seq(), time))
    }

    #[inline]
    fn into_ordered_vec(self, time: E) -> (values: Vec<V>) {
        let mut tree = self;
        tree.create_ordered_list(time)
    }
}

/// A node on the way from the root to the node that is visited, with what
/// is still to do there: descend to the left, hand out the node itself,
/// descend to the right. What is done is set to `EMPTY_REF`.
pub struct StackNode {
    pub index: u32,
    pub left: u32,
    pub right: u32,
}

impl StackNode {
    pub fn new<K, V>(index: u32, node: &Node<K, V>) -> (s: Self)
        ensures
            s.index == index,
            s.left == node.left,
            s.right == node.right,
    {
        Self { index, left: node.left, right: node.right }
    }
}

impl<K: Ord, V> RbTree<K, V> {
    /// The entry `f` of the stack stands for the live node `x`.
    pub open spec fn frame_ok(&self, f: StackNode, x: u32) -> bool {
        &&& self.live(x)
        &&& x != NIL_INDEX
        &&& if f.index == x {
            &&& f.right == self.nd(x).right
            &&& f.left == self.nd(x).left || f.left == EMPTY_REF
        } else {
            &&& f.index == EMPTY_REF
            &&& f.left == EMPTY_REF
            &&& f.right == EMPTY_REF
        }
    }

    /// The first position that is still to hand out at or below `x`, or the
    /// position behind the subtree of `x`.
    pub open spec fn resume(&self, f: StackNode, x: u32) -> int {
        if f.index == x {
            if f.left != EMPTY_REF {
                self.mt(x).lo
            } else {
                self.mt(x).pos
            }
        } else {
            self.mt(x).hi
        }
    }

    /// The number of nodes below `x` that are still to be put on the stack.
    pub open spec fn below(&self, f: StackNode, x: u32) -> int {
        (if f.left != EMPTY_REF {
            self.mt(x).pos - self.mt(x).lo
        } else {
            0
        }) + (if f.right != EMPTY_REF {
            self.mt(x).hi - self.mt(x).pos - 1
        } else {
            0
        })
    }

    /// The number of nodes that are still to be put on the stack.
    pub open spec fn unpushed(&self, stack: Seq<StackNode>, path: Seq<u32>) -> int
        decreases stack.len(),
    {
        if stack.len() == 0 || path.len() != stack.len() {
            0
        } else {
            self.unpushed(stack.drop_last(), path.drop_last()) + self.below(stack.last(), path.last())
        }
    }

    /// The stack of an in-order walk that has handed out the positions
    /// before `cur`.
    pub open spec fn walking(&self, stack: Seq<StackNode>, path: Seq<u32>, cur: int) -> bool {
        &&& path.len() == stack.len()
        &&& forall|k: int| 0 <= k < stack.len() ==> self.frame_ok(#[trigger] stack[k], path[k])
        &&& forall|k: int|
            0 <= k < stack.len() - 1 ==> self.mt(#[trigger] path[k + 1]).hi == self.resume(stack[k], path[k])
        &&& stack.len() > 0 ==> path[0] == self.root && cur == self.resume(stack.last(), path.last())
        &&& stack.len() == 0 ==> cur == self.count()
    }

    /// There is never less than nothing left to put on the stack.
    pub proof fn lemma_unpushed(&self, stack: Seq<StackNode>, path: Seq<u32>)
        requires
            self.structure(),
            path.len() == stack.len(),
            forall|k: int| 0 <= k < stack.len() ==> self.frame_ok(#[trigger] stack[k], path[k]),
        ensures
            self.unpushed(stack, path) >= 0,
        decreases stack.len(),
    {
        if stack.len() > 0 {
            let rest = stack.drop_last();
            let rest_path = path.drop_last();
            assert forall|k: int| 0 <= k < rest.len() implies self.frame_ok(#[trigger] rest[k], rest_path[k]) by {
                assert(self.frame_ok(stack[k], path[k]));
            }
            self.lemma_unpushed(rest, rest_path);
            let f = stack.last();
            let x = path.last();
            assert(self.frame_ok(stack[stack.len() - 1], path[stack.len() - 1]));
            assert(self.slot_ok(x));
        }
    }

    /// Twice the black height of the tree, which is the number of black
    /// nodes on the way from the root to the leftmost node, as on every way
    /// down: an estimate of the height of the tree. It is 0 for the empty
    /// tree.
    #[inline]
    fn height(&self) -> (height: usize)
        requires
            self.wf(),
        ensures
            height == 2 * self.bh_of(self.root),
    {
        if self.root == EMPTY_REF {
            return 0;
        }
        let mut index = self.root;
        let mut height: usize = 1;
        proof {
            assert(self.slot_ok(index));
            assert(self.bal_ok(index, EMPTY_REF, EMPTY_REF));
            self.lemma_black_bound();
        }
        while self.node(index).left != EMPTY_REF
            invariant
                self.wf(),
                self.live(index),
                self.mt(index).lo < self.mt(index).hi,
                self.bh_of(self.root) <= 31,
                0 <= self.bh_of(self.nd(index).left),
                height + self.bh_of(self.nd(index).left) == self.bh_of(self.root),
            decreases self.mt(index).hi - self.mt(index).lo,
        {
            proof {
                assert(self.slot_ok(index));
                assert(self.slot_ok(self.nd(index).left));
                assert(self.slot_ok(NIL_INDEX));
                assert(self.bal_ok(self.nd(index).left, EMPTY_REF, EMPTY_REF));
            }
            index = self.node(index).left;
            if self.node(index).color == Color::Black {
                height += 1;
            }
        }

        height * 2
    }
}

impl<K: Ord + Copy, V: Copy> RbTree<K, V> {
    /// The values in key order, found by a walk that keeps the way back to
    /// the root on a stack.
    pub fn ordered_list(&self) -> (list: Vec<V>)
        requires
            self.wf(),
        ensures
            list@ == crate::key::exp::values(self.view()),
    {
        let height = self.height();
        let slots = self.slot_count();
        let capacity = if height < 24 {
            let wide = 8usize << height;
            if wide < slots {
                wide
            } else {
                slots
            }
        } else {
            slots
        };
        let mut stack: Vec<StackNode> = Vec::with_capacity(height);
        let mut list: Vec<V> = Vec::with_capacity(capacity);

        if self.root == EMPTY_REF {
            proof {
                assert(list@ =~= crate::key::exp::values(self.view()));
            }
            return list;
        }
        proof {
            assert(self.slot_ok(self.root));
            assert(self.slot_ok(NIL_INDEX));
        }
        stack.push(StackNode::new(self.root, self.node(self.root)));
        let ghost mut path: Seq<u32> = seq![self.root];
        let ghost mut cur: int = 0;
        proof {
            assert(stack@.drop_last() =~= Seq::<StackNode>::empty());
            assert(path.drop_last() =~= Seq::<u32>::empty());
            assert(self.unpushed(stack@.drop_last(), path.drop_last()) == 0);
            assert(stack@.last() == stack@[0] && path.last() == path[0]);
            assert(self.unpushed(stack@, path) == self.below(stack@[0], path[0]));
        }

        while stack.len() > 0
            invariant
                self.wf(),
                self.walking(stack@, path, cur),
                0 <= cur <= self.count(),
                list@.len() == cur,
                forall|i: int| 0 <= i < cur ==> #[trigger] list@[i] == self.val_at(i),
                self.unpushed(stack@, path) >= 0,
            decreases 2 * self.unpushed(stack@, path) + stack@.len(),
        {
            let last = stack.len() - 1;
            let ghost x = path[last as int];
            let ghost before = stack@;
            let ghost before_path = path;
            proof {
                assert(self.frame_ok(before[last as int], before_path[last as int]));
                assert(self.slot_ok(x));
                assert(before.last() == before[last as int]);
                assert(before_path.last() == x);
            }
            let s_left = stack[last].left;

            if s_left != EMPTY_REF {
                // the left subtree comes first
                let index = s_left;
                // and is done with once it is entered
                stack[last].left = EMPTY_REF;
                proof {
                    assert(self.slot_ok(index));
                }

                stack.push(StackNode::new(index, self.node(index)));
                proof {
                    path = path.push(index);
                    let mid = before.update(last as int, stack@[last as int]);
                    assert(stack@.drop_last() =~= mid);
                    assert(mid.drop_last() =~= before.drop_last());
                    assert(path.drop_last() =~= before_path);
                    assert(self.unpushed(mid, before_path) == self.unpushed(
                        before.drop_last(),
                        before_path.drop_last(),
                    ) + self.below(mid.last(), x));
                    assert forall|k: int| 0 <= k < stack@.len() implies self.frame_ok(
                        #[trigger] stack@[k],
                        path[k],
                    ) by {
                        if k < last {
                            assert(self.frame_ok(before[k], before_path[k]));
                        }
                    }
                    assert forall|k: int| 0 <= k < stack@.len() - 1 implies self.mt(#[trigger] path[k + 1]).hi
                        == self.resume(stack@[k], path[k]) by {
                        if k < last {
                            assert(self.mt(before_path[k + 1]).hi == self.resume(before[k], before_path[k]));
                        }
                    }
                    self.lemma_unpushed(stack@, path);
                }
            } else {
                let s_index = stack[last].index;
                if s_index != EMPTY_REF {
                    let index = s_index;
                    // the node itself is handed out once
                    stack[last].index = EMPTY_REF;

                    list.push(*self.val_of(index));
                    proof {
                        cur = cur + 1;
                    }
                }
                let s_right = stack[last].right;

                if s_right != EMPTY_REF {
                    // then the right subtree
                    let index = s_right;
                    stack[last].right = EMPTY_REF;
                    proof {
                        assert(self.slot_ok(index));
                    }

                    stack.push(StackNode::new(index, self.node(index)));
                    proof {
                        path = path.push(index);
                        let mid = before.update(last as int, stack@[last as int]);
                        assert(stack@.drop_last() =~= mid);
                        assert(mid.drop_last() =~= before.drop_last());
                        assert(path.drop_last() =~= before_path);
                        assert(self.unpushed(mid, before_path) == self.unpushed(
                            before.drop_last(),
                            before_path.drop_last(),
                        ) + self.below(mid.last(), x));
                        assert forall|k: int| 0 <= k < stack@.len() implies self.frame_ok(
                            #[trigger] stack@[k],
                            path[k],
                        ) by {
                            if k < last {
                                assert(self.frame_ok(before[k], before_path[k]));
                            }
                        }
                        assert forall|k: int| 0 <= k < stack@.len() - 1 implies self.mt(
                            #[trigger] path[k + 1],
                        ).hi == self.resume(stack@[k], path[k]) by {
                            if k < last {
                                assert(self.mt(before_path[k + 1]).hi == self.resume(
                                    before[k],
                                    before_path[k],
                                ));
                            }
                        }
                        self.lemma_unpushed(stack@, path);
                    }
                } else {
                    // nothing is left here
                    let _ = stack.pop();
                    proof {
                        path = path.drop_last();
                        assert(stack@ =~= before.drop_last());
                        assert forall|k: int| 0 <= k < stack@.len() implies self.frame_ok(
                            #[trigger] stack@[k],
                            path[k],
                        ) by {
                            assert(self.frame_ok(before[k], before_path[k]));
                        }
                        assert forall|k: int| 0 <= k < stack@.len() - 1 implies self.mt(
                            #[trigger] path[k + 1],
                        ).hi == self.resume(stack@[k], path[k]) by {
                            assert(self.mt(before_path[k + 1]).hi == self.resume(before[k], before_path[k]));
                        }
                        if last > 0 {
                            assert(self.mt(before_path[(last - 1) + 1]).hi == self.resume(
                                before[last - 1],
                                before_path[last - 1],
                            ));
                            assert(stack@.last() == before[last - 1]);
                            assert(path.last() == before_path[last - 1]);
                        } else {
                            assert(x == self.root);
                        }
                        self.lemma_unpushed(stack@, path);
                    }
                }
            }
        }
        proof {
            assert(list@ =~= crate::key::exp::values(self.view()));
        }

        list
    }
}

impl<K: ExpiredKey<E>, E: Expiration, V: Copy> KeyExpTree<K, E, V> {
    /// Whether the slot `index` holds a node of the tree: it holds an entity,
    /// and the parent links lead from it to the root.
    #[inline]
    pub fn is_part_of_the_tree(&self, index: u32) -> (part: bool)
        requires
            self.inv(),
            0 < index < self.tree.slots(),
        ensures
            part == self.tree.live(index),
    {
        proof {
            assert(self.tree.slot_ok(index));
            assert(self.tree.slot_ok(NIL_INDEX));
        }
        if self.tree.node(index).entity.is_none() {
            return false;
        }
        let mut prev = index;
        let mut cursor = self.tree.node(index).parent;
        while cursor != 0 && cursor != EMPTY_REF && cursor != index
            invariant_except_break
                cursor == self.tree.nd(prev).parent,
            invariant
                self.inv(),
                self.tree.live(index),
                self.tree.live(prev),
                prev != NIL_INDEX,
                self.tree.mt(prev).lo <= self.tree.mt(index).lo,
                self.tree.mt(index).hi <= self.tree.mt(prev).hi,
            ensures
                self.tree.nd(prev).parent == EMPTY_REF || (cursor == self.tree.nd(prev).parent && (cursor
                    == 0 || cursor == index)),
            decreases self.tree.count() - (self.tree.mt(prev).hi - self.tree.mt(prev).lo),
        {
            proof {
                assert(self.tree.slot_ok(prev));
                assert(self.tree.slot_ok(cursor));
            }
            prev = cursor;
            let parent_index = self.tree.node(cursor).parent;
            if parent_index == EMPTY_REF {
                break ;
            }
            proof {
                assert(self.tree.slot_ok(parent_index));
            }
            let parent = self.tree.node(parent_index);
            if parent.left != cursor && parent.right != cursor {
                return false;
            }
            cursor = parent_index;
        }
        proof {
            assert(self.tree.slot_ok(prev));
            assert(self.tree.slot_ok(index));
            let p = self.tree.nd(prev).parent;
            if p != EMPTY_REF {
                assert(self.tree.slot_ok(p));
            }
        }
        prev == self.tree.root
    }

    /// Deletes every node that is expired at `time`.
    #[inline]
    pub fn expire_all(&mut self, time: E)
        requires
            old(self).inv(),
        ensures
            final(self).inv(),
            final(self).seq() == crate::key::exp::unexpired(old(self).seq(), time),
    {
        let n = self.tree.slot_count();
        let mut i: usize = 1;
        proof {
            crate::key::exp::lemma_evict_none(self.seq(), time);
        }
        while i < n
            invariant
                self.inv(),
                n == self.tree.slots(),
                1 <= i,
                crate::key::exp::evicts_to(old(self).seq(), self.seq(), time),
                forall|j: u32|
                    0 < j < i && j < n && #[trigger] self.tree.live(j) ==> !crate::key::exp::expired(
                        self.tree.nd(j).key(),
                        time,
                    ),
            decreases n - i,
        {
            let index = crate::map::list::as_index(i);
            while self.is_part_of_the_tree(index) && self.is_expired(index, time)
                invariant
                    self.inv(),
                    n == self.tree.slots(),
                    1 <= i < n,
                    index == i,
                    crate::key::exp::evicts_to(old(self).seq(), self.seq(), time),
                    forall|j: u32|
                        0 < j < i && j < n && #[trigger] self.tree.live(j) ==> !crate::key::exp::expired(
                            self.tree.nd(j).key(),
                            time,
                        ),
                decreases self.tree.count(),
            {
                let ghost before = *self;
                self.tree.delete_index(index);
                proof {
                    self.lemma_evicted(&before, index, time);
                    crate::key::exp::lemma_evict_more(old(self).seq(), before.seq(), self.seq(), time);
                    assert forall|j: u32| 0 < j < i && j < n && #[trigger] self.tree.live(j) implies !crate::key::exp::expired(
                        self.tree.nd(j).key(),
                        time,
                    ) by {
                        assert(before.tree.live(j));
                    }
                }
            }
            i += 1;
        }
        proof {
            assert forall|t: int| 0 <= t < self.seq().len() implies !crate::key::exp::expired(
                #[trigger] self.seq()[t].0,
                time,
            ) by {
                let m = self.tree.order@[t];
                assert(m != NIL_INDEX && self.tree.live(m) && self.tree.mt(m).pos == t);
                assert(self.tree.live(m));
            }
            crate::key::exp::lemma_evict_all(old(self).seq(), self.seq(), time);
        }
    }

    /// The values of the entries that are not expired at `time`, in key
    /// order. Every expired node is deleted first.
    #[inline]
    pub fn create_ordered_list(&mut self, time: E) -> (list: Vec<V>)
        requires
            old(self).inv(),
        ensures
            final(self).inv(),
            final(self).seq() == crate::key::exp::unexpired(old(self).seq(), time),
            list@ == crate::key::exp::values(final(self).seq()),
    {
        self.expire_all(time);
        self.tree.ordered_list()
    }
}

} // verus!
