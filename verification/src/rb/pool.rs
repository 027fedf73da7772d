use vstd::prelude::*;
use crate::rb::node::Node;

verus! {

/// The largest number of slots a table may hold. Every index then fits in
/// `u32` and stays below the value that stands for "no node".
pub const MAX_SLOTS: usize = 0xFFFF_FFFF;

/// The smallest table that `Pool::new` builds.
pub const MIN_SLOTS: usize = 8;

/// The node table together with the stack of indices that are free for use.
pub struct Pool<K, V> {
    pub buffer: Vec<Node<K, V>>,
    pub unused: Vec<u32>,
}

/// The indices `from, from + 1, .., from + count - 1`, largest first.
pub open spec fn descending(from: int, count: int) -> Seq<u32> {
    Seq::new(count as nat, |k: int| (from + count - 1 - k) as u32)
}

/// `slot` is as `Node::vacant` makes it.
pub open spec fn is_vacant<K, V>(slot: Node<K, V>) -> bool {
    &&& slot.parent == 0
    &&& slot.left == 0
    &&& slot.right == 0
    &&& !slot.is_black()
    &&& slot.entity.is_none()
}

/// The number of slots of a table that is made for `capacity` nodes: that
/// many, but `MIN_SLOTS` at least and `MAX_SLOTS` at most.
pub open spec fn slots_for(capacity: usize) -> int {
    if capacity < MIN_SLOTS {
        MIN_SLOTS as int
    } else if capacity > MAX_SLOTS {
        MAX_SLOTS as int
    } else {
        capacity as int
    }
}

/// The number of slots by which a table of `have` slots grows when it is
/// asked for `additional` more: that many, or as many as it has room for.
pub open spec fn room_for(have: int, additional: usize) -> int {
    if additional <= MAX_SLOTS - have {
        additional as int
    } else {
        MAX_SLOTS - have
    }
}

impl<K, V> Pool<K, V> {
    pub open spec fn wf(&self) -> bool {
        &&& 0 < self.buffer@.len() <= MAX_SLOTS
        &&& self.unused@.no_duplicates()
        &&& forall|k: int| 0 <= k < self.unused@.len() ==> (#[trigger] self.unused@[k]) < self.buffer@.len()
    }

    /// `self` is `before` with `count` vacant slots appended, their indices
    /// pushed on the free stack so that the smallest is taken first.
    pub open spec fn grown_from(&self, before: Self, count: int) -> bool {
        &&& self.buffer@.len() == before.buffer@.len() + count
        &&& self.buffer@.subrange(0, before.buffer@.len() as int) == before.buffer@
        &&& forall|i: int| before.buffer@.len() <= i < self.buffer@.len() ==> is_vacant(#[trigger] self.buffer@[i])
        &&& self.unused@ == before.unused@ + descending(before.buffer@.len() as int, count)
    }

    /// A table of `capacity` slots, at least `MIN_SLOTS` and at most `MAX_SLOTS`,
    /// all of them free.
    pub fn new(capacity: usize) -> (pool: Self)
        ensures
            pool.wf(),
            pool.buffer@.len() == slots_for(capacity),
            pool.unused@ == descending(0, pool.buffer@.len() as int),
            forall|i: int| 0 <= i < pool.buffer@.len() ==> is_vacant(#[trigger] pool.buffer@[i]),
    {
        let capacity = if capacity < MIN_SLOTS {
            MIN_SLOTS
        } else if capacity > MAX_SLOTS {
            MAX_SLOTS
        } else {
            capacity
        };
        let mut pool = Self { buffer: Vec::with_capacity(capacity), unused: Vec::with_capacity(capacity) };
        let ghost empty = pool;
        pool.fill(capacity);
        proof {
            assert(pool.unused@ =~= descending(0, capacity as int));
            assert forall|i: int, j: int|
                0 <= i < pool.unused@.len() && 0 <= j < pool.unused@.len() && i != j implies pool.unused@[i]
                != pool.unused@[j] by {}
        }
        pool
    }

    /// Appends `additional` vacant slots and pushes their indices.
    fn fill(&mut self, additional: usize)
        requires
            old(self).buffer@.len() + additional <= MAX_SLOTS,
        ensures
            final(self).grown_from(*old(self), additional as int),
    {
        let n = self.buffer.len();
        let mut i: usize = 0;
        while i < additional
            invariant
                n == old(self).buffer@.len(),
                n + additional <= MAX_SLOTS,
                i <= additional,
                self.unused@ == old(self).unused@,
                self.buffer@.len() == n + i,
                self.buffer@.subrange(0, n as int) == old(self).buffer@,
                forall|j: int| n <= j < self.buffer@.len() ==> is_vacant(#[trigger] self.buffer@[j]),
            decreases additional - i,
        {
            self.buffer.push(Node::default());
            i = i + 1;
            proof {
                assert(self.buffer@.subrange(0, n as int) =~= old(self).buffer@);
            }
        }
        let mut k: usize = 0;
        while k < additional
            invariant
                n == old(self).buffer@.len(),
                n + additional <= MAX_SLOTS,
                k <= additional,
                self.buffer@.len() == n + additional,
                self.buffer@.subrange(0, n as int) == old(self).buffer@,
                forall|j: int| n <= j < self.buffer@.len() ==> is_vacant(#[trigger] self.buffer@[j]),
                self.unused@.len() == old(self).unused@.len() + k,
                self.unused@.subrange(0, old(self).unused@.len() as int) == old(self).unused@,
                forall|j: int|
                    0 <= j < k ==> (#[trigger] self.unused@[old(self).unused@.len() + j]) == n + additional
                        - 1 - j,
            decreases additional - k,
        {
            let index: usize = n + additional - 1 - k;
            self.unused.push(index as u32);
            k = k + 1;
            proof {
                assert(self.unused@.subrange(0, old(self).unused@.len() as int) =~= old(self).unused@);
            }
        }
        proof {
            let tail = descending(n as int, additional as int);
            assert(self.unused@ =~= old(self).unused@ + tail) by {
                assert forall|j: int| 0 <= j < self.unused@.len() implies self.unused@[j] == (old(
                    self,
                ).unused@ + tail)[j] by {
                    if j < old(self).unused@.len() {
                        assert(self.unused@.subrange(0, old(self).unused@.len() as int)[j]
                            == self.unused@[j]);
                    } else {
                        let d = j - old(self).unused@.len();
                        assert(self.unused@[old(self).unused@.len() + d] == n + additional - 1 - d);
                    }
                }
            }
        }
    }

    /// Appends `additional` vacant slots, or as many as the table has room
    /// for, and pushes their indices so that the smallest is taken first.
    #[inline]
    pub fn reserve(&mut self, additional: usize)
        requires
            0 < old(self).buffer@.len() <= MAX_SLOTS,
        ensures
            final(self).grown_from(*old(self), room_for(old(self).buffer@.len() as int, additional)),
    {
        let room = MAX_SLOTS - self.buffer.len();
        let additional = if additional <= room {
            additional
        } else {
            room
        };
        self.fill(additional);
    }

    /// Takes a free index, doubling the table first when none is left.
    pub fn get_free_index(&mut self) -> (index: u32)
        requires
            old(self).wf(),
            old(self).unused@.len() > 0 || old(self).buffer@.len() < MAX_SLOTS,
        ensures
            final(self).wf(),
            index < final(self).buffer@.len(),
            old(self).unused@.len() > 0 ==> {
                &&& final(self).buffer@ == old(self).buffer@
                &&& final(self).unused@ == old(self).unused@.drop_last()
                &&& index == old(self).unused@.last()
            },
            old(self).unused@.len() == 0 ==> {
                &&& final(self).buffer@.len() > old(self).buffer@.len()
                &&& final(self).buffer@.len() == old(self).buffer@.len() + room_for(
                    old(self).buffer@.len() as int,
                    old(self).buffer@.len() as usize,
                )
                &&& final(self).buffer@.subrange(0, old(self).buffer@.len() as int) == old(self).buffer@
                &&& forall|i: int|
                    old(self).buffer@.len() <= i < final(self).buffer@.len() ==> is_vacant(
                        #[trigger] final(self).buffer@[i],
                    )
                &&& final(self).unused@ == descending(
                    old(self).buffer@.len() as int + 1,
                    final(self).buffer@.len() - old(self).buffer@.len() - 1,
                )
                &&& index == old(self).buffer@.len()
            },
    {
        if self.unused.len() == 0 {
            let n = self.buffer.len();
            let additional = if n <= MAX_SLOTS - n {
                n
            } else {
                MAX_SLOTS - n
            };
            self.fill(additional);
            proof {
                assert(self.unused@ =~= descending(n as int, additional as int));
            }
        }
        let ghost before = self.unused@;
        let index = self.unused.pop().unwrap();
        proof {
            assert(self.unused@ =~= before.drop_last());
            assert(before.last() == index);
            if old(self).unused@.len() == 0 {
                let n = old(self).buffer@.len() as int;
                assert(self.unused@ =~= descending(n + 1, self.buffer@.len() - n - 1));
            }
            assert forall|i: int, j: int|
                0 <= i < self.unused@.len() && 0 <= j < self.unused@.len() && i != j implies self.unused@[i]
                != self.unused@[j] by {
                assert(before[i] != before[j]);
            }
            assert forall|k: int| 0 <= k < self.unused@.len() implies (#[trigger] self.unused@[k])
                < self.buffer@.len() by {
                assert(before[k] < self.buffer@.len());
            }
        }
        index
    }

    /// Returns `index` to the free stack.
    #[inline]
    pub fn put_back(&mut self, index: u32)
        ensures
            final(self).buffer@ == old(self).buffer@,
            final(self).unused@ == old(self).unused@.push(index),
    {
        self.unused.push(index)
    }
}

} // verus!
