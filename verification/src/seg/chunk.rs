use vstd::prelude::*;
use crate::seg::entity::Entity;

verus! {

/// The values that are filed under one node.
pub struct Chunk<V> {
    pub buffer: Vec<Entity<V>>,
}

impl<V> Chunk<V> {
    /// The values of the chunk with the nodes under which each is filed.
    pub open spec fn items(&self) -> Seq<(V, u64)> {
        Seq::new(self.buffer@.len(), |k: int| (self.buffer@[k].val, self.buffer@[k].mask))
    }

    #[inline]
    pub fn new() -> (chunk: Self)
        ensures
            chunk.items() == Seq::<(V, u64)>::empty(),
    {
        let chunk = Self { buffer: Vec::new() };
        proof {
            assert(chunk.items() =~= Seq::<(V, u64)>::empty());
        }
        chunk
    }

    #[inline]
    pub fn is_empty(&self) -> (empty: bool)
        ensures
            empty == (self.items().len() == 0),
    {
        self.buffer.is_empty()
    }

    #[inline]
    pub fn entity(&self, index: usize) -> (entity: &Entity<V>)
        requires
            index < self.items().len(),
        ensures
            (entity.val, entity.mask) == self.items()[index as int],
    {
        &self.buffer[index]
    }

    #[inline]
    pub fn insert(&mut self, entity: Entity<V>)
        ensures
            final(self).items() == old(self).items().push((entity.val, entity.mask)),
    {
        self.buffer.push(entity);
        proof {
            assert(self.items() =~= old(self).items().push((entity.val, entity.mask)));
        }
    }

    /// Takes the value at `index` out; the last value takes its place.
    #[inline]
    pub fn swap_remove(&mut self, index: usize)
        requires
            index < old(self).items().len(),
        ensures
            final(self).items() == old(self).items().update(index as int, old(self).items().last()).drop_last(),
    {
        let _ = self.buffer.swap_remove(index);
        proof {
            assert(self.items() =~= old(self).items().update(index as int, old(self).items().last()).drop_last());
        }
    }

    #[inline]
    pub fn clear(&mut self)
        ensures
            final(self).items() == Seq::<(V, u64)>::empty(),
    {
        self.buffer.clear();
        proof {
            assert(self.items() =~= Seq::<(V, u64)>::empty());
        }
    }
}

} // verus!
