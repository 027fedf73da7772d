use vstd::prelude::*;
use crate::rb::node::{Color, Entity, Node};
use crate::rb::shape::RbTree;

verus! {

impl<K: Ord, V> RbTree<K, V> {
    /// `self` is `before` but for the slot `i`, which holds `slot`.
    pub open spec fn same_but(&self, before: &Self, i: u32, slot: Node<K, V>) -> bool {
        &&& self.store.buffer@ == before.store.buffer@.update(i as int, slot)
        &&& self.store.unused@ == before.store.unused@
        &&& self.root == before.root
        &&& self.meta@ == before.meta@
        &&& self.order@ == before.order@
    }

    #[inline(always)]
    pub fn node(&self, index: u32) -> (node: &Node<K, V>)
        requires
            index < self.slots(),
        ensures
            *node == self.nd(index),
    {
        &self.store.buffer[index as usize]
    }

    #[inline(always)]
    pub fn set_parent(&mut self, index: u32, parent: u32)
        requires
            index < old(self).slots(),
        ensures
            final(self).same_but(old(self), index, (Node { parent, ..old(self).nd(index) })),
    {
        self.store.buffer[index as usize].parent = parent;
        proof {
            assert(self.store.buffer@ =~= old(self).store.buffer@.update(
                index as int,
                (Node { parent, ..old(self).nd(index) }),
            ));
        }
    }

    #[inline(always)]
    pub fn set_left(&mut self, index: u32, left: u32)
        requires
            index < old(self).slots(),
        ensures
            final(self).same_but(old(self), index, (Node { left, ..old(self).nd(index) })),
    {
        self.store.buffer[index as usize].left = left;
        proof {
            assert(self.store.buffer@ =~= old(self).store.buffer@.update(
                index as int,
                (Node { left, ..old(self).nd(index) }),
            ));
        }
    }

    #[inline(always)]
    pub fn set_right(&mut self, index: u32, right: u32)
        requires
            index < old(self).slots(),
        ensures
            final(self).same_but(old(self), index, (Node { right, ..old(self).nd(index) })),
    {
        self.store.buffer[index as usize].right = right;
        proof {
            assert(self.store.buffer@ =~= old(self).store.buffer@.update(
                index as int,
                (Node { right, ..old(self).nd(index) }),
            ));
        }
    }

    #[inline(always)]
    pub fn set_color(&mut self, index: u32, color: Color)
        requires
            index < old(self).slots(),
        ensures
            final(self).same_but(old(self), index, (Node { color, ..old(self).nd(index) })),
    {
        self.store.buffer[index as usize].color = color;
        proof {
            assert(self.store.buffer@ =~= old(self).store.buffer@.update(
                index as int,
                (Node { color, ..old(self).nd(index) }),
            ));
        }
    }

    /// Overwrites the whole slot.
    #[inline(always)]
    pub fn set_node(&mut self, index: u32, slot: Node<K, V>)
        requires
            index < old(self).slots(),
        ensures
            final(self).same_but(old(self), index, slot),
    {
        self.store.buffer[index as usize] = slot;
        proof {
            assert(self.store.buffer@ =~= old(self).store.buffer@.update(index as int, slot));
        }
    }

    /// Moves the entity out of a slot.
    #[inline(always)]
    pub fn take_entity(&mut self, index: u32) -> (entity: Option<Entity<K, V>>)
        requires
            index < old(self).slots(),
        ensures
            entity == old(self).nd(index).entity,
            final(self).same_but(old(self), index, (Node { entity: None, ..old(self).nd(index) })),
    {
        let entity = self.store.buffer[index as usize].entity.take();
        proof {
            assert(self.store.buffer@ =~= old(self).store.buffer@.update(
                index as int,
                (Node { entity: None, ..old(self).nd(index) }),
            ));
        }
        entity
    }

    /// Puts an entity into a slot.
    #[inline(always)]
    pub fn set_entity(&mut self, index: u32, entity: Option<Entity<K, V>>)
        requires
            index < old(self).slots(),
        ensures
            final(self).same_but(old(self), index, (Node { entity, ..old(self).nd(index) })),
    {
        self.store.buffer[index as usize].entity = entity;
        proof {
            assert(self.store.buffer@ =~= old(self).store.buffer@.update(
                index as int,
                (Node { entity, ..old(self).nd(index) }),
            ));
        }
    }

    #[inline(always)]
    pub fn is_black(&self, index: u32) -> (black: bool)
        requires
            index == crate::EMPTY_REF || index < self.slots(),
        ensures
            black == !self.red(index),
    {
        index == crate::EMPTY_REF || self.node(index).color == Color::Black
    }
}

} // verus!
