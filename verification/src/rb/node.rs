use vstd::prelude::*;

verus! {

#[derive(Clone, Copy, Debug, PartialEq, Eq, Structural)]
pub enum Color {
    Red,
    Black,
}

/// A key with the value stored under it.
pub struct Entity<K, V> {
    pub key: K,
    pub val: V,
}

impl<K, V> Entity<K, V> {
    #[inline]
    pub fn new(key: K, val: V) -> (e: Self)
        ensures
            e.key == key,
            e.val == val,
    {
        Self { key, val }
    }
}

/// One slot of the node table. A slot that is not part of the tree holds no
/// entity; its links are leftovers and mean nothing.
pub struct Node<K, V> {
    pub parent: u32,
    pub left: u32,
    pub right: u32,
    pub color: Color,
    pub entity: Option<Entity<K, V>>,
}

impl<K, V> Default for Node<K, V> {
    /// A slot that was never used.
    #[inline]
    fn default() -> (n: Self)
        ensures
            n.parent == 0,
            n.left == 0,
            n.right == 0,
            n.color == Color::Red,
            n.entity.is_none(),
    {
        Self { parent: 0, left: 0, right: 0, color: Color::Red, entity: None }
    }
}

impl<K, V> Node<K, V> {
    pub open spec fn is_black(&self) -> bool {
        self.color == Color::Black
    }

    pub open spec fn key(&self) -> K {
        self.entity.unwrap().key
    }

    pub open spec fn val(&self) -> V {
        self.entity.unwrap().val
    }
}

} // verus!
