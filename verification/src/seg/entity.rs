use vstd::prelude::*;

verus! {

/// A value of the index with the set of the nodes under which it is filed.
pub struct Entity<V> {
    pub val: V,
    pub mask: u64,
}

impl<V> Entity<V> {
    #[inline]
    pub fn new(val: V, mask: u64) -> (e: Self)
        ensures
            e.val == val,
            e.mask == mask,
    {
        Self { val, mask }
    }
}

} // verus!
