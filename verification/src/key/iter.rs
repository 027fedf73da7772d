use vstd::prelude::*;
use crate::{Expiration, ExpiredKey};
use crate::key::list::KeyExpList;

verus! {

/// A walk over the values of a `KeyExpList` in key order.
pub struct OrderedIterator<'a, K, E, V> {
    pub list: &'a KeyExpList<K, E, V>,
    pub index: usize,
}

impl<'a, K, E, V> OrderedIterator<'a, K, E, V> {
    #[inline]
    pub fn new(list: &'a KeyExpList<K, E, V>) -> (iter: Self)
        ensures
            iter.list == list,
            iter.index == 0,
    {
        Self { index: 0, list }
    }

    /// The values that are still to come.
    pub open spec fn rest(&self) -> Seq<V> {
        Seq::new(
            if self.index <= self.list.buffer@.len() {
                (self.list.buffer@.len() - self.index) as nat
            } else {
                0nat
            },
            |i: int| self.list.buffer@[self.index + i].val,
        )
    }

    /// The next value, if any is left.
    #[inline]
    pub fn next(&mut self) -> (item: Option<&'a V>)
        ensures
            final(self).list == old(self).list,
            match item {
                Some(val) => old(self).rest().len() > 0 && *val == old(self).rest()[0] && final(self).rest()
                    == old(self).rest().drop_first(),
                None => old(self).rest().len() == 0 && final(self).index == old(self).index,
            },
    {
        if self.index >= self.list.buffer.len() {
            return None;
        }
        let item = &self.list.buffer[self.index].val;
        self.index += 1;
        proof {
            assert(self.rest() =~= old(self).rest().drop_first());
        }
        Some(item)
    }

    /// The number of values of the list, as the lower and the upper bound.
    #[inline]
    pub fn size_hint(&self) -> (hint: (usize, Option<usize>))
        ensures
            hint.0 == self.list.buffer@.len(),
            hint.1 == Some(hint.0),
    {
        (self.list.buffer.len(), Some(self.list.buffer.len()))
    }
}

impl<K: ExpiredKey<E>, E: Expiration, V: Copy> KeyExpList<K, E, V> {
    /// A walk over the values in key order, the expired ones included.
    #[inline]
    pub fn ordered_values(&self) -> (iter: OrderedIterator<'_, K, E, V>)
        ensures
            iter.rest() == crate::key::exp::values(self.seq()),
    {
        let iter = OrderedIterator::new(self);
        proof {
            assert(iter.rest() =~= crate::key::exp::values(self.seq()));
        }
        iter
    }
}

} // verus!
