//! Ordered collections in tables of slots.
//!
//! `map` holds an ordered map, `key` an ordered map whose keys expire, `seg`
//! an index of intervals whose values expire, `set` an ordered set in an
//! array. The maps come as a red-black tree (`rb` is the tree itself) and as
//! a sorted array with the same contract. `sort` holds a sort that first
//! deals the items into bins by their keys, and `bin_key` the layout of the
//! bins.

use vstd::prelude::*;

pub mod bin_key;
pub mod key;
pub mod map;
pub mod order;
pub mod rb;
pub mod seg;
pub mod set;
pub mod sort;
pub mod sorted;

verus! {

/// The link value that stands for "no node".
pub const EMPTY_REF: u32 = u32::MAX;

/// A point in time, or the time at which something expires.
pub trait Expiration: Copy + Ord {
    /// The time that never comes.
    fn max_expiration() -> Self;
}

/// A key that expires.
pub trait ExpiredKey<E: Expiration>: Copy + Ord {
    /// The time from which on the key is expired.
    fn expiration(&self) -> E;
}

/// A value that expires.
pub trait ExpiredVal<E: Expiration>: Copy {
    /// The time from which on the value is expired.
    fn expiration(&self) -> E;
}

/// The time that `expiration` gives for `key`.
pub open spec fn key_time<K: ExpiredKey<E>, E: Expiration>(key: K) -> E {
    choose|e: E| call_ensures(K::expiration, (&key,), e)
}

/// A key has one expiration: `expiration` gives the same time whenever it is
/// asked.
pub open spec fn keys_timed<K: ExpiredKey<E>, E: Expiration>() -> bool {
    forall|key: K, a: E, b: E|
        #[trigger] call_ensures(K::expiration, (&key,), a) && #[trigger] call_ensures(K::expiration, (&key,), b)
            ==> a == b
}

/// The time that `expiration` gives for `val`.
pub open spec fn val_time<V: ExpiredVal<E>, E: Expiration>(val: V) -> E {
    choose|e: E| call_ensures(V::expiration, (&val,), e)
}

/// A value has one expiration.
pub open spec fn vals_timed<V: ExpiredVal<E>, E: Expiration>() -> bool {
    forall|val: V, a: E, b: E|
        #[trigger] call_ensures(V::expiration, (&val,), a) && #[trigger] call_ensures(V::expiration, (&val,), b)
            ==> a == b
}

/// The expiration of `key`.
#[inline(always)]
pub fn expiration_of_key<K: ExpiredKey<E>, E: Expiration>(key: &K) -> (e: E)
    requires
        keys_timed::<K, E>(),
    ensures
        e == key_time(*key),
        call_ensures(K::expiration, (key,), e),
{
    let e = key.expiration();
    proof {
        assert(call_ensures(K::expiration, (key,), e));
    }
    e
}

/// The expiration of `val`.
#[inline(always)]
pub fn expiration_of_val<V: ExpiredVal<E>, E: Expiration>(val: &V) -> (e: E)
    requires
        vals_timed::<V, E>(),
    ensures
        e == val_time(*val),
        call_ensures(V::expiration, (val,), e),
{
    let e = val.expiration();
    proof {
        assert(call_ensures(V::expiration, (val,), e));
    }
    e
}

impl Expiration for u8 {
    #[inline]
    fn max_expiration() -> (max: Self)
        ensures
            max == u8::MAX,
    {
        u8::MAX
    }
}

impl Expiration for i8 {
    #[inline]
    fn max_expiration() -> (max: Self)
        ensures
            max == i8::MAX,
    {
        i8::MAX
    }
}

impl Expiration for u16 {
    #[inline]
    fn max_expiration() -> (max: Self)
        ensures
            max == u16::MAX,
    {
        u16::MAX
    }
}

impl Expiration for i16 {
    #[inline]
    fn max_expiration() -> (max: Self)
        ensures
            max == i16::MAX,
    {
        i16::MAX
    }
}

impl Expiration for u32 {
    #[inline]
    fn max_expiration() -> (max: Self)
        ensures
            max == u32::MAX,
    {
        u32::MAX
    }
}

impl Expiration for i32 {
    #[inline]
    fn max_expiration() -> (max: Self)
        ensures
            max == i32::MAX,
    {
        i32::MAX
    }
}

impl Expiration for u64 {
    #[inline]
    fn max_expiration() -> (max: Self)
        ensures
            max == u64::MAX,
    {
        u64::MAX
    }
}

impl Expiration for i64 {
    #[inline]
    fn max_expiration() -> (max: Self)
        ensures
            max == i64::MAX,
    {
        i64::MAX
    }
}

impl Expiration for usize {
    #[inline]
    fn max_expiration() -> (max: Self)
        ensures
            max == usize::MAX,
    {
        usize::MAX
    }
}

} // verus!
