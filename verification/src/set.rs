//! An ordered set of values that carry their keys, kept as a sorted array.


pub mod list;
pub mod sort;
