//! An ordered map whose keys expire: a balanced tree that drops expired
//! entries where an operation passes them, and a sorted array with the same
//! contract.

pub mod exp;
pub mod iter;
pub mod list;
pub mod tree;
pub mod search;
pub mod array;
