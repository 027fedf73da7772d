//! An ordered map without expiration: a balanced tree, and a sorted array
//! with the same contract.


pub mod list;
pub mod sort;
pub mod tree;
