//! The balanced search tree that the ordered collections are built on.
//!
//! Nodes live in one growable table and refer to each other by index. A
//! stack of unused indices recycles the slots of deleted nodes. The tree is a
//! red-black tree; besides the links it keeps, as ghost state, the sequence of
//! node indices in key order and for every node the interval of that sequence
//! that its subtree covers, so that every structural fact is local to a node
//! and its neighbours.

pub mod node;
pub mod pool;
pub mod raise;
pub mod shape;
pub mod links;
pub mod rotate;
pub mod insert;
pub mod grow;
pub mod rebalance;
pub mod unlink;
pub mod delete;
pub mod search;
pub mod walk;
pub mod frame;
pub mod rules;
