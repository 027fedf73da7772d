//! An index of intervals over a bounded range of coordinates. The range is
//! cut into at most 32 buckets, the leaves of a complete binary tree of 63
//! nodes; an interval is filed under the nodes whose leaves tile it, and a
//! query looks into the nodes that lie above its leaves.

pub mod bit;
pub mod heap;
pub mod layout;
pub mod chunk;
pub mod entity;
pub mod exp;
pub mod tree;
pub mod scan;
