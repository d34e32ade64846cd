//! Self-balancing binary search trees, AVL and red-black, over keys that are
//! ordered by an integer rank, together with a small graph-description
//! builder for drawing them.

pub mod key;
pub mod text;
pub mod order;
pub mod dot;
pub mod avl;
pub mod rbt;
