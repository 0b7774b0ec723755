//! An unbalanced binary search tree, as a map and as a set.
pub mod map;
pub mod node;
pub mod set;
