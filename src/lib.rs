//! Ordered containers: an unbalanced binary search tree map and set, and a
//! singly linked list.
pub mod binary_search_tree;
pub mod entry;
pub mod order;
pub mod linked_list;
