//! Verified in-memory containers: a doubly linked list, a FIFO queue and a
//! binary search tree.

pub mod binary_search_tree;
pub mod linked_list;
pub mod queue;
