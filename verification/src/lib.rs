//! Classic data-structure and algorithm exercises, with verified contracts:
//! array scans and sliding windows, singly linked lists, stack-based
//! problems, queue structures, breadth-first searches over implicit
//! graphs, and a small learning-progress notebook.

pub mod arrays;
pub mod bfs;
pub mod linked_lists;
pub mod notes;
pub mod trees;
pub mod queues;
pub mod stacks;
