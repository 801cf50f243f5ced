//! Search trees.
//!
//! The two balanced trees, `avl_tree` and `red_black_tree`, hold every key
//! once: `insert` of a key that the tree holds leaves the tree as it is, and
//! the keys ascend strictly from left to right. The plain tree of
//! `binary_search_tree` keeps every key that is put in, an equal one behind
//! those that are there.

pub mod avl_tree;
pub mod binary_search_tree;
pub mod red_black_tree;
