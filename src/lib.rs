//! An unbalanced binary search tree that counts repeated values.

pub mod order;

pub use order::TotalOrder;
pub mod tree;
pub mod inorder;

pub use tree::{BSTNode, BSTree};
