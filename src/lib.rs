//! A red-black tree over `i32` keys, with insertion, removal and a
//! validity check, proved to keep the red-black invariants.
//!
//! Nodes have no parent links. The path from the root to the node being
//! worked on is the chain of recursive calls that reached it: each call
//! descends one level, and on its way back repairs its own subtree, so a
//! fix-up reaches parent and grandparent by returning to them.
pub mod laws;
pub mod node;
pub mod pos;
pub mod rb_tree;
pub mod repair;

pub use node::{Color, Link, RbTreeNode};
pub use pos::Pos;
pub use rb_tree::{RbTree, Violation};
