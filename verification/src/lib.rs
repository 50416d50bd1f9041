//! A height-balanced binary search tree (AVL tree) with consuming insertion,
//! membership search, in-order enumeration and a structural audit.
//!
//! Every operation carries a contract over a mathematical model of the tree:
//! its set of keys, its in-order key sequence, and its exact shape.

pub mod audit;
pub mod balance;
pub mod bench;
pub mod bounds;
pub mod contents;
pub mod insert;
pub mod laws;
pub mod node;
pub mod order;
pub mod query;
pub mod rotate;

pub use crate::bench::bench_insert;
pub use crate::node::AVLNode;
