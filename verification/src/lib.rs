//! An ordered, in-memory binary search tree over any totally-ordered
//! element type, supporting insertion, membership lookup, deletion with
//! full node-removal splicing, and an in-order traversal.

pub mod bst;
pub mod laws;
pub mod order;
pub mod word;
