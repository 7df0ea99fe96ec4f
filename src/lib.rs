//! An unbalanced binary search tree of `i32` keys: insertion, membership,
//! the three depth-first traversals as comma-terminated text, and a builder
//! from a comma-separated list of numerals.

pub mod laws;
pub mod node;
pub mod parse;
pub mod text;
pub mod traversal;
