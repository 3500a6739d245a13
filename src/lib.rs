//! A masked-byte signature matcher.
//!
//! Byte signatures, each with a per-byte mask and a payload, are registered in a
//! decision tree keyed on successive bytes. A lookup walks the tree along a
//! buffer and returns the payload of the longest signature collected on the way.

pub mod laws;
pub mod node;
pub mod tree;

pub use tree::{SignatureDecisionTree, SignatureError};
