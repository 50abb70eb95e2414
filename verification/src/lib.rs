//! Constant-auxiliary-space depth-first traversal over fixed-arity trees.
//!
//! A tree's nodes live in an arena and refer to each other by handle. A
//! traversal walks the tree with only two cursors and no stack: it
//! temporarily overwrites child slots with tagged back-links, and restores
//! them while ascending, so that an exhausted (or explicitly finished)
//! traversal leaves the tree exactly as it found it.

pub mod arbitrary;
pub mod binary_tree;
pub mod nary_tree;
pub mod order;
pub mod tagged_ptr;
