//! A generational-handle arena, and an unbalanced binary search tree whose
//! nodes live in such an arena and refer to one another by handle.

pub mod arena;
pub mod bst;
pub mod node;
pub mod ordered_seq;
