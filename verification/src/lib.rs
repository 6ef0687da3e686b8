//! An indexed, reusable-storage arena (slot map) and a binary search tree
//! whose nodes live inside that arena, linked by integer keys instead of
//! pointers.

pub mod shape;
pub mod slot_map;
pub mod tree;
