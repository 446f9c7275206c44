//! An indexed authenticated tree: a fixed-depth binary hash tree whose leaves
//! form a sorted singly-linked list, so that a verifier can check both
//! membership and non-membership of a 256-bit value against a single root.

pub mod hash256;
pub mod hash;
pub mod leaf;
pub mod memory_indexed_merkle_tree;
