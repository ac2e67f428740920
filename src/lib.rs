//! A Merkle-Sum Sparse Merkle Tree over 256-bit keys.
//!
//! Every leaf carries a 32-byte value and a 64-bit sum; every branch commits
//! to the digests of both children and to the sum of its subtree.

pub mod hash;
pub mod node;
pub mod tree;
pub mod inclusion;
