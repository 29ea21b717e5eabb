//! A binary hash tree (Merkle tree) over an ordered sequence of byte blocks,
//! with inclusion proofs and their verification.
pub mod digest;
pub mod laws;
pub mod tree;

pub use tree::{MerkleTree, Node};
