//! An incremental Merkle tree: a content-addressed binary hash tree that
//! supports append-only growth, amortized rebuilding, and generation and
//! verification of inclusion proofs.

pub mod digest;
pub mod hash;
pub mod node;
pub mod tree;
