//! Merkle inclusion proofs over 32-byte hashes: building a tree from its
//! leaves, the proof of one leaf and its root, and checking a proof.

pub mod hash;
pub mod merkle;
pub mod util;
