//! Hash-based authenticated data structures for verifiable anonymous
//! credentials: Merkle vector commitments over attribute vectors and an
//! append-only chronological forest of perfect Merkle trees.

pub mod chronoforest;
pub mod credential;
pub mod crypto;
pub mod hash;
pub mod merkle_vc;
pub mod merklesquare;
pub mod prelude;
pub mod vector_commitment;

pub use crate::chronoforest::forest::MerkleSquare;
pub use crate::hash::{Hash32, Hasher, Sha256Hasher};
