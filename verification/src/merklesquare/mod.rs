pub mod arena;

pub use crate::chronoforest::digest::{Digest, Peak};
pub use crate::hash::{Hash32, Hasher, Sha256Hasher};
pub use crate::chronoforest::forest::MerkleSquare;
