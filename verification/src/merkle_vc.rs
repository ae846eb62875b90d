//! The Merkle vector commitment under its earlier path.

pub use crate::crypto::merkle::errors::TreeIndexError;
pub use crate::crypto::merkle::merkle::{MerkleAVC, PaddingScheme, TreeStorageType};
