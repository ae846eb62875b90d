pub use crate::credential::credential::{AttributeValue, Credential};
pub use crate::crypto::abstract_primitives::vector_commitment::VectorCommitment;
pub use crate::crypto::merkle::merkle::{MerkleAVC, PaddingScheme, TreeStorageType};
