//! The vector commitment trait under its earlier path.

pub use crate::crypto::abstract_primitives::vector_commitment::VectorCommitment;
