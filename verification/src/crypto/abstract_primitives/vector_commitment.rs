//! Vector commitment schemes.

use vstd::prelude::*;

verus! {

/// A vector commitment commits to a vector of elements with a compact
/// commitment and later proves that an element stands at an index without
/// revealing the whole vector.
pub trait VectorCommitment {
    type Element;
    type PublicParams;
    type KeyMaterial;
    type Commitment;
    type Proof;

    /// The vectors that `commit` accepts.
    spec fn commit_accepts(vector: Seq<Self::Element>) -> bool;

    /// The indices and vectors that `open` accepts.
    spec fn open_accepts(index: int, vector: Seq<Self::Element>) -> bool;

    /// Public parameters and key material.
    fn keygen(security_param: usize) -> (Self::PublicParams, Self::KeyMaterial);

    /// A commitment that binds the whole vector.
    fn commit(vector: &[Self::Element], key: &Self::KeyMaterial) -> Self::Commitment
        requires
            Self::commit_accepts(vector@),
    ;

    /// A proof of the element at `index` of the committed vector.
    fn open(
        index: usize,
        commitment: &Self::Commitment,
        vector: &[Self::Element],
        key: &Self::KeyMaterial,
    ) -> Self::Proof
        requires
            Self::open_accepts(index as int, vector@),
    ;

    /// Whether `proof` shows that `value` stands at `index` of the vector
    /// that `commitment` binds.
    fn verify(
        proof: &Self::Proof,
        commitment: &Self::Commitment,
        value: &Self::Element,
        index: usize,
        params: &Self::PublicParams,
    ) -> bool;
}

} // verus!
