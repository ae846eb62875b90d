//! Errors of index arithmetic in a Merkle tree.

use vstd::prelude::*;

verus! {

#[derive(Debug, PartialEq, Eq, Clone, Copy)]
pub enum TreeIndexError {
    RootHasNoParent,
    IndexOutOfBounds,
    LeafHasNoChildren,
}

impl TreeIndexError {
    /// A description of the error.
    pub fn to_string(&self) -> (s: String)
        ensures
            *self == TreeIndexError::RootHasNoParent ==> s@ == "Root node has no parent"@,
            *self == TreeIndexError::IndexOutOfBounds ==> s@ == "Index out of bounds"@,
            *self == TreeIndexError::LeafHasNoChildren ==> s@ == "Leaf node has no children"@,
    {
        match self {
            TreeIndexError::RootHasNoParent => "Root node has no parent".to_owned(),
            TreeIndexError::IndexOutOfBounds => "Index out of bounds".to_owned(),
            TreeIndexError::LeafHasNoChildren => "Leaf node has no children".to_owned(),
        }
    }
}

} // verus!
