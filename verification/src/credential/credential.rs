//! Credentials: vectors of typed attributes.

use vstd::prelude::*;

verus! {

/// The value of one attribute.
#[derive(Clone, Debug, PartialEq)]
pub enum AttributeValue {
    /// Signed 16-bit integer
    Integer(i16),
    /// Unsigned 16-bit integer
    UnsignedInteger(u16),
    /// Owned string
    String(String),
}

/// A credential: a vector of attributes.
#[derive(Clone, Debug, PartialEq)]
pub struct Credential {
    attributes: Vec<AttributeValue>,
}

impl View for Credential {
    type V = Seq<AttributeValue>;

    closed spec fn view(&self) -> Seq<AttributeValue> {
        self.attributes@
    }
}

impl Credential {
    /// Create a credential with the given attributes.
    pub fn new(attributes: Vec<AttributeValue>) -> (cred: Self)
        ensures
            cred@ == attributes@,
    {
        Credential { attributes }
    }

    /// The attribute at `index`, if there is one.
    pub fn get(&self, index: usize) -> (attr: Option<&AttributeValue>)
        ensures
            index < self@.len() ==> attr == Some(&self@[index as int]),
            index >= self@.len() ==> attr is None,
    {
        if index < self.attributes.len() {
            Some(&self.attributes[index])
        } else {
            None
        }
    }

    /// The number of attributes.
    pub fn len(&self) -> (n: usize)
        ensures
            n == self@.len(),
    {
        self.attributes.len()
    }

    /// Whether the credential has no attributes.
    pub fn is_empty(&self) -> (empty: bool)
        ensures
            empty == (self@.len() == 0),
    {
        self.attributes.len() == 0
    }
}

} // verus!
