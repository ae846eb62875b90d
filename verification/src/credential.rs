pub mod credential;

pub use self::credential::{AttributeValue, Credential};
