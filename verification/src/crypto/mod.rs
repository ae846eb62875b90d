pub mod abstract_primitives;
pub mod merkle;
