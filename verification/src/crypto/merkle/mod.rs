pub mod errors;
pub mod merkle;
pub mod spec;
