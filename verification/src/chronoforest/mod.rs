pub mod digest;
pub mod forest;
