pub mod common;
pub mod types;
