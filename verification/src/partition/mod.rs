pub mod parsers;
pub mod utils;
