pub mod parse;
pub mod write;
