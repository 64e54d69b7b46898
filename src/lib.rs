pub mod json;
pub mod token;
pub mod parse;
pub mod laws;
