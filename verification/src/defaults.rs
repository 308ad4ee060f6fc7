//! The stages of the formatter as they come.

pub mod parser;
