//! The rules that rewrite the content of tokens.

pub mod format_identifiers;
