//! A formatter core for a Pascal-family language.
//!
//! The centre is the logical-line parser with its statement-wrapping engine. It takes the
//! tokens of a source text, rewrites single-statement bodies of `if`, `for` and `while`
//! into blocks where its configuration asks for it, by synthesizing `begin`, `end` and `;`
//! in place, and groups the resulting tokens into logical lines with nesting levels.
//!
//! - `token`, `chars`, `keywords`, `lexer`: tokens, and the lexer that makes them.
//! - `role`: the part a token plays in the structure of statements.
//! - `recognizer`: where constructs and their bodies lie.
//! - `wrap`: what the engine does, as a mathematical model; `engine`: the scanner that
//!   does it; `render`: from the plan of the engine to tokens.
//! - `wrap_laws`, `balance`, `placement`, `rewrap`: what holds of every plan.
//! - `lines`: the logical lines; `line_laws`: how they are cut and levelled.
//! - `defaults::parser`: the parser; `laws`: what holds of it as a whole.
//! - `traits`: the interfaces of the parser and of the rules.
//! - `formatted`, `rules`, `reconstruct`, `formatter`: the rules that rewrite token content,
//!   the reconstructor, and the pipeline from text to text.
//! - `inspect`: parsers with fixed switches, and listings of a parse as text.

pub mod balance;
pub mod chars;
pub mod defaults;
pub mod engine;
pub mod formatted;
pub mod formatter;
pub mod inspect;
pub mod keywords;
pub mod laws;
pub mod lexer;
pub mod line_laws;
pub mod lines;
pub mod placement;
pub mod prelude;
pub mod recognizer;
pub mod reconstruct;
pub mod render;
pub mod rewrap;
pub mod role;
pub mod rules;
pub mod token;
pub mod traits;
pub mod wrap;
pub mod wrap_laws;
