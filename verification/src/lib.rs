//! A strict JSON reader in two stages: a scanner that turns text into a flat
//! sequence of tokens, and a recursive-descent parser that turns a token
//! sequence into a value tree.

pub mod error;
pub mod grammar;
pub mod json;
pub mod parse;
pub mod text;
pub mod tokenize;
