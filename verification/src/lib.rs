//! The token-consuming core of a parser for a markup language: a cursor
//! over a token stream that builds a concrete syntax tree which keeps every
//! byte of the source, whatever the input.

pub mod group;
pub mod kind;
pub mod laws;
pub mod model;
pub mod node;
pub mod parser;
pub mod place;
pub mod tokens;
