//! A front end for a small expression language: a byte-level tokenizer and a
//! recursive-descent parser that builds a syntax tree, each stated against a
//! mathematical model and proved by Verus.
pub mod ast;
pub mod lexer;
pub mod location;
pub mod number;
pub mod parser;
pub mod token;
