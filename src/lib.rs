//! A small character-level lexer and recursive-descent parser for arithmetic
//! expressions, with source positions tracked through every step.
pub mod ast;
pub mod lexer;
pub mod matchers;
pub mod grammar;
