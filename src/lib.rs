//! Lexical analysis for a small C-like language.
pub mod common;
pub mod lexer;
pub mod token;
