//! A lexer for a small Lisp-like language: it cuts a source text into
//! parentheses, keywords, operators, numbers and symbols.

pub mod chars;
pub mod grammar;
pub mod lexer;
pub mod numeral;
pub mod segment;
pub mod text;

pub use lexer::{tokenize, Token, TokenError};
