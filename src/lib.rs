//! A tokenizer and a recursive-descent parser for a JSON-like text format that tells
//! integers from floats, keeps whitespace as tokens, and has bare-word references.
pub mod lexer;
pub mod literal;
pub mod parser;
pub mod value;
