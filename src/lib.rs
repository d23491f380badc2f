//! A whitespace tokenizer for command-style input, with double-quoted spans
//! that may hold whitespace.

mod decode;
pub mod laws;
pub mod lexer;
pub mod scan;

pub use lexer::Lexer;
