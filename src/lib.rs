//! A JSON tokenizer whose scanning rules are stated as spec functions and
//! proved against the executable scanner.

pub mod grammar;
pub mod json_value;
pub mod laws;
pub mod token;
pub mod tokenizer;

pub use json_value::JsonValue;
pub use token::{Token, TokenKind, TokenType, TokenView};
pub use tokenizer::Tokenizer;
