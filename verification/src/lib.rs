//! Lexical analysis for a small scripting language: a single linear pass that
//! turns source text into a flat sequence of positioned tokens.

pub mod laws;
pub mod model;
pub mod token;
pub mod tokenizer;

pub use token::Keyword;
pub use token::Token;
pub use token::TokenWithInfo;
pub use token::TokenizeError;
pub use tokenizer::tokenize;
