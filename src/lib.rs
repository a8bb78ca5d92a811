//! A lexical scanner for a small C-like scripting language: it turns source
//! text into a sequence of classified tokens.
pub mod laws;
pub mod lexicon;
pub mod scanner;
pub mod token;

pub use scanner::Scanner;
pub use token::{Error, Keyword, NumberLiteral, Token, Type};
