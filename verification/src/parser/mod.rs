//! Reading source text: scanner, tokens and parser.
pub mod literal;
pub mod parser;
pub mod scanner;
pub mod token;
