//! Tokens: what the scanner hands to the parser.
use std::sync::Arc;
use vstd::prelude::*;


verus! {

/// A token of the source text.
#[derive(Debug)]
pub struct Token {
    pub t_type: Type,
}

/// The kinds of tokens, with what they carry.
#[derive(Debug)]
#[allow(inconsistent_fields)]
pub enum Type {
    LeftParen,
    RightParen,
    Quote,
    Integer { value: i64 },
    /// A floating-point number, as its IEEE-754 binary64 bit pattern.
    Float { value: u64 },
    /// A symbol and the comment that stood before it.
    Symbol { value: Arc<String>, comment: Option<Arc<String>> },
    Text { value: Arc<String> },
    /// Text that could not be scanned, with a message saying why.
    NonScanable { message: Arc<String> },
}

/// A token as a mathematical value: texts are sequences of characters.
pub enum Lexeme {
    LeftParen,
    RightParen,
    Quote,
    Integer(i64),
    Float(u64),
    Symbol(Seq<char>, Option<Seq<char>>),
    Text(Seq<char>),
    NonScanable(Seq<char>),
}

/// The characters of an optional shared text.
pub open spec fn opt_text(t: Option<Arc<String>>) -> Option<Seq<char>> {
    match t {
        Some(s) => Some(s@),
        None => None,
    }
}

impl View for Token {
    type V = Lexeme;

    open spec fn view(&self) -> Lexeme {
        match self.t_type {
            Type::LeftParen => Lexeme::LeftParen,
            Type::RightParen => Lexeme::RightParen,
            Type::Quote => Lexeme::Quote,
            Type::Integer { value } => Lexeme::Integer(value),
            Type::Float { value } => Lexeme::Float(value),
            Type::Symbol { value, comment } => Lexeme::Symbol(value@, opt_text(comment)),
            Type::Text { value } => Lexeme::Text(value@),
            Type::NonScanable { message } => Lexeme::NonScanable(message@),
        }
    }
}

/// The lexeme of an optional token.
pub open spec fn opt_lexeme(t: Option<Token>) -> Option<Lexeme> {
    match t {
        Some(t) => Some(t@),
        None => None,
    }
}

} // verus!
