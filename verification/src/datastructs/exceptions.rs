use vstd::prelude::*;
use super::literal::Literal;
use super::token::Token;

verus! {

/// An error found while reading the source text into tokens.
#[derive(Clone, Debug)]
pub struct LexError {
    pub line: usize,
    pub message: String,
}

/// An error found while parsing tokens, at the token where it was found.
#[derive(Clone, Debug)]
pub struct ParseError {
    pub token: Token,
    pub message: String,
}

/// What interrupts execution: a runtime error, or a `return` carrying its value.
#[derive(Clone, Debug)]
pub enum RuntimeException {
    Error { token: Token, message: String },
    Return { value: Literal },
}

} // verus!
