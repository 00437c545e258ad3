use vstd::prelude::*;
use crate::datastructs::token::Token;

verus! {

/// An error found while reading the source text into tokens, at the line where it was found.
#[derive(Clone, Debug)]
pub struct LexError {
    pub line: usize,
    pub message: String,
}

/// An error found while parsing, at the token where it was found.
#[derive(Clone, Debug)]
pub struct ParseError {
    pub token: Token,
    pub message: String,
}

/// An error found while running, at the token of the operation that failed.
#[derive(Clone, Debug)]
pub struct RuntimeError {
    pub token: Token,
    pub message: String,
}

} // verus!
