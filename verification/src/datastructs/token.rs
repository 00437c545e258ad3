use vstd::prelude::*;
use crate::datastructs::literal::Literal;

verus! {

/// The kinds of token of the language.
#[derive(Clone, Copy, Debug, PartialEq, Eq, Structural)]
pub enum TokenType {
    LeftParen,
    RightParen,
    LeftBrace,
    RightBrace,
    Comma,
    Dot,
    Minus,
    Plus,
    Semicolon,
    Slash,
    Star,
    Question,
    Colon,
    Bang,
    BangEqual,
    Equal,
    EqualEqual,
    Greater,
    GreaterEqual,
    Less,
    LessEqual,
    Identifier,
    String,
    Number,
    And,
    Class,
    Else,
    False,
    Fun,
    For,
    If,
    Nil,
    Or,
    Print,
    Return,
    Super,
    This,
    True,
    Var,
    While,
    Eof,
}

/// A token: its kind, the source text it was read from, the value of a
/// number or string literal, and the line it stands on.
#[derive(Clone, Debug)]
pub struct Token {
    pub token_type: TokenType,
    pub lexeme: String,
    pub literal: Option<Literal>,
    pub line: usize,
}

impl Token {
    pub fn new(token_type: TokenType, lexeme: String, literal: Option<Literal>, line: usize) -> (t: Token)
        ensures
            t == (Token { token_type, lexeme, literal, line }),
    {
        Token { token_type, lexeme, literal, line }
    }

    pub fn token_type(&self) -> (r: TokenType)
        ensures
            r == self.token_type,
    {
        self.token_type
    }

    pub fn lexeme(&self) -> (r: &str)
        ensures
            r@ == self.lexeme@,
    {
        self.lexeme.as_str()
    }

    pub fn literal(&self) -> (r: &Option<Literal>)
        ensures
            *r == self.literal,
    {
        &self.literal
    }

    pub fn line(&self) -> (r: usize)
        ensures
            r == self.line,
    {
        self.line
    }

    /// A copy of this token.
    pub fn duplicate(&self) -> (r: Token)
        ensures
            r == *self,
    {
        let literal = match &self.literal {
            Some(l) => Some(l.duplicate()),
            None => None,
        };
        Token { token_type: self.token_type, lexeme: self.lexeme.clone(), literal, line: self.line }
    }
}

} // verus!
