use vstd::prelude::*;

verus! {

/// The kinds of tokens produced by the scanner.
#[derive(Clone, Copy, Debug, PartialEq, Eq, Structural)]
pub enum TokenType {
    // Single-character tokens.
    LeftParen,
    RightParen,
    LeftBrace,
    RightBrace,
    Comma,
    Dot,
    Minus,
    Plus,
    Semicolon,
    Slash,
    Star,
    // One or two character tokens.
    Bang,
    BangEqual,
    Equal,
    EqualEqual,
    Greater,
    GreaterEqual,
    Less,
    LessEqual,
    // Literals.
    Identifier,
    Str,
    Number,
    // Keywords.
    And,
    Class,
    Else,
    False,
    Fun,
    For,
    If,
    Nil,
    Or,
    Print,
    Return,
    Super,
    This,
    True,
    Var,
    While,
    Eof,
}

/// A literal value attached to a token. Numbers are IEEE-754 binary64 values,
/// held as their bit pattern.
#[derive(Debug, PartialEq)]
pub enum Literal {
    String(String),
    Number(u64),
    Boolean(bool),
    Nil,
}

#[derive(Debug, PartialEq)]
pub struct Token {
    pub token_type: TokenType,
    pub lexeme: String,
    pub literal: Literal,
    pub line: usize,
}

/// The model of a literal, without the value of a number.
pub enum LiteralShape {
    String(Seq<char>),
    Number,
    Boolean(bool),
    Nil,
}

/// The model of a token, without the value of a number literal.
pub struct TokenShape {
    pub token_type: TokenType,
    pub lexeme: Seq<char>,
    pub literal: LiteralShape,
    pub line: nat,
}

impl Literal {
    pub open spec fn shape(&self) -> LiteralShape {
        match self {
            Literal::String(s) => LiteralShape::String(s@),
            Literal::Number(_) => LiteralShape::Number,
            Literal::Boolean(b) => LiteralShape::Boolean(*b),
            Literal::Nil => LiteralShape::Nil,
        }
    }
}

impl Token {
    pub open spec fn shape(&self) -> TokenShape {
        TokenShape {
            token_type: self.token_type,
            lexeme: self.lexeme@,
            literal: self.literal.shape(),
            line: self.line as nat,
        }
    }
}

impl Clone for Literal {
    fn clone(&self) -> (r: Self)
        ensures
            r == *self,
    {
        match self {
            Literal::String(s) => Literal::String(s.clone()),
            Literal::Number(n) => Literal::Number(*n),
            Literal::Boolean(b) => Literal::Boolean(*b),
            Literal::Nil => Literal::Nil,
        }
    }
}

impl Clone for Token {
    fn clone(&self) -> (r: Self)
        ensures
            r == *self,
    {
        Token {
            token_type: self.token_type,
            lexeme: self.lexeme.clone(),
            literal: self.literal.clone(),
            line: self.line,
        }
    }
}

} // verus!
