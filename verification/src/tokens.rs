use vstd::prelude::*;

verus! {

/// The literal value that a token or an expression carries.
///
/// A number is kept as the text of its literal in the source: the library
/// never computes with Lox numbers itself.
#[derive(Debug)]
pub enum Literal {
    Number(String),
    String(String),
    Bool(bool),
    Nil,
}

impl Clone for Literal {
    fn clone(&self) -> (res: Self)
        ensures
            res == *self,
    {
        match self {
            Literal::Number(s) => Literal::Number(s.clone()),
            Literal::String(s) => Literal::String(s.clone()),
            Literal::Bool(b) => Literal::Bool(*b),
            Literal::Nil => Literal::Nil,
        }
    }
}

/// The kinds of tokens in Lox.
#[derive(Clone, Copy, Debug, PartialEq, Eq, Hash, Structural)]
pub enum TokenType {
    // Single-character tokens
    LeftParen,
    RightParen,
    LeftBrace,
    RightBrace,
    Comma,
    Dot,
    Minus,
    Plus,
    Semicolon,
    Star,
    Slash,
    // One or two character tokens
    Bang,
    BangEqual,
    Equal,
    EqualEqual,
    Less,
    LessEqual,
    Greater,
    GreaterEqual,
    // Literals
    Number,
    String,
    UnterminatedString,
    Identifier,
    // Keywords
    And,
    Class,
    Else,
    False,
    Fun,
    For,
    If,
    Nil,
    Or,
    Print,
    Return,
    Super,
    This,
    True,
    Var,
    While,
    // A run of line breaks (used for line numbering only)
    NewLine,
    Error,
    EOF,
}

/// A Lox token.
#[derive(Debug)]
pub struct Token {
    /// The type of token.
    pub token_type: TokenType,
    /// The lexeme representing the token in the source.
    pub lexeme: String,
    /// The literal value of the token, if it has one.
    pub literal: Option<Literal>,
    /// The line in the source on which the token occurs.
    pub line: usize,
    /// The identity of this token; two tokens are the same token when their ids agree.
    pub id: usize,
}

impl Token {
    /// Create a new token with the given identity.
    pub fn new(
        token_type: TokenType,
        lexeme: String,
        literal: Option<Literal>,
        line: usize,
        id: usize,
    ) -> (res: Self)
        ensures
            res.token_type == token_type,
            res.lexeme == lexeme,
            res.literal == literal,
            res.line == line,
            res.id == id,
    {
        Token { token_type, lexeme, literal, line, id }
    }

    /// Whether two tokens are the same token (they share an identity).
    pub fn same_token(&self, other: &Token) -> (res: bool)
        ensures
            res == (self.id == other.id),
    {
        self.id == other.id
    }
}

/// Two tokens are equal when they are the same token: when their identities agree.
impl PartialEq for Token {
    fn eq(&self, other: &Token) -> (res: bool) {
        self.id == other.id
    }
}

impl vstd::std_specs::cmp::PartialEqSpecImpl for Token {
    open spec fn obeys_eq_spec() -> bool {
        true
    }

    open spec fn eq_spec(&self, other: &Token) -> bool {
        self.id == other.id
    }
}

impl Clone for Token {
    fn clone(&self) -> (res: Self)
        ensures
            res == *self,
    {
        let literal = match &self.literal {
            Some(l) => Some(l.clone()),
            None => None,
        };
        Token {
            token_type: self.token_type,
            lexeme: self.lexeme.clone(),
            literal,
            line: self.line,
            id: self.id,
        }
    }
}

} // verus!
