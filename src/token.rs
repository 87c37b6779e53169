use vstd::prelude::*;

verus! {

/// The kind of a lexical token. Number lexemes are kept as text, and string
/// bodies keep their escape sequences undecoded.
#[derive(Debug, PartialEq)]
pub enum TokenType {
    ObjectStart,
    ObjectEnd,
    ArrayStart,
    ArrayEnd,
    Comma,
    Colon,
    Integer(String),
    Float(String),
    String(String),
}

/// Mathematical model of a `TokenType`: payloads as character sequences.
pub enum TokenKind {
    ObjectStart,
    ObjectEnd,
    ArrayStart,
    ArrayEnd,
    Comma,
    Colon,
    Integer(Seq<char>),
    Float(Seq<char>),
    Str(Seq<char>),
}

impl View for TokenType {
    type V = TokenKind;

    open spec fn view(&self) -> TokenKind {
        match self {
            TokenType::ObjectStart => TokenKind::ObjectStart,
            TokenType::ObjectEnd => TokenKind::ObjectEnd,
            TokenType::ArrayStart => TokenKind::ArrayStart,
            TokenType::ArrayEnd => TokenKind::ArrayEnd,
            TokenType::Comma => TokenKind::Comma,
            TokenType::Colon => TokenKind::Colon,
            TokenType::Integer(text) => TokenKind::Integer(text@),
            TokenType::Float(text) => TokenKind::Float(text@),
            TokenType::String(body) => TokenKind::Str(body@),
        }
    }
}

/// Mathematical model of a `Token`: its kind and the 1-based column of its
/// first character.
pub struct TokenView {
    pub kind: TokenKind,
    pub position: int,
}

/// A token together with the column at which its first character was read.
#[derive(Debug, PartialEq)]
pub struct Token {
    token_type: TokenType,
    position: i32,
}

impl View for Token {
    type V = TokenView;

    closed spec fn view(&self) -> TokenView {
        TokenView { kind: self.token_type@, position: self.position as int }
    }
}

impl Token {
    pub fn new(token_type: TokenType, position: i32) -> (r: Token)
        ensures
            r@ == (TokenView { kind: token_type@, position: position as int }),
    {
        Token { token_type, position }
    }
}

} // verus!
