//! Lexical tokens and source positions for PXF (Proto eXpressive Format).
use vstd::prelude::*;

verus! {

#[derive(Debug, Clone, Copy, PartialEq, Eq, Hash, Structural)]
pub enum TokenKind {
    Eof,
    Illegal,
    Newline,
    Comment,
    Ident,
    String,
    Int,
    Float,
    Bool,
    Null,
    Bytes,
    Timestamp,
    Duration,
    LBrace,
    RBrace,
    LBracket,
    RBracket,
    /// `(` — used by the dataset column list and row tuples.
    LParen,
    /// `)`
    RParen,
    Equals,
    Colon,
    Comma,
    AtType,
    /// `@<ident>` for any non-reserved name; the value carries the bare name.
    AtDirective,
    /// `@dataset` — row-oriented bulk-data directive.
    AtDataset,
    /// `@proto` — embedded protobuf schema directive.
    AtProto,
}

/// The human-readable name of a token kind, as error messages use it.
pub open spec fn token_kind_name(k: TokenKind) -> Seq<char> {
    match k {
        TokenKind::Eof => "EOF"@,
        TokenKind::Illegal => "ILLEGAL"@,
        TokenKind::Newline => "newline"@,
        TokenKind::Comment => "comment"@,
        TokenKind::Ident => "identifier"@,
        TokenKind::String => "string"@,
        TokenKind::Int => "integer"@,
        TokenKind::Float => "float"@,
        TokenKind::Bool => "bool"@,
        TokenKind::Null => "null"@,
        TokenKind::Bytes => "bytes"@,
        TokenKind::Timestamp => "timestamp"@,
        TokenKind::Duration => "duration"@,
        TokenKind::LBrace => "{"@,
        TokenKind::RBrace => "}"@,
        TokenKind::LBracket => "["@,
        TokenKind::RBracket => "]"@,
        TokenKind::LParen => "("@,
        TokenKind::RParen => ")"@,
        TokenKind::Equals => "="@,
        TokenKind::Colon => ":"@,
        TokenKind::Comma => ","@,
        TokenKind::AtType => "@type"@,
        TokenKind::AtDirective => "@<directive>"@,
        TokenKind::AtDataset => "@dataset"@,
        TokenKind::AtProto => "@proto"@,
    }
}

impl TokenKind {
    pub fn name(self) -> (s: &'static str)
        ensures
            s@ == token_kind_name(self),
    {
        match self {
            TokenKind::Eof => "EOF",
            TokenKind::Illegal => "ILLEGAL",
            TokenKind::Newline => "newline",
            TokenKind::Comment => "comment",
            TokenKind::Ident => "identifier",
            TokenKind::String => "string",
            TokenKind::Int => "integer",
            TokenKind::Float => "float",
            TokenKind::Bool => "bool",
            TokenKind::Null => "null",
            TokenKind::Bytes => "bytes",
            TokenKind::Timestamp => "timestamp",
            TokenKind::Duration => "duration",
            TokenKind::LBrace => "{",
            TokenKind::RBrace => "}",
            TokenKind::LBracket => "[",
            TokenKind::RBracket => "]",
            TokenKind::LParen => "(",
            TokenKind::RParen => ")",
            TokenKind::Equals => "=",
            TokenKind::Colon => ":",
            TokenKind::Comma => ",",
            TokenKind::AtType => "@type",
            TokenKind::AtDirective => "@<directive>",
            TokenKind::AtDataset => "@dataset",
            TokenKind::AtProto => "@proto",
        }
    }
}

/// A source position: 1-based line and column, and the byte offset.
#[derive(Debug, Clone, Copy, PartialEq, Eq, Hash, Default, Structural)]
pub struct Position {
    pub line: usize,
    pub column: usize,
    pub offset: usize,
}

impl Position {
    pub fn new(line: usize, column: usize) -> (p: Position)
        ensures
            p == (Position { line, column, offset: 0 }),
    {
        Position { line, column, offset: 0 }
    }

    pub fn with_offset(line: usize, column: usize, offset: usize) -> (p: Position)
        ensures
            p == (Position { line, column, offset }),
    {
        Position { line, column, offset }
    }
}

/// A token: its kind, its text, and where it starts.
#[derive(Debug, Clone, PartialEq, Eq)]
pub struct Token {
    pub kind: TokenKind,
    pub value: String,
    pub pos: Position,
}

impl Token {
    pub fn new(kind: TokenKind, value: String, pos: Position) -> (t: Token)
        ensures
            t.kind == kind,
            t.value == value,
            t.pos == pos,
    {
        Token { kind, value, pos }
    }
}

} // verus!
