//! Tokens of Juan source text.

use vstd::prelude::*;
use crate::span::Span;

verus! {

/// The kind of a token.
#[derive(Debug, PartialEq, Eq, Structural, Clone, Copy)]
pub enum TokenKind {
    Fn,
    Module,
    Import,

    Dot,
    LParen,
    RParen,
    LBrace,
    RBrace,

    Identifier,
    Str,
    UnterminatedStr,
    Int,
    Float,

    Plus,
    Minus,
    Star,
    Slash,
    Percent,

    Newline,
    /// A character that starts no token.
    Unknown,
    Eof,
}

/// A token: its kind and the source text it covers.
#[derive(Debug, PartialEq, Eq, Structural, Clone, Copy)]
pub struct Token {
    pub kind: TokenKind,
    pub span: Span,
}

impl Token {
    /// A token of `kind` covering `span`.
    pub fn new(kind: TokenKind, span: Span) -> (t: Token)
        ensures
            t.kind == kind,
            t.span == span,
    {
        Token { kind, span }
    }
}

} // verus!
