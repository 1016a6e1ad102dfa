//! The tokens of a source file.

use vstd::prelude::*;
use crate::error::Span;
use crate::text::text_is;

verus! {

/// What a token is.
#[derive(Debug)]
pub enum TokenKind {
    Identifier(String),
    Operator(String),
    /// The contents of a string literal.
    Text(String),
    /// A number as it is written. Only expressions read it.
    Number(String),
    LineBreak,
    /// What stands behind the last token of a file.
    End,
}

/// A token and the place where it stands in the source.
#[derive(Debug)]
pub struct Token {
    pub kind: TokenKind,
    pub span: Span,
}

impl Token {
    /// The name that the token is, if it is an identifier.
    pub open spec fn spec_identifier(self) -> Option<Seq<char>> {
        match self.kind {
            TokenKind::Identifier(name) => Some(name@),
            _ => None,
        }
    }

    /// The contents of the token, if it is a string literal.
    pub open spec fn spec_text(self) -> Option<Seq<char>> {
        match self.kind {
            TokenKind::Text(text) => Some(text@),
            _ => None,
        }
    }

    /// Whether the token is the given operator.
    pub open spec fn spec_is_operator(self, op: Seq<char>) -> bool {
        match self.kind {
            TokenKind::Operator(operator) => operator@ == op,
            _ => false,
        }
    }

    /// Whether the token is an identifier.
    pub fn is_identifier(&self) -> (r: bool)
        ensures
            r == self.spec_identifier() is Some,
    {
        match &self.kind {
            TokenKind::Identifier(_) => true,
            _ => false,
        }
    }

    /// The name that the token is, if it is an identifier.
    pub fn identifier(&self) -> (r: Option<&String>)
        ensures
            match r {
                Some(name) => self.spec_identifier() == Some(name@),
                None => self.spec_identifier() is None,
            },
    {
        match &self.kind {
            TokenKind::Identifier(name) => Some(name),
            _ => None,
        }
    }

    /// The contents of the token, if it is a string literal.
    pub fn string(&self) -> (r: Option<&String>)
        ensures
            match r {
                Some(text) => self.spec_text() == Some(text@),
                None => self.spec_text() is None,
            },
    {
        match &self.kind {
            TokenKind::Text(text) => Some(text),
            _ => None,
        }
    }

    /// Whether the token is the given operator.
    pub fn is_operator(&self, op: &str) -> (r: bool)
        ensures
            r == self.spec_is_operator(op@),
    {
        match &self.kind {
            TokenKind::Operator(operator) => text_is(operator, op),
            _ => false,
        }
    }

    /// Whether the token ends a line.
    pub fn is_linebreak(&self) -> (r: bool)
        ensures
            r == self.kind is LineBreak,
    {
        match &self.kind {
            TokenKind::LineBreak => true,
            _ => false,
        }
    }
}

} // verus!
