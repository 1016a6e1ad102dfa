//! A reading position in a source file.

use vstd::prelude::*;
use crate::error::{error_at, fail, Failure, FailureView, Outcome, Span};
use crate::expr::Expression;
use crate::source::{ParsedExpression, Source};
use crate::token::Token;

verus! {

/// The identifier at a position, the place where it stands, and the position behind it.
pub open spec fn identifier_read(source: Source, pos: int) -> Outcome<(Seq<char>, Span, int)> {
    match source.token_at(pos).spec_identifier() {
        Some(name) => Ok((name, source.token_at(pos).span, pos + 1)),
        None => Err(error_at("expected identifier"@, source.token_at(pos).span)),
    }
}

/// The string literal at a position, and the position behind it.
pub open spec fn string_read(source: Source, pos: int) -> Outcome<(Seq<char>, int)> {
    match source.token_at(pos).spec_text() {
        Some(text) => Ok((text, pos + 1)),
        None => Err(error_at("expected string"@, source.token_at(pos).span)),
    }
}

/// The position behind an operator that has to stand at a position.
pub open spec fn operator_read(source: Source, pos: int, op: Seq<char>) -> Outcome<int> {
    if source.token_at(pos).spec_is_operator(op) {
        Ok(pos + 1)
    } else {
        Err(error_at(crate::text::quoted("expected `"@, op), source.token_at(pos).span))
    }
}

/// The start of the next line that holds anything, where the line ends at a position.
pub open spec fn line_end_read(source: Source, pos: int) -> Outcome<int> {
    if pos >= source.tokens@.len() {
        Ok(pos)
    } else if source.token_at(pos).kind is LineBreak {
        Ok(source.after_linebreaks(pos))
    } else {
        Err(error_at("expected line break"@, source.token_at(pos).span))
    }
}

/// The expression at a position, and the position behind it.
pub open spec fn expression_read(source: Source, pos: int) -> Outcome<(Expression, int)> {
    match source.expression_at(pos) {
        Ok(parsed) => Ok(parsed),
        Err(error) => Err(FailureView::Error(error)),
    }
}

/// The position at which the reading of a file starts.
pub open spec fn file_start(source: Source) -> int {
    source.after_linebreaks(0)
}

/// A reading position in a source file.
pub struct Parser<'a> {
    pub source: &'a Source,
    pub index: usize,
}

impl<'a> Parser<'a> {
    /// The position is in the file or right behind its last token.
    pub open spec fn wf(self) -> bool {
        self.source.wf() && self.index <= self.source.tokens@.len()
    }

    /// The parser stands at position `pos` of the file that it stood in before.
    pub open spec fn moved_to(self, before: Parser<'a>, pos: int) -> bool {
        self.wf() && self.source == before.source && self.index == pos
    }

    /// A parser at the first line of a file that holds anything.
    pub fn new(source: &'a Source) -> (r: Parser<'a>)
        requires
            source.wf(),
        ensures
            r.wf(),
            r.source == source,
            r.index == file_start(*source),
    {
        let mut parser = Parser { source, index: 0 };
        parser.skip_linebreaks();
        parser
    }

    /// The name of the file.
    pub fn get_filename(&self) -> (r: &'a String)
        ensures
            r@ == self.source.filename@,
    {
        &self.source.filename
    }

    /// Whether the whole file is read.
    pub fn is_over(&self) -> (r: bool)
        ensures
            r == (self.index >= self.source.tokens@.len()),
    {
        self.index >= self.source.tokens.len()
    }

    /// The token at the position.
    pub fn current(&self) -> (r: &'a Token)
        ensures
            *r == self.source.token_at(self.index as int),
    {
        self.next(0)
    }

    /// The token `amount` tokens further on.
    pub fn next(&self, amount: usize) -> (r: &'a Token)
        ensures
            *r == self.source.token_at(self.index + amount),
    {
        if self.index < self.source.tokens.len() && amount < self.source.tokens.len() - self.index {
            &self.source.tokens[self.index + amount]
        } else {
            &self.source.end
        }
    }

    /// A second parser at the same position.
    pub fn clone_from_current(&self) -> (r: Parser<'a>)
        ensures
            r == *self,
    {
        Parser { source: self.source, index: self.index }
    }

    /// Goes on to the next token.
    pub fn advance(&mut self)
        requires
            old(self).wf(),
            old(self).index < old(self).source.tokens@.len(),
        ensures
            final(self).moved_to(*old(self), old(self).index + 1),
    {
        self.index = self.index + 1;
    }

    fn skip_linebreaks(&mut self)
        requires
            old(self).wf(),
        ensures
            final(self).moved_to(
                *old(self),
                old(self).source.after_linebreaks(old(self).index as int),
            ),
            final(self).index >= old(self).index,
    {
        while self.index < self.source.tokens.len() && self.current().is_linebreak()
            invariant
                self.wf(),
                self.source == old(self).source,
                self.index >= old(self).index,
                self.source.after_linebreaks(self.index as int) == self.source.after_linebreaks(
                    old(self).index as int,
                ),
            decreases self.source.tokens@.len() - self.index,
        {
            self.index = self.index + 1;
        }
    }

    /// Goes past an operator, if it is the given one.
    pub fn match_operator(&mut self, op: &str) -> (r: bool)
        requires
            old(self).wf(),
        ensures
            r == old(self).source.token_at(old(self).index as int).spec_is_operator(op@),
            r ==> old(self).index < old(self).source.tokens@.len() && final(self).moved_to(
                *old(self),
                old(self).index + 1,
            ),
            !r ==> *final(self) == *old(self),
    {
        if self.current().is_operator(op) {
            self.advance();
            true
        } else {
            false
        }
    }

    /// Goes past the given operator.
    pub fn expect_operator(&mut self, op: &str) -> (r: Result<(), Failure>)
        requires
            old(self).wf(),
        ensures
            match operator_read(*old(self).source, old(self).index as int, op@) {
                Ok(pos) => r is Ok && final(self).moved_to(*old(self), pos),
                Err(failure) => r is Err && r->Err_0@ == failure && *final(self) == *old(self),
            },
    {
        if self.match_operator(op) {
            Ok(())
        } else {
            Err(crate::error::fail_quoting("expected `", op, self.current().span))
        }
    }

    /// Goes past an identifier and tells its name and its place.
    pub fn expect_identifier(&mut self) -> (r: Result<(String, Span), Failure>)
        requires
            old(self).wf(),
        ensures
            match identifier_read(*old(self).source, old(self).index as int) {
                Ok((name, span, pos)) => r is Ok && r->Ok_0.0@ == name && r->Ok_0.1 == span
                    && final(self).moved_to(*old(self), pos),
                Err(failure) => r is Err && r->Err_0@ == failure && *final(self) == *old(self),
            },
    {
        let token = self.current();
        match token.identifier() {
            Some(name) => {
                self.advance();
                Ok((name.clone(), token.span))
            },
            None => Err(fail("expected identifier", token.span)),
        }
    }

    /// Goes past a string literal and tells its contents.
    pub fn expect_string(&mut self) -> (r: Result<String, Failure>)
        requires
            old(self).wf(),
        ensures
            match string_read(*old(self).source, old(self).index as int) {
                Ok((text, pos)) => r is Ok && r->Ok_0@ == text && final(self).moved_to(
                    *old(self),
                    pos,
                ),
                Err(failure) => r is Err && r->Err_0@ == failure && *final(self) == *old(self),
            },
    {
        let token = self.current();
        match token.string() {
            Some(text) => {
                self.advance();
                Ok(text.clone())
            },
            None => Err(fail("expected string", token.span)),
        }
    }

    /// Goes past the end of the line, and past the empty lines that follow.
    pub fn expect_linebreak_or_end(&mut self) -> (r: Result<(), Failure>)
        requires
            old(self).wf(),
        ensures
            match line_end_read(*old(self).source, old(self).index as int) {
                Ok(pos) => r is Ok && final(self).moved_to(*old(self), pos) && (old(self).index
                    < old(self).source.tokens@.len() ==> pos > old(self).index),
                Err(failure) => r is Err && r->Err_0@ == failure && *final(self) == *old(self),
            },
    {
        if self.is_over() {
            Ok(())
        } else if self.current().is_linebreak() {
            self.advance();
            self.skip_linebreaks();
            Ok(())
        } else {
            Err(fail("expected line break", self.current().span))
        }
    }

    /// Goes past an expression and tells it.
    pub fn expect_expression(&mut self) -> (r: Result<Expression, Failure>)
        requires
            old(self).wf(),
        ensures
            match expression_read(*old(self).source, old(self).index as int) {
                Ok((expr, pos)) => r is Ok && r->Ok_0 == expr && final(self).moved_to(
                    *old(self),
                    pos,
                ) && pos >= old(self).index,
                Err(failure) => r is Err && r->Err_0@ == failure && *final(self) == *old(self),
            },
    {
        match &self.source.expressions[self.index] {
            ParsedExpression::Parsed { expr, length } => {
                self.index = self.index + *length;
                Ok(expr.copy())
            },
            ParsedExpression::Failed(error) => Err(Failure::Error(error.copy())),
        }
    }
}

} // verus!
