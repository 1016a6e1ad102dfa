//! Source files as the assembler gets them: cut into tokens, with the expressions that can be
//! read from each of them.

use vstd::prelude::*;
use crate::error::{Error, ErrorView};
use crate::expr::Expression;
use crate::token::Token;

verus! {

/// What reading an expression from some token on gives.
#[derive(Debug)]
pub enum ParsedExpression {
    /// An expression and the number of tokens that it takes up.
    Parsed { expr: Expression, length: usize },
    /// There is no expression.
    Failed(Error),
}

/// A source file.
#[derive(Debug)]
pub struct Source {
    pub filename: String,
    pub tokens: Vec<Token>,
    /// Stands for what is behind the last token.
    pub end: Token,
    /// What reading an expression gives from each token on, and from behind the last one.
    pub expressions: Vec<ParsedExpression>,
}

impl Source {
    /// There is an answer for each position, no expression reaches behind the last token, and
    /// the end is marked as such.
    pub open spec fn wf(self) -> bool {
        &&& self.end.kind is End
        &&& self.expressions@.len() == self.tokens@.len() + 1
        &&& self.tokens@.len() < usize::MAX
        &&& forall|i: int|
            0 <= i < self.expressions@.len() ==> (#[trigger] self.expressions@[i] matches
                ParsedExpression::Parsed { length, .. } ==> i + length <= self.tokens@.len())
    }

    /// The token at a position, or what stands for the end of the file.
    pub open spec fn token_at(self, pos: int) -> Token {
        if 0 <= pos < self.tokens@.len() {
            self.tokens@[pos]
        } else {
            self.end
        }
    }

    /// The expression that starts at a position, and the position behind it.
    pub open spec fn expression_at(self, pos: int) -> Result<(Expression, int), ErrorView> {
        match self.expressions@[pos] {
            ParsedExpression::Parsed { expr, length } => Ok((expr, pos + length)),
            ParsedExpression::Failed(error) => Err(error@),
        }
    }

    /// The first position from `pos` on that holds no line break.
    pub open spec fn after_linebreaks(self, pos: int) -> int
        decreases self.tokens@.len() - pos,
    {
        if pos < self.tokens@.len() && self.token_at(pos).kind is LineBreak {
            self.after_linebreaks(pos + 1)
        } else {
            pos
        }
    }

    /// Whether the file can be assembled: see `wf`.
    pub fn is_well_formed(&self) -> (r: bool)
        ensures
            r == self.wf(),
    {
        match &self.end.kind {
            crate::token::TokenKind::End => {},
            _ => {
                return false;
            },
        }
        let count: usize = self.tokens.len();
        if count == usize::MAX || self.expressions.len() != count + 1 {
            return false;
        }
        let mut i: usize = 0;
        while i < self.expressions.len()
            invariant
                i <= self.expressions@.len(),
                count == self.tokens@.len(),
                self.expressions@.len() == count + 1,
                forall|k: int|
                    0 <= k < i ==> (#[trigger] self.expressions@[k] matches
                        ParsedExpression::Parsed { length, .. } ==> k + length <= count),
            decreases self.expressions@.len() - i,
        {
            match &self.expressions[i] {
                ParsedExpression::Parsed { length, .. } => {
                    if *length > count - i {
                        assert(!(self.expressions@[i as int] matches
                            ParsedExpression::Parsed { length, .. } ==> i + length <= count));
                        return false;
                    }
                },
                ParsedExpression::Failed(_) => {},
            }
            i = i + 1;
        }
        true
    }
}

/// The contents of a file that another file asks for.
#[derive(Debug)]
pub struct IncludedFile {
    /// The name of the asking file.
    pub from: String,
    /// The name that the asking file gives for the file.
    pub name: String,
    pub source: Source,
}

/// The files that other files may ask for, and how deeply files may be nested.
#[derive(Debug)]
pub struct IncludedFiles {
    pub files: Vec<IncludedFile>,
    pub max_depth: usize,
}

impl IncludedFiles {
    /// Every file can be assembled.
    pub open spec fn wf(self) -> bool {
        forall|i: int| 0 <= i < self.files@.len() ==> (#[trigger] self.files@[i]).source.wf()
    }

    /// The first file, from number `i` on, that answers to `name` when `from` asks for it.
    pub open spec fn found(self, from: Seq<char>, name: Seq<char>, i: int) -> Option<Source>
        decreases self.files@.len() - i,
    {
        if 0 <= i < self.files@.len() {
            if self.files@[i].from@ == from && self.files@[i].name@ == name {
                Some(self.files@[i].source)
            } else {
                self.found(from, name, i + 1)
            }
        } else {
            None
        }
    }

    /// Whether the files can be assembled: see `wf`.
    pub fn is_well_formed(&self) -> (r: bool)
        ensures
            r == self.wf(),
    {
        let mut i: usize = 0;
        while i < self.files.len()
            invariant
                i <= self.files@.len(),
                forall|k: int| 0 <= k < i ==> (#[trigger] self.files@[k]).source.wf(),
            decreases self.files@.len() - i,
        {
            if !self.files[i].source.is_well_formed() {
                return false;
            }
            i = i + 1;
        }
        true
    }

    /// The file that answers to `name` when `from` asks for it.
    pub fn find(&self, from: &String, name: &String) -> (r: Option<&Source>)
        requires
            self.wf(),
        ensures
            match r {
                Some(source) => self.found(from@, name@, 0) == Some(*source) && source.wf(),
                None => self.found(from@, name@, 0) is None,
            },
    {
        let mut i: usize = 0;
        while i < self.files.len()
            invariant
                i <= self.files@.len(),
                self.wf(),
                self.found(from@, name@, 0) == self.found(from@, name@, i as int),
            decreases self.files@.len() - i,
        {
            if self.files[i].from == *from && self.files[i].name == *name {
                return Some(&self.files[i].source);
            }
            i = i + 1;
        }
        None
    }
}

} // verus!
