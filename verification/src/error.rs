//! Places in source files, error messages, and the ways in which an assembly can stop.

use vstd::prelude::*;

verus! {

/// A stretch of a source file: the number under which the caller knows the file, and the
/// positions of its first character and of the one behind its last.
#[derive(Clone, Copy, Debug, PartialEq, Eq, Structural)]
pub struct Span {
    pub file: usize,
    pub start: usize,
    pub end: usize,
}

/// A message to the user about a stretch of a source file.
#[derive(Debug)]
pub struct Error {
    pub message: String,
    pub span: Span,
}

/// What an `Error` says.
pub struct ErrorView {
    pub message: Seq<char>,
    pub span: Span,
}

impl View for Error {
    type V = ErrorView;

    open spec fn view(&self) -> ErrorView {
        ErrorView { message: self.message@, span: self.span }
    }
}

impl Error {
    /// An error with the given message, reported at the given place.
    pub fn new_with_span(message: String, span: Span) -> (r: Error)
        ensures
            r@ == (ErrorView { message: message@, span }),
    {
        Error { message, span }
    }

    /// The same error once more.
    pub fn copy(&self) -> (r: Error)
        ensures
            r == *self,
    {
        Error { message: self.message.clone(), span: self.span }
    }
}

/// Why an assembly stopped before its end.
#[derive(Debug)]
pub enum Failure {
    /// The source or one of its expressions is wrong.
    Error(Error),
    /// The file `from` asks for the contents of the file that it calls `name`, which were not
    /// supplied.
    MissingFile { from: String, name: String },
    /// Files are nested in one another more deeply than the caller allows.
    TooDeep,
    /// An address, an output position, a bit width or the value of an expression leaves the
    /// range of the machine integer that holds it.
    Overflow,
}

/// What a `Failure` says.
pub enum FailureView {
    Error(ErrorView),
    MissingFile { from: Seq<char>, name: Seq<char> },
    TooDeep,
    Overflow,
}

impl View for Failure {
    type V = FailureView;

    open spec fn view(&self) -> FailureView {
        match *self {
            Failure::Error(error) => FailureView::Error(error@),
            Failure::MissingFile { from, name } => FailureView::MissingFile {
                from: from@,
                name: name@,
            },
            Failure::TooDeep => FailureView::TooDeep,
            Failure::Overflow => FailureView::Overflow,
        }
    }
}

/// A result whose failure is taken by what it says.
pub type Outcome<T> = Result<T, FailureView>;

/// `r`, with its failure taken by what it says.
pub open spec fn outcome<T>(r: Result<T, Failure>) -> Outcome<T> {
    match r {
        Ok(value) => Ok(value),
        Err(failure) => Err(failure@),
    }
}

/// The failure that reports `message` at `span`.
pub open spec fn error_at(message: Seq<char>, span: Span) -> FailureView {
    FailureView::Error(ErrorView { message, span })
}

/// Reports a fixed message at the given place.
pub fn fail(message: &str, span: Span) -> (r: Failure)
    ensures
        r@ == error_at(message@, span),
{
    Failure::Error(Error::new_with_span(message.to_owned(), span))
}

/// Reports a message that ends with a quoted name at the given place.
pub fn fail_quoting(prefix: &str, name: &str, span: Span) -> (r: Failure)
    ensures
        r@ == error_at(crate::text::quoted(prefix@, name@), span),
{
    Failure::Error(Error::new_with_span(crate::text::quote(prefix, name), span))
}

} // verus!
