//! What can go wrong while a command script is parsed.

use crate::span::Span;
use std::ops::Range;
use vstd::prelude::*;

pub use crate::parse::emit::EmitDiagnostic;

verus! {

/// How a line broke the indentation rules.
#[derive(Debug, Clone, Copy, PartialEq, Eq, Structural)]
pub enum IndentationErrorKind {
    /// The indentation holds whitespace other than spaces.
    MixedWhitespace,
    /// The line is indented less than its block, or more with no command to
    /// continue.
    InvalidIndentation,
}

/// A line whose indentation cannot be read; `span` is the line.
#[derive(Debug, Clone, Copy, PartialEq, Eq)]
pub struct IndentationError {
    pub span: Span,
    pub kind: IndentationErrorKind,
}

/// A word that is none of the literals allowed at its place; the nodes in
/// `valid_literals` are the candidates.
#[derive(Debug, PartialEq, Eq)]
pub struct InvalidLiteralError {
    pub span: Span,
    pub valid_literals: Range<usize>,
}

/// Input after the last argument that the schema allows.
#[derive(Debug, Clone, Copy, PartialEq, Eq)]
pub struct TooManyArgumentsError {
    pub span: Span,
}

/// A word that is neither `true` nor `false`.
#[derive(Debug, Clone, Copy, PartialEq, Eq)]
pub struct ParseBoolError {
    pub span: Span,
}

/// A word that is no double-precision number.
#[derive(Debug, Clone, Copy, PartialEq, Eq)]
pub struct ParseDoubleError {
    pub span: Span,
}

/// A word that is no single-precision number.
#[derive(Debug, Clone, Copy, PartialEq, Eq)]
pub struct ParseFloatError {
    pub span: Span,
}

/// A word that is no 32-bit integer.
#[derive(Debug, Clone, Copy, PartialEq, Eq)]
pub struct ParseIntegerError {
    pub span: Span,
}

/// A quoted string without its closing quote.
#[derive(Debug, Clone, Copy, PartialEq, Eq)]
pub struct UnterminatedStringError {
    pub span: Span,
}

/// An unquoted string with a character that only a quoted string may hold.
#[derive(Debug, Clone, Copy, PartialEq, Eq)]
pub struct InvalidStringCharsError {
    pub span: Span,
}

/// A quoted string where a single word is expected.
#[derive(Debug, Clone, Copy, PartialEq, Eq)]
pub struct QuotedSingleWordError {
    pub span: Span,
}

/// A coordinate tuple that the end of the input cut short.
#[derive(Debug, Clone, Copy, PartialEq, Eq)]
pub struct IncompleteLocalCoordinatesError {
    pub span: Span,
}

/// A local coordinate without its `^`.
#[derive(Debug, Clone, Copy, PartialEq, Eq)]
pub struct ExpectedLocalCoordinateError {
    pub span: Span,
}

/// A `~` among local coordinates, or a `^` among world coordinates.
#[derive(Debug, Clone, Copy, PartialEq, Eq)]
pub struct MixedCoordiantesError {
    pub span: Span,
}

/// A word that names no chat color.
#[derive(Debug, Clone, Copy, PartialEq, Eq)]
pub struct InvalidColorError {
    pub span: Span,
}

/// A word at the place of an argument whose category has no parser.
#[derive(Debug, Clone, Copy, PartialEq, Eq)]
pub struct UnsupportedArgumentError {
    pub span: Span,
}

/// A string that could not be interned because every symbol is in use.
#[derive(Debug, Clone, Copy, PartialEq, Eq)]
pub struct SymbolsExhaustedError {
    pub span: Span,
}

/// Any error of the parser.
#[derive(Debug, PartialEq, Eq)]
pub enum ParseError {
    Indentation(IndentationError),
    InvalidLiteral(InvalidLiteralError),
    TooManyArguments(TooManyArgumentsError),
    ParseBool(ParseBoolError),
    ParseDouble(ParseDoubleError),
    ParseFloat(ParseFloatError),
    ParseInteger(ParseIntegerError),
    UnterminatedString(UnterminatedStringError),
    InvalidStringChars(InvalidStringCharsError),
    QuotedSingleWord(QuotedSingleWordError),
    IncompleteLocalCoordinates(IncompleteLocalCoordinatesError),
    ExpectedLocalCoordinate(ExpectedLocalCoordinateError),
    MixedCoordinates(MixedCoordiantesError),
    InvalidColor(InvalidColorError),
    UnsupportedArgument(UnsupportedArgumentError),
    SymbolsExhausted(SymbolsExhaustedError),
}

impl ParseError {
    /// The part of the source that the error is about.
    pub open spec fn span(&self) -> Span {
        match *self {
            ParseError::Indentation(e) => e.span,
            ParseError::InvalidLiteral(e) => e.span,
            ParseError::TooManyArguments(e) => e.span,
            ParseError::ParseBool(e) => e.span,
            ParseError::ParseDouble(e) => e.span,
            ParseError::ParseFloat(e) => e.span,
            ParseError::ParseInteger(e) => e.span,
            ParseError::UnterminatedString(e) => e.span,
            ParseError::InvalidStringChars(e) => e.span,
            ParseError::QuotedSingleWord(e) => e.span,
            ParseError::IncompleteLocalCoordinates(e) => e.span,
            ParseError::ExpectedLocalCoordinate(e) => e.span,
            ParseError::MixedCoordinates(e) => e.span,
            ParseError::InvalidColor(e) => e.span,
            ParseError::UnsupportedArgument(e) => e.span,
            ParseError::SymbolsExhausted(e) => e.span,
        }
    }

    /// Computes [`ParseError::span`].
    pub fn get_span(&self) -> (span: Span)
        ensures
            span == self.span(),
    {
        match self {
            ParseError::Indentation(e) => e.span,
            ParseError::InvalidLiteral(e) => e.span,
            ParseError::TooManyArguments(e) => e.span,
            ParseError::ParseBool(e) => e.span,
            ParseError::ParseDouble(e) => e.span,
            ParseError::ParseFloat(e) => e.span,
            ParseError::ParseInteger(e) => e.span,
            ParseError::UnterminatedString(e) => e.span,
            ParseError::InvalidStringChars(e) => e.span,
            ParseError::QuotedSingleWord(e) => e.span,
            ParseError::IncompleteLocalCoordinates(e) => e.span,
            ParseError::ExpectedLocalCoordinate(e) => e.span,
            ParseError::MixedCoordinates(e) => e.span,
            ParseError::InvalidColor(e) => e.span,
            ParseError::UnsupportedArgument(e) => e.span,
            ParseError::SymbolsExhausted(e) => e.span,
        }
    }
}

/// The errors of one argument, kept in a `smallvec::SmallVec` with room for
/// one error before it allocates.
#[verifier::external_body]
#[derive(Debug)]
pub struct ErrorList {
    inner: smallvec::SmallVec<[ParseError; 1]>,
}

/// The errors that an [`ErrorList`] holds, oldest first.
pub uninterp spec fn listed_errors(list: ErrorList) -> Seq<ParseError>;

/// `smallvec::SmallVec::new`: a vector that holds nothing.
#[verifier::external_body]
fn small_new() -> (made: ErrorList)
    ensures
        listed_errors(made).len() == 0,
{
    ErrorList { inner: smallvec::SmallVec::new() }
}

/// `smallvec::SmallVec::push`: appends `error` behind what is held.
#[verifier::external_body]
fn small_push(list: &mut ErrorList, error: ParseError)
    ensures
        listed_errors(*final(list)) == listed_errors(*old(list)).push(error),
{
    list.inner.push(error)
}

/// `smallvec::SmallVec::as_slice`: what is held, as a slice.
#[verifier::external_body]
fn small_as_slice(list: &ErrorList) -> (items: &[ParseError])
    ensures
        items@ == listed_errors(*list),
{
    list.inner.as_slice()
}

impl View for ErrorList {
    type V = Seq<ParseError>;

    open spec fn view(&self) -> Seq<ParseError> {
        listed_errors(*self)
    }
}

impl ErrorList {
    /// A list without errors.
    pub fn new() -> (list: Self)
        ensures
            list@ == Seq::<ParseError>::empty(),
    {
        let list = small_new();
        assert(list@ =~= Seq::<ParseError>::empty());
        list
    }

    /// Appends `error`.
    pub fn push(&mut self, error: ParseError)
        ensures
            final(self)@ == old(self)@.push(error),
    {
        small_push(self, error)
    }

    /// The number of errors.
    pub fn len(&self) -> (n: usize)
        ensures
            n == self@.len(),
    {
        small_as_slice(self).len()
    }

    /// Whether the list holds no error.
    pub fn is_empty(&self) -> (b: bool)
        ensures
            b == (self@.len() == 0),
    {
        small_as_slice(self).len() == 0
    }

    /// The error at `index`, counted from the oldest.
    pub fn get(&self, index: usize) -> (r: Option<&ParseError>)
        ensures
            r == (if index < self@.len() {
                Some(&self@[index as int])
            } else {
                None
            }),
    {
        let items = small_as_slice(self);
        if index < items.len() {
            Some(&items[index])
        } else {
            None
        }
    }

    /// The errors as a slice, oldest first.
    pub fn as_slice(&self) -> (items: &[ParseError])
        ensures
            items@ == self@,
    {
        small_as_slice(self)
    }
}

} // verus!
