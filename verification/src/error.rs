//! The failures that decoding and the typed accessors report.
use vstd::prelude::*;

verus! {

/// The expectation that an input violated.
#[derive(Debug, Clone, Copy, PartialEq, Eq, Structural)]
pub enum ParseErrorKind {
    /// An integer literal lacks its `i` or `e`, or has no digits.
    MalformedInteger,
    /// The digits of an integer literal do not fit a signed 64-bit integer.
    IntegerOverflow,
    /// A length prefix lacks its digits or its `:`.
    MalformedLength,
    /// A byte string declares more bytes than the input still holds.
    TruncatedInput,
    /// A list or dictionary was opened and the input ended before its `e`.
    UnterminatedContainer,
    /// The next byte begins none of the four forms.
    NoMatchingVariant,
    /// Lists and dictionaries are nested deeper than the caller allows.
    NestingTooDeep,
}

/// A decoding failure: what was violated, and the index of the byte at which
/// that was found, counted from the start of the slice handed to the decoder.
#[derive(Debug, Clone, Copy, PartialEq, Eq, Structural)]
pub struct ParseError {
    pub kind: ParseErrorKind,
    pub offset: usize,
}

/// A decoding failure as the grammar states it, with an unbounded offset.
pub struct Failure {
    pub kind: ParseErrorKind,
    pub at: int,
}

impl View for ParseError {
    type V = Failure;

    open spec fn view(&self) -> Failure {
        Failure { kind: self.kind, at: self.offset as int }
    }
}

/// The four shapes a value can have.
#[derive(Debug, Clone, Copy, PartialEq, Eq, Structural)]
pub enum ValueKind {
    Integer,
    ByteString,
    List,
    Dict,
}

/// The failures of the typed accessors.
#[derive(Debug, Clone, Copy, PartialEq, Eq, Structural)]
pub enum AccessError {
    /// The value has another shape than the one asked for.
    WrongVariant { expected: ValueKind, actual: ValueKind },
    /// The bytes asked for as text are not valid UTF-8.
    InvalidText,
}

} // verus!
