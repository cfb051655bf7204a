//! The failures that encoding and decoding report.

use vstd::prelude::*;

verus! {

/// What went wrong.
#[derive(Clone, Copy, Debug, PartialEq, Eq, Structural)]
pub enum ErrorKind {
    /// The input ended in the middle of a token.
    UnexpectedEnd,
    /// The leading byte of a token starts no production of the grammar.
    InvalidToken,
    /// An integer with malformed digits, a leading zero, `-0`, or a value
    /// outside the 64-bit signed range.
    InvalidInteger,
    /// A malformed or negative length prefix of a byte string.
    InvalidLength,
    /// A dictionary key that is not valid UTF-8.
    InvalidUtf8,
    /// A dictionary key that occurs twice.
    DuplicateKey,
    /// Bytes left over after the top-level value.
    TrailingData,
    /// A value that does not have the shape a typed record asks for. The
    /// codec never reports it: it is for the layer that maps values to
    /// records.
    TypeMismatch,
    /// A dictionary key that does not sort after the key before it, met
    /// while decoding strictly.
    UnsortedKeys,
}

/// A failure together with the byte offset at which it was detected.
#[derive(Clone, Copy, Debug, PartialEq, Eq, Structural)]
pub struct Error {
    pub kind: ErrorKind,
    pub offset: usize,
}

impl Error {
    /// Makes the error of kind `kind` detected at `offset`.
    pub fn new(kind: ErrorKind, offset: usize) -> (e: Error)
        ensures
            e == (Error { kind, offset }),
    {
        Error { kind, offset }
    }
}

} // verus!
