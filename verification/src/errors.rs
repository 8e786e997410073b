//! The error values a parse can report.
//!
//! Any detected error aborts the whole parse; no partial tree is returned.
//! The error carries the byte offset, within the normalized pattern, at
//! which it was detected.  A zero-length pattern is not an error: it parses
//! to an empty root sequence.

use vstd::prelude::*;

verus! {

/// The closed set of failures a parse can report.
#[derive(Clone, Copy, Debug, PartialEq, Eq, Structural)]
pub enum ErrorKind {
    /// A brace quantifier with no parsable digits: `{}` or `{,}`, a brace
    /// run that is not of the shape `{m}`, `{m,}`, `{,n}` or `{m,n}`, a
    /// bound too large for `u32`, or explicit bounds with `max < min`.
    MalformedQuantifier,
    /// The input ended while a group scope was still open.
    UnterminatedGroup,
}

/// A parse failure: what went wrong and where.
///
/// `pos` is the byte offset in the normalized pattern at which the failure
/// was detected; for a malformed quantifier it is the offset of the opening
/// `{`, for an unterminated group the length of the pattern.
#[derive(Clone, Copy, Debug, PartialEq, Eq, Structural)]
pub struct ParseError {
    pub kind: ErrorKind,
    pub pos: usize,
}

/// The specification-level error value, with an unbounded offset.
pub struct PErr {
    pub kind: ErrorKind,
    pub pos: int,
}

impl View for ParseError {
    type V = PErr;

    open spec fn view(&self) -> PErr {
        PErr { kind: self.kind, pos: self.pos as int }
    }
}

} // verus!
