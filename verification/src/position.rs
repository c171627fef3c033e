//! [`Position`] and [`Range`]: locations in a document, counted in
//! characters.

use vstd::prelude::*;

verus! {

/// A location inside a text buffer, expressed as a zero-indexed line and
/// column.
///
/// The column is a **character** offset, not a byte offset, so it is valid
/// across multi-byte text (e.g. `column: 1` in "😀😁" refers to the
/// position between the two emoji).
///
/// Positions order the way they read on screen: by line, then by column
/// (see [`Position::is_before`]).
#[derive(Debug, Copy, Clone, PartialEq, Eq, Structural, PartialOrd, Ord, Hash)]
pub struct Position {
    /// Zero-indexed line number.
    pub line: usize,
    /// Zero-indexed column, counted in characters (not bytes).
    pub column: usize,
}

impl Position {
    /// Creates a new position at the given line and column.
    pub fn new(line: usize, column: usize) -> (pos: Self)
        ensures
            pos.line == line,
            pos.column == column,
    {
        Self { line, column }
    }

    /// Whether `self` comes strictly before `other`: on an earlier line,
    /// or on the same line at an earlier column.
    pub fn is_before(&self, other: &Position) -> (b: bool)
        ensures
            b == crate::text::pos_lt(*self, *other),
    {
        self.line < other.line || (self.line == other.line && self.column < other.column)
    }
}

/// A span of text between two positions, used to describe selections and
/// deletions.
///
/// `Range` does not enforce that `start` comes before `end`; callers that
/// care about direction normalize the order themselves by swapping the
/// endpoints (see [`Range::normalized`]). This lets a range be built
/// directly from a drag gesture, which may go in either direction.
#[derive(Debug, Copy, Clone, PartialEq, Eq, Structural, Hash)]
pub struct Range {
    /// The position where the range begins (not guaranteed to precede `end`).
    pub start: Position,
    /// The position where the range ends (not guaranteed to follow `start`).
    pub end: Position,
}

impl Range {
    /// Creates a new range from `start` to `end`, in whatever order given.
    pub fn new(start: Position, end: Position) -> (r: Self)
        ensures
            r.start == start,
            r.end == end,
    {
        Self { start, end }
    }

    /// The same range with its endpoints ordered: `start` swapped with
    /// `end` when `start` comes after `end`.
    pub fn normalized(self) -> (r: Self)
        ensures
            r == normalize(self),
    {
        if self.end.is_before(&self.start) {
            Range { start: self.end, end: self.start }
        } else {
            self
        }
    }
}

/// `r` with its endpoints ordered.
pub open spec fn normalize(r: Range) -> Range {
    if crate::text::pos_lt(r.end, r.start) {
        Range { start: r.end, end: r.start }
    } else {
        r
    }
}

} // verus!
