//! Byte positions in a source text, with the line and column they fall on.
use vstd::prelude::*;

pub use crate::locations::Location;

verus! {

/// A zero-based byte offset into a source text with its line and column.
#[derive(Debug, PartialEq, Eq, Clone, Copy, Structural)]
pub struct Position {
    /// Byte position. Zero-based.
    pub value: usize,
    pub line: usize,
    pub col: usize,
}

impl Default for Position {
    fn default() -> (r: Position)
        ensures
            r == (Position { value: 0, line: 0, col: 0 }),
    {
        Position { value: 0, line: 0, col: 0 }
    }
}

impl Position {
    pub fn new(line: usize, col: usize, value: usize) -> (r: Position)
        ensures
            r == (Position { value, line, col }),
    {
        Self { value, line, col }
    }

    /// The span from this position to the end of `span`.
    pub fn to_end_of(self, span: Span) -> (r: Span)
        ensures
            r == (Span { start: self, end: span.end }),
    {
        Span { start: self, end: span.end }
    }

    /// The line and column of this position.
    pub fn location(self) -> (r: Location)
        ensures
            r == spec_location(self),
    {
        Location { line: self.line, col: self.col }
    }
}

/// The line and column of a position.
pub open spec fn spec_location(p: Position) -> Location {
    Location { line: p.line, col: p.col }
}

impl From<Position> for Location {
    fn from(value: Position) -> (r: Location) {
        Location { line: value.line, col: value.col }
    }
}

impl vstd::std_specs::convert::FromSpecImpl<Position> for Location {
    open spec fn obeys_from_spec() -> bool {
        true
    }

    open spec fn from_spec(v: Position) -> Location {
        Location { line: v.line, col: v.col }
    }
}

/// The stretch of source text between two positions, both ends included.
#[derive(Debug, PartialEq, Eq, Clone, Copy, Structural)]
pub struct Span {
    pub start: Position,
    pub end: Position,
}

/// The distance between the columns of the two ends of a span.
pub open spec fn col_distance(span: Span) -> nat {
    if span.end.col > span.start.col {
        (span.end.col - span.start.col) as nat
    } else {
        (span.start.col - span.end.col) as nat
    }
}

impl Span {
    pub fn new(start: Position, end: Position) -> (r: Span)
        ensures
            r == (Span { start, end }),
    {
        Self { start, end }
    }

    /// The span from the start of this one to the end of `other_span`.
    pub fn to_end_of(self, other_span: Span) -> (r: Span)
        ensures
            r == (Span { start: self.start, end: other_span.end }),
    {
        Span { start: self.start, end: other_span.end }
    }

    /// The number of columns the span covers, counting both end columns.
    pub fn width(&self) -> (r: usize)
        requires
            col_distance(*self) < usize::MAX,
        ensures
            r == col_distance(*self) + 1,
    {
        let left = self.start.col;
        let right = self.end.col;
        if right > left {
            return right - left + 1;
        }
        left - right + 1
    }
}

/// Things that occupy a span of source text.
pub trait GetSpan {
    spec fn spec_span(&self) -> Span;

    spec fn span_fits(&self) -> bool;

    fn span(&self) -> (r: Span)
        requires
            self.span_fits(),
        ensures
            r == self.spec_span(),
    ;
}

} // verus!
