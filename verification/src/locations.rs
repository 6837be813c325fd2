//! Line/column locations in a source text and the spans between them.
use vstd::prelude::*;

verus! {

/// A zero-based line and column in a source text.
#[derive(Debug, PartialEq, Eq, Clone, Copy, Structural)]
pub struct Location {
    pub line: usize,
    pub col: usize,
}

/// `a` comes no later than `b`: lines first, then columns.
pub open spec fn spec_is_before(a: Location, b: Location) -> bool {
    a.line < b.line || (a.line == b.line && a.col <= b.col)
}

impl Location {
    /// The span from this location to the end of `span`.
    pub fn to_end_of(self, span: Span) -> (r: Span)
        ensures
            r == (Span { start: self, end: span.end }),
    {
        Span { start: self, end: span.end }
    }

    /// Whether this location comes no later than `location`.
    pub fn is_before(self, location: Location) -> (r: bool)
        ensures
            r == spec_is_before(self, location),
    {
        if self.line == location.line {
            return self.col <= location.col;
        }
        self.line < location.line
    }
}

/// The stretch of source text between two locations.
#[derive(Debug, PartialEq, Eq, Clone, Copy, Structural)]
pub struct Span {
    pub start: Location,
    pub end: Location,
}

/// The distance between the columns of the two ends of a span.
pub open spec fn spec_width(span: Span) -> nat {
    if span.end.col > span.start.col {
        (span.end.col - span.start.col) as nat
    } else {
        (span.start.col - span.end.col) as nat
    }
}

impl Span {
    pub fn new(start: Location, end: Location) -> (r: Span)
        ensures
            r == (Span { start, end }),
    {
        Self { start, end }
    }

    /// The span from the start of this one to `end`.
    pub fn extend_to(self, end: Location) -> (r: Span)
        ensures
            r == (Span { start: self.start, end }),
    {
        Span { start: self.start, end }
    }

    /// The span from the start of this one to the end of `other_span`.
    pub fn to_end_of(self, other_span: Span) -> (r: Span)
        ensures
            r == (Span { start: self.start, end: other_span.end }),
    {
        Span { start: self.start, end: other_span.end }
    }

    /// The distance between the columns of the two ends.
    pub fn width(&self) -> (r: usize)
        ensures
            r == spec_width(*self),
    {
        let left = self.start.col;
        let right = self.end.col;
        if right > left {
            return right - left;
        }
        left - right
    }
}

/// Things that occupy a span of source text.
pub trait GetSpan {
    spec fn spec_span(&self) -> Span;

    /// The span can be computed without overflow.
    spec fn span_fits(&self) -> bool;

    fn span(&self) -> (r: Span)
        requires
            self.span_fits(),
        ensures
            r == self.spec_span(),
    ;
}

/// The span covered by a sequence of spanned things, when it is not empty.
pub open spec fn spec_seq_span<T: GetSpan>(items: Seq<T>) -> Option<Span> {
    if items.len() == 0 {
        None
    } else {
        Some(Span { start: items[0].spec_span().start, end: items.last().spec_span().end })
    }
}

/// Collections of spanned things.
pub trait GetSpanOption<T: GetSpan> {
    spec fn spec_items(&self) -> Seq<T>;

    fn get_span(&self) -> (r: Option<Span>)
        requires
            forall|i: int| 0 <= i < self.spec_items().len() ==> #[trigger] self.spec_items()[i].span_fits(),
        ensures
            r == spec_seq_span(self.spec_items()),
    ;
}

impl<T: GetSpan> GetSpanOption<T> for Vec<T> {
    open spec fn spec_items(&self) -> Seq<T> {
        self@
    }

    fn get_span(&self) -> (r: Option<Span>) {
        if self.len() == 0 {
            return None;
        }
        let first = self[0].span();
        let last = self[self.len() - 1].span();
        Some(first.to_end_of(last))
    }
}

/// `is_before` orders locations totally: it is reflexive, transitive, total and
/// antisymmetric.
pub proof fn is_before_is_a_total_order(a: Location, b: Location, c: Location)
    ensures
        spec_is_before(a, a),
        spec_is_before(a, b) && spec_is_before(b, c) ==> spec_is_before(a, c),
        spec_is_before(a, b) || spec_is_before(b, a),
        spec_is_before(a, b) && spec_is_before(b, a) ==> a == b,
{
}

/// Joining spans keeps the outer ends: joining `a` to `b` and the result to `c`
/// is the same as joining `a` to `c`, and a location joined to a span keeps the
/// span's end.
pub proof fn joined_spans_keep_outer_ends(a: Span, b: Span, c: Span, l: Location)
    ensures
        (Span { start: (Span { start: a.start, end: b.end }).start, end: c.end }) == (Span {
            start: a.start,
            end: c.end,
        }),
        spec_width(a) == spec_width(Span { start: a.end, end: a.start }),
{
}

} // verus!
