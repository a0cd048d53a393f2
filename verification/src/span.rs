use vstd::prelude::*;

verus! {

/// A region of Daihon source: byte offsets `start..end`, and the 1-based
/// line and character column where it begins.
#[derive(Clone, Copy, Debug, PartialEq, Eq, Structural, Hash, PartialOrd, Ord)]
pub struct Span {
    pub start: usize,
    pub end: usize,
    pub line: usize,
    pub column: usize,
}

impl Span {
    /// A span with the given offsets and starting position.
    pub fn new(start: usize, end: usize, line: usize, column: usize) -> (s: Span)
        ensures
            s == (Span { start, end, line, column }),
    {
        Span { start, end, line, column }
    }

    /// The span that points nowhere in particular.
    pub fn empty() -> (s: Span)
        ensures
            s == (Span { start: 0, end: 0, line: 0, column: 0 }),
    {
        Span { start: 0, end: 0, line: 0, column: 0 }
    }

    /// The smallest span covering both spans, positioned where the earlier one starts.
    pub open spec fn spec_join(self, other: Span) -> Span {
        if other.start < self.start {
            Span {
                start: other.start,
                end: if self.end < other.end { other.end } else { self.end },
                line: other.line,
                column: other.column,
            }
        } else {
            Span {
                start: self.start,
                end: if self.end < other.end { other.end } else { self.end },
                line: self.line,
                column: self.column,
            }
        }
    }

    /// The smallest span covering both spans, positioned where the earlier one starts.
    pub fn join(self, other: Span) -> (s: Span)
        ensures
            s == self.spec_join(other),
    {
        let end = if self.end < other.end { other.end } else { self.end };
        if other.start < self.start {
            Span { start: other.start, end, line: other.line, column: other.column }
        } else {
            Span { start: self.start, end, line: self.line, column: self.column }
        }
    }
}

/// Joining covers both spans.
pub proof fn lemma_join_covers(a: Span, b: Span)
    ensures
        a.spec_join(b).start <= a.start,
        a.spec_join(b).start <= b.start,
        a.spec_join(b).end >= a.end,
        a.spec_join(b).end >= b.end,
        a.spec_join(b).start == a.start || a.spec_join(b).start == b.start,
{
}

/// A value with the source span it was read from.
#[derive(Clone, Debug, PartialEq, Eq, Hash, PartialOrd, Ord)]
pub struct Spanned<T> {
    pub value: T,
    pub span: Span,
}

impl<T> Spanned<T> {
    /// Pairs a value with its span.
    pub fn new(value: T, span: Span) -> (s: Spanned<T>)
        ensures
            s.value == value,
            s.span == span,
    {
        Spanned { value, span }
    }
}

} // verus!
