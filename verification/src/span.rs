//! Byte ranges into a source text.

use std::ops::Range;
use vstd::prelude::*;

verus! {

/// A closed-open byte range `[start, end)` into a source text.
#[derive(Clone, Copy, Debug, PartialEq, Eq, Structural)]
pub struct Span {
    pub start: usize,
    pub end: usize,
}

impl Span {
    /// The range `[start, end)`.
    pub fn new(start: usize, end: usize) -> (span: Span)
        ensures
            span.start == start,
            span.end == end,
    {
        Span { start, end }
    }

    /// The span that covers the same bytes as `range`.
    pub fn from_range(range: Range<usize>) -> (span: Span)
        ensures
            span.start == range.start,
            span.end == range.end,
    {
        Span { start: range.start, end: range.end }
    }

    /// The same bytes as a standard range.
    pub fn as_range(&self) -> (range: Range<usize>)
        ensures
            range.start == self.start,
            range.end == self.end,
    {
        self.start..self.end
    }

    /// The number of bytes covered; zero when `end` lies before `start`.
    pub fn len(&self) -> (n: usize)
        ensures
            n == (if self.start <= self.end { self.end - self.start } else { 0 }),
    {
        if self.start <= self.end {
            self.end - self.start
        } else {
            0
        }
    }

    /// True when no byte is covered.
    pub fn is_empty(&self) -> (b: bool)
        ensures
            b == (self.end <= self.start),
    {
        self.end <= self.start
    }

    /// Every byte of `inner` is a byte of `self`, and `inner` is not inverted.
    pub open spec fn encloses(self, inner: Span) -> bool {
        self.start <= inner.start && inner.start <= inner.end && inner.end <= self.end
    }

    /// Decides [`Span::encloses`].
    pub fn contains_span(&self, inner: &Span) -> (b: bool)
        ensures
            b == self.encloses(*inner),
    {
        self.start <= inner.start && inner.start <= inner.end && inner.end <= self.end
    }
}

} // verus!
