//! Byte ranges of the source text.
use vstd::prelude::*;

verus! {

/// The bytes `start..end` of the source text.
#[derive(Clone, Copy, Debug, PartialEq, Eq)]
pub struct Span {
    pub start: usize,
    pub end: usize,
}

/// The span `a..b`, for positions that fit in a `usize`.
pub open spec fn sp(a: int, b: int) -> Span {
    Span { start: a as usize, end: b as usize }
}

/// Number of bytes of a span, and 0 for a backwards one.
pub open spec fn span_len(s: Span) -> int {
    if s.start <= s.end {
        s.end - s.start
    } else {
        0
    }
}

impl Span {
    pub fn new(start: usize, end: usize) -> (r: Span)
        requires
            start <= end,
        ensures
            r == sp(start as int, end as int),
    {
        Span { start, end }
    }

    pub fn by_len(start: usize, len: usize) -> (r: Span)
        requires
            start + len <= usize::MAX,
        ensures
            r == sp(start as int, start + len),
    {
        Span { start, end: start + len }
    }

    pub fn empty_at(start: usize) -> (r: Span)
        ensures
            r == sp(start as int, start as int),
    {
        Span { start, end: start }
    }

    pub fn start(&self) -> (r: usize)
        ensures
            r == self.start,
    {
        self.start
    }

    pub fn end(&self) -> (r: usize)
        ensures
            r == self.end,
    {
        self.end
    }

    pub fn len(&self) -> (r: usize)
        requires
            self.start <= self.end,
        ensures
            r == self.end - self.start,
    {
        self.end - self.start
    }

    pub fn is_empty(&self) -> (r: bool)
        ensures
            r == (self.start == self.end),
    {
        self.start == self.end
    }

    /// The same end, and the given start.
    pub fn with_start(self, start: usize) -> (r: Span)
        requires
            start <= self.end,
        ensures
            r == sp(start as int, self.end as int),
    {
        Span { start, end: self.end }
    }

    /// The same end, and a start `n` bytes later.
    pub fn skip(self, n: usize) -> (r: Span)
        requires
            self.start + n <= self.end,
        ensures
            r == sp(self.start + n, self.end as int),
    {
        Span { start: self.start + n, end: self.end }
    }

    /// The span moved `n` bytes later.
    pub fn translate(self, n: usize) -> (r: Span)
        requires
            self.start <= self.end,
            self.end + n <= usize::MAX,
        ensures
            r == sp(self.start + n, self.end + n),
    {
        Span { start: self.start + n, end: self.end + n }
    }
}

} // verus!
