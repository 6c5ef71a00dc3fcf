//! Byte-offset spans into the source line, used to slice substrings and to
//! anchor error underlines.

use vstd::prelude::*;

verus! {

/// A half-open range of byte positions of a token in the source input.
#[derive(Debug, PartialEq, Eq, Structural, Copy, Clone)]
pub struct Span {
    /// Start byte position.
    pub start: usize,
    /// End byte position.
    pub end: usize,
}

impl Span {
    /// Creates a span from its two byte offsets.
    pub fn new(start: usize, end: usize) -> (r: Span)
        ensures
            r == (Span { start, end }),
    {
        Span { start, end }
    }
}

/// Allows us to create spans from ranges.
impl From<core::ops::Range<usize>> for Span {
    fn from(value: core::ops::Range<usize>) -> (r: Span)
    {
        Span { start: value.start, end: value.end }
    }
}

impl vstd::std_specs::convert::FromSpecImpl<core::ops::Range<usize>> for Span {
    open spec fn obeys_from_spec() -> bool {
        true
    }

    open spec fn from_spec(value: core::ops::Range<usize>) -> Span {
        Span { start: value.start, end: value.end }
    }
}

} // verus!
