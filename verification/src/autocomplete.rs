//! Editor support for kaon source: diagnostics, completions and highlighting.
use vstd::prelude::*;

pub mod check;
pub mod complete;
pub mod highlight;

verus! {

/// A range of chars in a line of source, both ends inclusive
#[derive(Debug, Clone, Copy, PartialEq, Eq, Structural)]
pub struct Span {
    pub start: usize,
    pub end: usize,
}

impl Span {
    pub fn new(start: usize, end: usize) -> (r: Self)
        ensures
            r == (Span { start, end }),
    {
        Span { start, end }
    }

    /// The empty span at `pos`
    pub fn empty_at(pos: usize) -> (r: Self)
        ensures
            r == (Span { start: pos, end: pos }),
    {
        Span { start: pos, end: pos }
    }
}

} // verus!
