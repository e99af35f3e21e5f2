//! The span a successful match attempt reports.

use vstd::prelude::*;

verus! {

/// The outcome of a successful match: the byte offsets of the matched span
/// inside the input line, and the matched text itself.
///
/// On ASCII input (the only input the matcher accepts) byte offsets and
/// character offsets coincide.
#[derive(Debug)]
pub struct MatchResult {
    pub start: usize,
    pub end: usize,
    pub matched: String,
}

impl MatchResult {
    /// Packs a span and its text into a `MatchResult`.
    pub fn new(start: usize, end: usize, matched: String) -> (r: MatchResult)
        ensures
            r.start == start,
            r.end == end,
            r.matched == matched,
    {
        MatchResult { start, end, matched }
    }

    /// The matched span as a `(start, end)` pair of byte offsets.
    pub fn range(&self) -> (r: (usize, usize))
        ensures
            r.0 == self.start,
            r.1 == self.end,
    {
        (self.start, self.end)
    }
}

} // verus!
