//! The history record the backtracking matcher keeps per consumed state.

use vstd::prelude::*;
use crate::regex_state::RegexState;

verus! {

/// A state the matcher has already consumed, kept on the history stack so
/// that greedy consumption can later be undone.  `match_size` is the number
/// of bytes the state consumed; `backtrackable` says whether the state could
/// legitimately have consumed less than it did.
#[derive(Debug)]
pub struct EvaluatedStep {
    pub state: RegexState,
    pub match_size: usize,
    pub backtrackable: bool,
}

} // verus!
