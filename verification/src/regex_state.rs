//! One step of a compiled pattern: a value and its repetition.

use vstd::prelude::*;
use crate::regex_rep::RegexRep;
use crate::regex_value::{RegexVal, ValModel};

verus! {

/// One match state of a compiled pattern: what to compare against and how
/// many times to consume it.
#[derive(Debug, Clone)]
pub struct RegexState {
    pub value: RegexVal,
    pub repetition: RegexRep,
}

/// The mathematical shape of a [`RegexState`].
pub struct StateModel {
    pub val: ValModel,
    pub rep: RegexRep,
}

impl View for RegexState {
    type V = StateModel;

    open spec fn view(&self) -> StateModel {
        StateModel { val: self.value@, rep: self.repetition }
    }
}

/// The implicit search-anywhere state: a wildcard consumed any number of
/// times, prepended to every unanchored alternative.
pub open spec fn wildcard_any() -> StateModel {
    StateModel { val: ValModel::Wildcard, rep: RegexRep::Any }
}

} // verus!
