//! The contents of a bracket expression, as a value of its own.

use vstd::prelude::*;

verus! {

/// A bracket expression `[...]`: the characters it accepts and whether the
/// set is negated (`[^...]`).
#[derive(Debug, Clone)]
pub struct BracketExpression {
    pub chars: Vec<char>,
    pub is_negated: bool,
}

} // verus!
