//! The single-character comparison a match state performs.

use vstd::prelude::*;
use crate::regex_class::{class_matches, RegexClass};

verus! {

/// The kind of single-character comparison a state performs: a literal
/// character, the wildcard `.`, a bracket expression, or a POSIX class.
#[derive(Debug, Clone)]
pub enum RegexVal {
    /// A literal character with no special meaning.
    Literal(char),
    /// Matches any single character.
    Wildcard,
    /// Matches any character in `chars`; with `is_negated`, any character
    /// not in `chars`.
    BracketExpression { chars: Vec<char>, is_negated: bool },
    /// Matches any character of a named POSIX class.
    Class(RegexClass),
}

/// The mathematical shape of a [`RegexVal`]: the same variants over a
/// character sequence instead of a vector.
pub enum ValModel {
    Literal(char),
    Wildcard,
    Bracket { chars: Seq<char>, negated: bool },
    Class(RegexClass),
}

impl View for RegexVal {
    type V = ValModel;

    open spec fn view(&self) -> ValModel {
        match self {
            RegexVal::Literal(l) => ValModel::Literal(*l),
            RegexVal::Wildcard => ValModel::Wildcard,
            RegexVal::BracketExpression { chars, is_negated } => ValModel::Bracket {
                chars: chars@,
                negated: *is_negated,
            },
            RegexVal::Class(class) => ValModel::Class(*class),
        }
    }
}

/// Whether a match value accepts a single character.
pub open spec fn val_accepts(v: ValModel, c: char) -> bool {
    match v {
        ValModel::Literal(l) => c == l,
        ValModel::Wildcard => true,
        ValModel::Bracket { chars, negated } => chars.contains(c) != negated,
        ValModel::Class(class) => class_matches(class, c),
    }
}

/// Whether a character vector contains a character.
fn char_in(chars: &Vec<char>, c: char) -> (r: bool)
    ensures
        r == chars@.contains(c),
{
    let n = chars.len();
    let mut i: usize = 0;
    while i < n
        invariant
            i <= n,
            n == chars@.len(),
            forall|k: int| 0 <= k < i ==> chars@[k] != c,
        decreases n - i,
    {
        if chars[i] == c {
            return true;
        }
        i = i + 1;
    }
    false
}

impl RegexVal {
    /// Whether this value accepts the single character `c`.
    pub fn accepts(&self, c: char) -> (r: bool)
        ensures
            r == val_accepts(self@, c),
    {
        match self {
            RegexVal::Literal(l) => *l == c,
            RegexVal::Wildcard => true,
            RegexVal::BracketExpression { chars, is_negated } => char_in(chars, c) != *is_negated,
            RegexVal::Class(class) => class.matches(&c),
        }
    }

    /// The byte length this value consumes at the front of `value`: 1 when
    /// the first character is accepted, 0 when it is not or the string is
    /// empty.  On ASCII input every character is one byte wide.
    pub fn matches(&self, value: &str) -> (r: usize)
        requires
            value.is_ascii(),
        ensures
            r == if value@.len() > 0 && val_accepts(self@, value@[0]) {
                1int
            } else {
                0int
            },
    {
        let n = value.unicode_len();
        if n == 0 {
            return 0;
        }
        if self.accepts(value.get_char(0)) {
            1
        } else {
            0
        }
    }
}

} // verus!
