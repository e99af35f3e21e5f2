//! How many times a match value may be consumed.

use vstd::prelude::*;

verus! {

/// How many consecutive occurrences of a match value a state consumes:
/// any number (greedy), an exact count, or a bounded range whose bounds are
/// each optional (`{m,n}`, `{m,}`, `{,n}`).
#[derive(Debug, Copy, Clone)]
pub enum RegexRep {
    Any,
    Exact(usize),
    Range { min: Option<usize>, max: Option<usize> },
}

/// Whether a repetition admits consuming exactly `count` occurrences.
pub open spec fn rep_allows(rep: RegexRep, count: int) -> bool {
    count >= 0 && match rep {
        RegexRep::Any => true,
        RegexRep::Exact(n) => count == n,
        RegexRep::Range { min, max } => (match min {
            Some(m) => count >= m,
            None => true,
        }) && (match max {
            Some(m) => count <= m,
            None => true,
        }),
    }
}

/// The smallest count a repetition could admit; counts below it are never
/// allowed.
pub open spec fn rep_floor(rep: RegexRep) -> int {
    match rep {
        RegexRep::Any => 0,
        RegexRep::Exact(n) => n as int,
        RegexRep::Range { min, max } => match min {
            Some(m) => m as int,
            None => 0,
        },
    }
}

/// The largest count a repetition admits, or `None` when it is unbounded.
pub open spec fn rep_cap(rep: RegexRep) -> Option<int> {
    match rep {
        RegexRep::Any => None,
        RegexRep::Exact(n) => Some(n as int),
        RegexRep::Range { min, max } => match max {
            Some(m) => Some(m as int),
            None => None,
        },
    }
}

/// A count below the floor is never allowed, and one above the cap is never
/// allowed.
pub proof fn lemma_rep_bounds(rep: RegexRep, count: int)
    ensures
        count < rep_floor(rep) ==> !rep_allows(rep, count),
        match rep_cap(rep) {
            Some(cap) => count > cap ==> !rep_allows(rep, count),
            None => true,
        },
{
    match rep {
        RegexRep::Any => {},
        RegexRep::Exact(n) => {},
        RegexRep::Range { min, max } => {},
    }
}

/// An allowed count above the floor may be lowered by one and stays allowed.
pub proof fn lemma_rep_step_down(rep: RegexRep, count: int)
    requires
        rep_allows(rep, count),
        count > rep_floor(rep),
    ensures
        rep_allows(rep, count - 1),
{
    match rep {
        RegexRep::Any => {},
        RegexRep::Exact(n) => {},
        RegexRep::Range { min, max } => {},
    }
}

/// A count between the floor and the cap is allowed.
pub proof fn lemma_rep_in_range(rep: RegexRep, count: int)
    requires
        count >= rep_floor(rep),
        match rep_cap(rep) {
            Some(cap) => count <= cap,
            None => true,
        },
    ensures
        rep_allows(rep, count),
{
    match rep {
        RegexRep::Any => {},
        RegexRep::Exact(n) => {},
        RegexRep::Range { min, max } => {},
    }
}

impl RegexRep {
    /// The smallest count this repetition could admit.
    pub fn floor(&self) -> (r: usize)
        ensures
            r == rep_floor(*self),
    {
        match self {
            RegexRep::Any => 0,
            RegexRep::Exact(n) => *n,
            RegexRep::Range { min, max } => match min {
                Some(m) => *m,
                None => 0,
            },
        }
    }

    /// The largest count this repetition admits, or `None` when unbounded.
    pub fn cap(&self) -> (r: Option<usize>)
        ensures
            match r {
                Some(c) => rep_cap(*self) == Some(c as int),
                None => rep_cap(*self) is None,
            },
    {
        match self {
            RegexRep::Any => None,
            RegexRep::Exact(n) => Some(*n),
            RegexRep::Range { min, max } => match max {
                Some(m) => Some(*m),
                None => None,
            },
        }
    }
}

} // verus!
