//! One alternative of a compiled pattern, and the backtracking matcher.
//!
//! ## What matching means
//!
//! A pattern part is a flat sequence of match states; each state consumes a
//! consecutive run of characters accepted by its value, the run's length
//! constrained by the state's repetition.  The spec function [`states_span`]
//! says when the states can consume exactly the characters between two
//! positions of the input, and [`part_matches`] when the whole part accepts
//! an input line.  The executable matcher explores run lengths greedily,
//! undoing consumption through an explicit history stack of
//! [`EvaluatedStep`] records when a later state cannot match, and is proved
//! to succeed if and only if [`part_matches`] holds.  The span it reports
//! comes from the run lengths of the unique greedy decomposition
//! ([`greedy_decomposition`], [`lemma_greedy_unique`]), so the whole match
//! result is a pure function of the pattern part and the input line.

use vstd::prelude::*;
use vstd::arithmetic::mul::{lemma_mul_inequality, lemma_mul_nonnegative};
use vstd::arithmetic::power::{lemma_pow0, lemma_pow_positive, pow};
use crate::error::RegexError;
use crate::evaluated_state::EvaluatedStep;
use crate::match_result::MatchResult;
use crate::regex_rep::{lemma_rep_bounds, lemma_rep_in_range, lemma_rep_step_down, rep_allows, rep_cap, rep_floor, RegexRep};
use crate::regex_state::{wildcard_any, RegexState, StateModel};
use crate::regex_value::{val_accepts, RegexVal, ValModel};

verus! {

/// One `|`-separated alternative of a pattern: an ordered sequence of match
/// states, plus whether the alternative ends in the `$` anchor.
#[derive(Debug)]
pub struct RegexPart {
    pub states: Vec<RegexState>,
    pub ends_with_dollar: bool,
}

/// The mathematical shape of a [`RegexPart`].
pub struct PartModel {
    pub states: Seq<StateModel>,
    pub ends_with_dollar: bool,
}

impl View for RegexPart {
    type V = PartModel;

    open spec fn view(&self) -> PartModel {
        PartModel {
            states: self.states@.map_values(|st: RegexState| st@),
            ends_with_dollar: self.ends_with_dollar,
        }
    }
}

/// The characters of `s` from `from` (inclusive) for `count` positions all
/// lie inside `s` and are each accepted by the value `v`.
pub open spec fn run_ok(v: ValModel, s: Seq<char>, from: int, count: int) -> bool {
    &&& 0 <= from
    &&& 0 <= count
    &&& from + count <= s.len()
    &&& forall|k: int| from <= k < from + count ==> val_accepts(v, #[trigger] s[k])
}

/// The states can consume exactly the characters of `s` between positions
/// `from` and `end`: there is a way to split that range into consecutive
/// runs, one per state, each run's length allowed by its state's repetition
/// and each of its characters accepted by the state's value.
pub open spec fn states_span(states: Seq<StateModel>, s: Seq<char>, from: int, end: int) -> bool
    decreases states.len(),
{
    if states.len() == 0 {
        from == end
    } else {
        exists|c: int|
            {
                &&& rep_allows(states[0].rep, c)
                &&& #[trigger] run_ok(states[0].val, s, from, c)
                &&& states_span(states.skip(1), s, from + c, end)
            }
    }
}

/// The first state consumes a run of `c` characters at `from`, and the
/// remaining states consume the characters up to `end`.
pub open spec fn span_step(
    states: Seq<StateModel>,
    s: Seq<char>,
    from: int,
    end: int,
    c: int,
) -> bool {
    &&& states.len() > 0
    &&& rep_allows(states[0].rep, c)
    &&& run_ok(states[0].val, s, from, c)
    &&& states_span(states.skip(1), s, from + c, end)
}

/// `states_span` on a non-empty state sequence holds exactly when some run
/// length `c` makes a [`span_step`].
pub proof fn lemma_span_unfold(states: Seq<StateModel>, s: Seq<char>, from: int, end: int)
    requires
        states.len() > 0,
    ensures
        states_span(states, s, from, end) <==> exists|c: int|
            #[trigger] span_step(states, s, from, end, c),
{
    if states_span(states, s, from, end) {
        let c = choose|c: int|
            {
                &&& rep_allows(states[0].rep, c)
                &&& #[trigger] run_ok(states[0].val, s, from, c)
                &&& states_span(states.skip(1), s, from + c, end)
            };
        assert(span_step(states, s, from, end, c));
    }
    if exists|c: int| #[trigger] span_step(states, s, from, end, c) {
        let c = choose|c: int| #[trigger] span_step(states, s, from, end, c);
        assert({
            &&& rep_allows(states[0].rep, c)
            &&& run_ok(states[0].val, s, from, c)
            &&& states_span(states.skip(1), s, from + c, end)
        });
    }
}

/// A witness that the states from index `j` onward, starting at position
/// `p`, consume the input up to `end`, with `end` respecting the `$` anchor.
pub open spec fn tail_witness(
    states: Seq<StateModel>,
    dollar: bool,
    s: Seq<char>,
    j: int,
    p: int,
    end: int,
) -> bool {
    &&& states_span(states.skip(j), s, p, end)
    &&& (dollar ==> end == s.len())
}

/// The states from index `j` onward can match starting at position `p`,
/// ending anywhere (or exactly at the end of the input when `dollar` holds).
pub open spec fn tail_matches(
    states: Seq<StateModel>,
    dollar: bool,
    s: Seq<char>,
    j: int,
    p: int,
) -> bool {
    exists|end: int| #[trigger] tail_witness(states, dollar, s, j, p, end)
}

/// The whole pattern part accepts the input line `s`.
pub open spec fn part_matches(states: Seq<StateModel>, dollar: bool, s: Seq<char>) -> bool {
    tail_matches(states, dollar, s, 0, 0)
}

/// A span consumed by states lies between its start and the input's end.
pub proof fn lemma_span_bounds(states: Seq<StateModel>, s: Seq<char>, from: int, end: int)
    requires
        states_span(states, s, from, end),
        0 <= from <= s.len(),
    ensures
        from <= end <= s.len(),
    decreases states.len(),
{
    if states.len() == 0 {
    } else {
        lemma_span_unfold(states, s, from, end);
        let c = choose|c: int| #[trigger] span_step(states, s, from, end, c);
        lemma_span_bounds(states.skip(1), s, from + c, end);
    }
}

/// Unfolds `tail_matches` one state at a time: the tail from `j` matches
/// exactly when some allowed, accepted run length `c` for state `j` lets the
/// tail from `j + 1` match at `p + c`.
pub proof fn lemma_tail_step(states: Seq<StateModel>, dollar: bool, s: Seq<char>, j: int, p: int)
    requires
        0 <= j < states.len(),
    ensures
        tail_matches(states, dollar, s, j, p) <==> exists|c: int|
            {
                &&& rep_allows(states[j].rep, c)
                &&& #[trigger] run_ok(states[j].val, s, p, c)
                &&& tail_matches(states, dollar, s, j + 1, p + c)
            },
{
    assert(states.skip(j).len() > 0);
    assert(states.skip(j)[0] == states[j]);
    assert(states.skip(j).skip(1) =~= states.skip(j + 1));
    if tail_matches(states, dollar, s, j, p) {
        let end = choose|end: int| #[trigger] tail_witness(states, dollar, s, j, p, end);
        lemma_span_unfold(states.skip(j), s, p, end);
        let c = choose|c: int| #[trigger] span_step(states.skip(j), s, p, end, c);
        assert(tail_witness(states, dollar, s, j + 1, p + c, end));
        assert(rep_allows(states[j].rep, c) && run_ok(states[j].val, s, p, c) && tail_matches(
            states,
            dollar,
            s,
            j + 1,
            p + c,
        ));
    }
    if exists|c: int|
        {
            &&& rep_allows(states[j].rep, c)
            &&& #[trigger] run_ok(states[j].val, s, p, c)
            &&& tail_matches(states, dollar, s, j + 1, p + c)
        } {
        let c = choose|c: int|
            {
                &&& rep_allows(states[j].rep, c)
                &&& #[trigger] run_ok(states[j].val, s, p, c)
                &&& tail_matches(states, dollar, s, j + 1, p + c)
            };
        let end = choose|end: int| #[trigger] tail_witness(states, dollar, s, j + 1, p + c, end);
        assert(span_step(states.skip(j), s, p, end, c));
        lemma_span_unfold(states.skip(j), s, p, end);
        assert(tail_witness(states, dollar, s, j, p, end));
    }
}

/// At the end of the states, matching only asks the `$` anchor to hold.
pub proof fn lemma_tail_end(states: Seq<StateModel>, dollar: bool, s: Seq<char>, p: int)
    ensures
        tail_matches(states, dollar, s, states.len() as int, p) <==> (dollar ==> p == s.len()),
{
    assert(states.skip(states.len() as int).len() == 0);
    if tail_matches(states, dollar, s, states.len() as int, p) {
        let end = choose|end: int|
            #[trigger] tail_witness(states, dollar, s, states.len() as int, p, end);
        assert(end == p);
    }
    if dollar ==> p == s.len() {
        assert(tail_witness(states, dollar, s, states.len() as int, p, p));
    }
}



/// The models of a vector of match states.
pub open spec fn models_of(states: Seq<RegexState>) -> Seq<StateModel> {
    states.map_values(|st: RegexState| st@)
}

/// The number of characters the first `i` history-stack entries consumed
/// together; entry `i` therefore starts at position `prefix_sum(stack, i)`.
pub open spec fn prefix_sum(stack: Seq<EvaluatedStep>, i: int) -> int
    decreases i,
{
    if i <= 0 {
        0
    } else {
        prefix_sum(stack, i - 1) + stack[i - 1].match_size
    }
}

/// Stacks that agree on their first `i` entries have the same prefix sum.
pub proof fn lemma_prefix_sum_agree(a: Seq<EvaluatedStep>, b: Seq<EvaluatedStep>, i: int)
    requires
        forall|l: int| 0 <= l < i ==> a[l].match_size == b[l].match_size,
    ensures
        prefix_sum(a, i) == prefix_sum(b, i),
    decreases i,
{
    if i > 0 {
        lemma_prefix_sum_agree(a, b, i - 1);
    }
}

/// Prefix sums are nonnegative and grow with the index.
pub proof fn lemma_prefix_sum_mono(stack: Seq<EvaluatedStep>, i: int, j: int)
    requires
        0 <= i <= j,
    ensures
        0 <= prefix_sum(stack, i) <= prefix_sum(stack, j),
    decreases j,
{
    if j > 0 {
        if i >= j {
            lemma_prefix_sum_mono(stack, j - 1, j - 1);
        } else {
            lemma_prefix_sum_mono(stack, i, j - 1);
        }
    }
}

/// History entry `i` is consistent with state `i`: its recorded run is
/// allowed by the state's repetition, every consumed character is accepted
/// by the state's value, and the backtrackable flag says exactly whether the
/// run is longer than the repetition's floor.
pub open spec fn entry_ok(
    states: Seq<StateModel>,
    s: Seq<char>,
    stack: Seq<EvaluatedStep>,
    i: int,
) -> bool {
    &&& rep_allows(states[i].rep, stack[i].match_size as int)
    &&& run_ok(states[i].val, s, prefix_sum(stack, i), stack[i].match_size as int)
    &&& (stack[i].backtrackable <==> stack[i].match_size as int > rep_floor(states[i].rep))
}

/// Every history entry is consistent with its state.
pub open spec fn stack_feasible(
    states: Seq<StateModel>,
    s: Seq<char>,
    stack: Seq<EvaluatedStep>,
) -> bool {
    &&& stack.len() <= states.len()
    &&& forall|i: int| 0 <= i < stack.len() ==> #[trigger] entry_ok(states, s, stack, i)
}

/// If the run length `c` were feasible for state `i` where entry `i` starts,
/// the tail from `i + 1` could still not match.
pub open spec fn count_ruled_out(
    states: Seq<StateModel>,
    dollar: bool,
    s: Seq<char>,
    stack: Seq<EvaluatedStep>,
    i: int,
    c: int,
) -> bool {
    (rep_allows(states[i].rep, c) && run_ok(states[i].val, s, prefix_sum(stack, i), c))
        ==> !tail_matches(states, dollar, s, i + 1, prefix_sum(stack, i) + c)
}

/// Greedy exploration has already ruled out, for every entry, all run
/// lengths larger than the one recorded.
pub open spec fn stack_pruned(
    states: Seq<StateModel>,
    dollar: bool,
    s: Seq<char>,
    stack: Seq<EvaluatedStep>,
) -> bool {
    forall|i: int, c: int|
        0 <= i < stack.len() && c > stack[i].match_size ==> #[trigger] count_ruled_out(
            states,
            dollar,
            s,
            stack,
            i,
            c,
        )
}

/// On a feasible stack each recorded run fits inside the input.
pub proof fn lemma_sizes_bounded(states: Seq<StateModel>, s: Seq<char>, stack: Seq<EvaluatedStep>)
    requires
        stack_feasible(states, s, stack),
    ensures
        forall|i: int| 0 <= i < stack.len() ==> #[trigger] stack[i].match_size <= s.len(),
{
    assert forall|i: int| 0 <= i < stack.len() implies #[trigger] stack[i].match_size
        <= s.len() by {
        assert(entry_ok(states, s, stack, i));
        lemma_prefix_sum_mono(stack, 0, i);
    }
}

/// When no feasible run length at `p` lets the tail from `j + 1` match, the
/// tail from `j` cannot match.
pub proof fn lemma_no_count_no_tail(
    states: Seq<StateModel>,
    dollar: bool,
    s: Seq<char>,
    j: int,
    p: int,
)
    requires
        0 <= j < states.len(),
        forall|c: int|
            rep_allows(states[j].rep, c) && #[trigger] run_ok(states[j].val, s, p, c)
                ==> !tail_matches(states, dollar, s, j + 1, p + c),
    ensures
        !tail_matches(states, dollar, s, j, p),
{
    lemma_tail_step(states, dollar, s, j, p);
}

/// A feasible, fully placed stack is a witness that the states consume the
/// input from position `prefix_sum(stack, i)` up to the total consumed
/// length.
pub proof fn lemma_stack_span(
    states: Seq<StateModel>,
    s: Seq<char>,
    stack: Seq<EvaluatedStep>,
    i: int,
)
    requires
        stack_feasible(states, s, stack),
        stack.len() == states.len(),
        0 <= i <= stack.len(),
    ensures
        states_span(
            states.skip(i),
            s,
            prefix_sum(stack, i),
            prefix_sum(stack, stack.len() as int),
        ),
    decreases stack.len() - i,
{
    let total = prefix_sum(stack, stack.len() as int);
    if i == stack.len() {
        assert(states.skip(i).len() == 0);
    } else {
        lemma_stack_span(states, s, stack, i + 1);
        assert(entry_ok(states, s, stack, i));
        let c = stack[i].match_size as int;
        assert(prefix_sum(stack, i + 1) == prefix_sum(stack, i) + c);
        assert(states.skip(i)[0] == states[i]);
        assert(states.skip(i).skip(1) =~= states.skip(i + 1));
        assert(span_step(states.skip(i), s, prefix_sum(stack, i), total, c));
        lemma_span_unfold(states.skip(i), s, prefix_sum(stack, i), total);
    }
}

/// The run length the history stack records at level `i`, padded with the
/// largest possible digit `n + 1` at levels not yet placed.  Read as a digit
/// string, the padded counts decrease lexicographically as the matcher runs.
pub open spec fn padded_count(stack: Seq<EvaluatedStep>, i: int, n: int) -> int {
    if 0 <= i < stack.len() {
        stack[i].match_size as int
    } else {
        n + 1
    }
}

/// The padded counts from level `i` to `k`, read as a number in base
/// `n + 2`: the matcher's termination measure.
pub open spec fn dfs_measure(stack: Seq<EvaluatedStep>, i: int, k: int, n: int) -> int
    decreases k - i,
{
    if i < 0 || i >= k {
        0
    } else {
        padded_count(stack, i, n) * pow(n + 2, (k - 1 - i) as nat) + dfs_measure(
            stack,
            i + 1,
            k,
            n,
        )
    }
}

/// All digits of a feasible stack lie in `[0, n + 1]`.
pub open spec fn digits_in_range(stack: Seq<EvaluatedStep>, k: int, n: int) -> bool {
    forall|i: int| 0 <= i < k ==> 0 <= #[trigger] padded_count(stack, i, n) <= n + 1
}

/// The measure is a base-`n + 2` number: nonnegative and below the next
/// power.
pub proof fn lemma_measure_bound(stack: Seq<EvaluatedStep>, i: int, k: int, n: int)
    requires
        0 <= i <= k,
        0 <= n,
        digits_in_range(stack, k, n),
    ensures
        0 <= dfs_measure(stack, i, k, n) < pow(n + 2, (k - i) as nat),
    decreases k - i,
{
    if i >= k {
        lemma_pow0(n + 2);
    } else {
        lemma_measure_bound(stack, i + 1, k, n);
        let d = padded_count(stack, i, n);
        let p = pow(n + 2, (k - 1 - i) as nat);
        lemma_pow_positive(n + 2, (k - 1 - i) as nat);
        lemma_mul_inequality(d, n + 1, p);
        lemma_mul_nonnegative(d, p);
        assert(d * p + dfs_measure(stack, i + 1, k, n) < (n + 1) * p + p);
        assert((n + 1) * p + p == (n + 2) * p) by (nonlinear_arith);
        assert(pow(n + 2, (k - i) as nat) == (n + 2) * pow(n + 2, (k - i - 1) as nat)) by {
            reveal(pow);
        }
    }
}

/// A stack whose digits agree with another's up to level `j` and are
/// strictly smaller at level `j` has the strictly smaller measure.
pub proof fn lemma_measure_decreases(
    a: Seq<EvaluatedStep>,
    b: Seq<EvaluatedStep>,
    i: int,
    j: int,
    k: int,
    n: int,
)
    requires
        0 <= i <= j < k,
        0 <= n,
        digits_in_range(a, k, n),
        digits_in_range(b, k, n),
        forall|l: int| i <= l < j ==> #[trigger] padded_count(b, l, n) == padded_count(a, l, n),
        padded_count(b, j, n) < padded_count(a, j, n),
    ensures
        dfs_measure(b, i, k, n) < dfs_measure(a, i, k, n),
    decreases j - i,
{
    if i < j {
        lemma_measure_decreases(a, b, i + 1, j, k, n);
    } else {
        let da = padded_count(a, i, n);
        let db = padded_count(b, i, n);
        let p = pow(n + 2, (k - 1 - i) as nat);
        lemma_pow_positive(n + 2, (k - 1 - i) as nat);
        lemma_measure_bound(a, i + 1, k, n);
        lemma_measure_bound(b, i + 1, k, n);
        assert(dfs_measure(b, i + 1, k, n) < p);
        lemma_mul_inequality(db + 1, da, p);
        assert((db + 1) * p == db * p + p) by (nonlinear_arith);
    }
}

/// The span a successful match reports.  When the alternative begins with
/// the implicit search-anywhere state, what that state consumed is excluded
/// from the span and the remaining states match the span exactly; otherwise
/// the whole state sequence matches the span, which then starts at 0.
pub open spec fn reported_span_ok(
    states: Seq<StateModel>,
    s: Seq<char>,
    start: int,
    end: int,
) -> bool {
    if states.len() > 0 && states[0] == wildcard_any() {
        states_span(states.skip(1), s, start, end)
    } else {
        start == 0 && states_span(states, s, 0, end)
    }
}

/// The longest run of characters accepted by the state's value starting at
/// position `p`, capped by the repetition's upper bound: the greedy run
/// length.  No longer run length is both allowed and attainable.
fn greedy_run(state: &RegexState, value: &str, p: usize, n: usize) -> (g: usize)
    requires
        value.is_ascii(),
        n == value@.len(),
        p <= n,
    ensures
        p + g <= n,
        run_ok(state@.val, value@, p as int, g as int),
        match rep_cap(state.repetition) {
            Some(cap) => g <= cap,
            None => true,
        },
        forall|c: int|
            c > g ==> !(rep_allows(state.repetition, c) && #[trigger] run_ok(
                state@.val,
                value@,
                p as int,
                c,
            )),
{
    let ghost s = value@;
    let cap_opt = state.repetition.cap();
    let mut m: usize = 0;
    loop
        invariant_except_break
            value.is_ascii(),
            n == s.len(),
            s == value@,
            p <= n,
            p + m <= n,
            run_ok(state@.val, s, p as int, m as int),
            match cap_opt {
                Some(h) => m <= h && rep_cap(state.repetition) == Some(h as int),
                None => rep_cap(state.repetition) is None,
            },
        ensures
            p + m <= n,
            run_ok(state@.val, s, p as int, m as int),
            match rep_cap(state.repetition) {
                Some(cap) => m <= cap,
                None => true,
            },
            p + m == n || rep_cap(state.repetition) == Some(m as int) || (p + m < n
                && !val_accepts(state@.val, s[p as int + m as int])),
        decreases n - p - m,
    {
        if p + m >= n {
            break ;
        }
        match cap_opt {
            Some(h) => {
                if m >= h {
                    break ;
                }
            },
            None => {},
        }
        if !state.value.accepts(value.get_char(p + m)) {
            break ;
        }
        m = m + 1;
        proof {
            assert(run_ok(state@.val, s, p as int, m as int));
        }
    }
    proof {
        assert forall|c: int|
            c > m implies !(rep_allows(state.repetition, c) && #[trigger] run_ok(
            state@.val,
            s,
            p as int,
            c,
        )) by {
            if rep_allows(state.repetition, c) && run_ok(state@.val, s, p as int, c) {
                if p + m == n {
                    assert(p + c <= n);
                } else if rep_cap(state.repetition) == Some(m as int) {
                    lemma_rep_bounds(state.repetition, c);
                } else {
                    assert(val_accepts(state@.val, s[p as int + m as int]));
                }
            }
        }
    }
    m
}

/// The total consumption a feasible stack records fits inside the input.
pub proof fn lemma_total_bounded(states: Seq<StateModel>, s: Seq<char>, stack: Seq<EvaluatedStep>)
    requires
        stack_feasible(states, s, stack),
    ensures
        0 <= prefix_sum(stack, stack.len() as int) <= s.len(),
{
    lemma_prefix_sum_mono(stack, 0, stack.len() as int);
    if stack.len() > 0 {
        let last = stack.len() - 1;
        assert(entry_ok(states, s, stack, last as int));
    }
}

/// Undoes greedy consumption once the states from level `stack.len()`
/// onward have been found unable to match at position `p`: pops history
/// entries, un-consuming their runs, until one is found whose run can
/// shrink, and re-records that run one character shorter.  Returns `false`
/// when the history is exhausted, which shows the whole part cannot match.
fn backtrack(
    states: &Vec<RegexState>,
    stack: &mut Vec<EvaluatedStep>,
    p: &mut usize,
    Ghost(s): Ghost<Seq<char>>,
    Ghost(dollar): Ghost<bool>,
) -> (r: bool)
    requires
        old(stack)@.len() <= states@.len(),
        stack_feasible(models_of(states@), s, old(stack)@),
        stack_pruned(models_of(states@), dollar, s, old(stack)@),
        *old(p) == prefix_sum(old(stack)@, old(stack)@.len() as int),
        !tail_matches(
            models_of(states@),
            dollar,
            s,
            old(stack)@.len() as int,
            *old(p) as int,
        ),
    ensures
        final(stack)@.len() <= old(stack)@.len(),
        r ==> stack_feasible(models_of(states@), s, final(stack)@),
        r ==> stack_pruned(models_of(states@), dollar, s, final(stack)@),
        r ==> *final(p) == prefix_sum(final(stack)@, final(stack)@.len() as int),
        r ==> exists|j: int|
            {
                &&& 0 <= j < old(stack)@.len()
                &&& final(stack)@.len() == j + 1
                &&& (forall|l: int| 0 <= l < j ==> final(stack)@[l] == old(stack)@[l])
                &&& (final(stack)@[j].match_size as int) < (old(stack)@[j].match_size as int)
            },
        !r ==> !part_matches(models_of(states@), dollar, s),
{
    let ghost sm = models_of(states@);
    let ghost stack0 = stack@;
    loop
        invariant_except_break
            sm == models_of(states@),
            stack0 == old(stack)@,
            stack@.len() <= stack0.len() <= states@.len(),
            stack@ == stack0.subrange(0, stack@.len() as int),
            stack_feasible(sm, s, stack@),
            stack_pruned(sm, dollar, s, stack@),
            *p == prefix_sum(stack@, stack@.len() as int),
            !tail_matches(sm, dollar, s, stack@.len() as int, *p as int),
        ensures
            stack@.len() <= stack0.len(),
        decreases stack@.len(),
    {
        if stack.len() == 0 {
            proof {
                assert(*p == 0);
            }
            return false;
        }
        let ghost prev = stack@;
        let e = stack.pop().unwrap();
        let j = stack.len();
        proof {
            assert(prev[j as int] == e);
            assert(stack@ =~= stack0.subrange(0, j as int));
            assert(entry_ok(sm, s, prev, j as int));
            lemma_prefix_sum_mono(prev, j as int, j as int);
        }
        *p = *p - e.match_size;
        proof {
            lemma_prefix_sum_agree(stack@, prev, j as int);
            assert(*p == prefix_sum(stack@, j as int));
            assert forall|i: int| 0 <= i < j implies #[trigger] entry_ok(sm, s, stack@, i) by {
                assert(entry_ok(sm, s, prev, i));
                lemma_prefix_sum_agree(stack@, prev, i);
            }
            assert forall|i: int, c: int| 0 <= i < j && c > stack@[i].match_size implies #[trigger]
                count_ruled_out(sm, dollar, s, stack@, i, c) by {
                assert(count_ruled_out(sm, dollar, s, prev, i, c));
                lemma_prefix_sum_agree(stack@, prev, i);
            }
        }
        if e.backtrackable {
            let new_size = e.match_size - 1;
            let fl = states[j].repetition.floor();
            let bt = new_size > fl;
            let ghost popped = stack@;
            let entry = EvaluatedStep { state: e.state, match_size: new_size, backtrackable: bt };
            stack.push(entry);
            *p = *p + new_size;
            proof {
                let ghost q = prefix_sum(popped, j as int);
                assert(sm[j as int] == states@[j as int]@);
                assert(fl == rep_floor(sm[j as int].rep));
                lemma_prefix_sum_agree(stack@, popped, j as int);
                assert(prefix_sum(stack@, j as int + 1) == q + new_size);
                // the shortened run is still allowed and still accepted
                lemma_rep_step_down(sm[j as int].rep, e.match_size as int);
                lemma_prefix_sum_agree(prev, popped, j as int);
                assert(run_ok(sm[j as int].val, s, q, e.match_size as int));
                assert(entry_ok(sm, s, stack@, j as int));
                assert forall|i: int| 0 <= i < j implies #[trigger] entry_ok(sm, s, stack@, i) by {
                    assert(entry_ok(sm, s, popped, i));
                    lemma_prefix_sum_agree(stack@, popped, i);
                }
                // pruning: lengths above the shortened run are all ruled out
                assert forall|i: int, c: int| 0 <= i < stack@.len() && c > stack@[i].match_size
                    implies #[trigger] count_ruled_out(sm, dollar, s, stack@, i, c) by {
                    if i < j {
                        assert(count_ruled_out(sm, dollar, s, popped, i, c));
                        lemma_prefix_sum_agree(stack@, popped, i);
                    } else {
                        // i == j: c > new_size means c > e.match_size, already
                        // pruned, or c == e.match_size, ruled out because the
                        // tail after this entry just failed
                        if c > e.match_size {
                            assert(count_ruled_out(sm, dollar, s, prev, j as int, c));
                            lemma_prefix_sum_agree(stack@, prev, j as int);
                        } else {
                            assert(c == e.match_size);
                            assert(!tail_matches(sm, dollar, s, j as int + 1, q + c));
                        }
                    }
                }
                assert(stack@.len() == j + 1);
                assert(forall|l: int| 0 <= l < j ==> stack@[l] == stack0[l]);
                assert(stack0[j as int] == e);
            }
            return true;
        }
        proof {
            // the popped run sat at its floor: no shorter run is allowed, and
            // every longer one was pruned, so the tail from level j fails too
            let ghost q = prefix_sum(stack@, j as int);
            assert(sm.len() == states@.len());
            assert forall|c: int|
                rep_allows(sm[j as int].rep, c) && #[trigger] run_ok(sm[j as int].val, s, q, c)
                implies !tail_matches(sm, dollar, s, j as int + 1, q + c) by {
                lemma_prefix_sum_agree(stack@, prev, j as int);
                if c > e.match_size {
                    assert(count_ruled_out(sm, dollar, s, prev, j as int, c));
                } else if c == e.match_size {
                    assert(!tail_matches(sm, dollar, s, j as int + 1, q + c));
                } else {
                    assert(entry_ok(sm, s, prev, j as int));
                    assert(e.match_size <= rep_floor(sm[j as int].rep));
                    lemma_rep_bounds(sm[j as int].rep, c);
                }
            }
            lemma_no_count_no_tail(sm, dollar, s, j as int, q);
        }
    }
    false
}

/// Whether a state is exactly the implicit search-anywhere state.
fn is_wildcard_any(state: &RegexState) -> (r: bool)
    ensures
        r == (state@ == wildcard_any()),
{
    match (&state.value, &state.repetition) {
        (RegexVal::Wildcard, RegexRep::Any) => true,
        _ => false,
    }
}

/// Digits of a feasible stack, padded below `k` levels, stay in range.
proof fn lemma_digits(states: Seq<StateModel>, s: Seq<char>, stack: Seq<EvaluatedStep>, k: int)
    requires
        stack_feasible(states, s, stack),
        stack.len() <= k,
    ensures
        digits_in_range(stack, k, s.len() as int),
{
    lemma_sizes_bounded(states, s, stack);
    assert forall|i: int| 0 <= i < k implies 0 <= #[trigger] padded_count(stack, i, s.len() as int)
        <= s.len() + 1 by {
        if 0 <= i < stack.len() {
            assert(stack[i].match_size <= s.len());
        }
    }
}

impl RegexPart {
    /// Matches one input line against this alternative.
    ///
    /// Returns the matched span when the alternative accepts the line,
    /// `None` when it does not, and an error when the line is not ASCII.
    /// Success is exact: a span is returned if and only if [`part_matches`]
    /// holds of this alternative's states and the line; the reported span is
    /// itself matched by the states, the implicit leading search-anywhere
    /// state excluded (see [`reported_span_ok`]).
    pub fn match_single_expression(&self, value: &str) -> (r: Result<
        Option<MatchResult>,
        RegexError,
    >)
        ensures
            !value.is_ascii() ==> r == Result::<Option<MatchResult>, RegexError>::Err(
                RegexError::NonAsciiInput,
            ),
            value.is_ascii() ==> match r {
                Ok(Some(m)) => {
                    &&& part_matches(self@.states, self@.ends_with_dollar, value@)
                    &&& m.start <= m.end <= value@.len()
                    &&& m.matched@ == value@.subrange(m.start as int, m.end as int)
                    &&& (self@.ends_with_dollar ==> m.end == value@.len())
                    &&& reported_span_ok(self@.states, value@, m.start as int, m.end as int)
                    &&& exists|counts: Seq<int>|
                        {
                            &&& #[trigger] greedy_decomposition(
                                self@.states,
                                self@.ends_with_dollar,
                                value@,
                                counts,
                            )
                            &&& m.end == counts_pos(counts, counts.len() as int)
                            &&& m.start == if self@.states.len() > 0 && self@.states[0]
                                == wildcard_any() {
                                counts[0]
                            } else {
                                0
                            }
                        }
                },
                Ok(None) => !part_matches(self@.states, self@.ends_with_dollar, value@),
                Err(_) => false,
            },
    {
        if !value.is_ascii() {
            return Err(RegexError::NonAsciiInput);
        }
        let n = value.unicode_len();
        let ghost s = value@;
        let ghost sm = models_of(self.states@);
        let ghost dollar = self.ends_with_dollar;
        let k = self.states.len();
        proof {
            assert(sm =~= self@.states);
        }
        let mut stack: Vec<EvaluatedStep> = Vec::new();
        let mut p: usize = 0;
        let mut found = false;
        loop
            invariant_except_break
                value.is_ascii(),
                s == value@,
                n == s.len(),
                sm == models_of(self.states@),
                sm == self@.states,
                dollar == self.ends_with_dollar,
                k == self.states.len(),
                sm.len() == k,
                stack@.len() <= k,
                stack_feasible(sm, s, stack@),
                stack_pruned(sm, dollar, s, stack@),
                p == prefix_sum(stack@, stack@.len() as int),
                p <= n,
            ensures
                value.is_ascii() && s == value@ && n == s.len() && sm == self@.states && k
                    == self.states.len() && sm.len() == k && dollar == self.ends_with_dollar,
                found ==> {
                    &&& stack@.len() == k
                    &&& stack_feasible(sm, s, stack@)
                    &&& stack_pruned(sm, dollar, s, stack@)
                    &&& p == prefix_sum(stack@, k as int)
                    &&& (dollar ==> p == n)
                    &&& p <= n
                },
                !found ==> !part_matches(sm, dollar, s),
            decreases dfs_measure(stack@, 0, k as int, n as int),
        {
            proof {
                lemma_digits(sm, s, stack@, k as int);
                lemma_measure_bound(stack@, 0, k as int, n as int);
            }
            if stack.len() == k {
                if !self.ends_with_dollar || p == n {
                    found = true;
                    break ;
                }
                proof {
                    lemma_tail_end(sm, dollar, s, p as int);
                }
                let ghost before = stack@;
                if !backtrack(&self.states, &mut stack, &mut p, Ghost(s), Ghost(dollar)) {
                    found = false;
                    break ;
                }
                proof {
                    lemma_total_bounded(sm, s, stack@);
                    let j = choose|j: int|
                        {
                            &&& 0 <= j < before.len()
                            &&& stack@.len() == j + 1
                            &&& (forall|l: int| 0 <= l < j ==> stack@[l] == before[l])
                            &&& (stack@[j].match_size as int) < (before[j].match_size as int)
                        };
                    lemma_digits(sm, s, before, k as int);
                    lemma_digits(sm, s, stack@, k as int);
                    lemma_measure_decreases(before, stack@, 0, j, k as int, n as int);
                    lemma_measure_bound(stack@, 0, k as int, n as int);
                }
            } else {
                let j = stack.len();
                proof {
                    assert(sm[j as int] == self.states@[j as int]@);
                }
                let g = greedy_run(&self.states[j], value, p, n);
                let lo = self.states[j].repetition.floor();
                if g >= lo {
                    let bt = g > lo;
                    let entry = EvaluatedStep {
                        state: self.states[j].clone(),
                        match_size: g,
                        backtrackable: bt,
                    };
                    let ghost before = stack@;
                    stack.push(entry);
                    p = p + g;
                    proof {
                        lemma_prefix_sum_agree(stack@, before, j as int);
                        assert(prefix_sum(stack@, j as int + 1) == prefix_sum(before, j as int)
                            + g);
                        lemma_rep_in_range(sm[j as int].rep, g as int);
                        assert(entry_ok(sm, s, stack@, j as int));
                        assert forall|i: int| 0 <= i < j implies #[trigger] entry_ok(
                            sm,
                            s,
                            stack@,
                            i,
                        ) by {
                            assert(entry_ok(sm, s, before, i));
                            lemma_prefix_sum_agree(stack@, before, i);
                        }
                        assert forall|i: int, c: int| 0 <= i < stack@.len() && c
                            > stack@[i].match_size implies #[trigger] count_ruled_out(
                            sm,
                            dollar,
                            s,
                            stack@,
                            i,
                            c,
                        ) by {
                            lemma_prefix_sum_agree(stack@, before, i);
                            if i < j {
                                assert(count_ruled_out(sm, dollar, s, before, i, c));
                            }
                        }
                        lemma_digits(sm, s, before, k as int);
                        lemma_digits(sm, s, stack@, k as int);
                        lemma_measure_decreases(before, stack@, 0, j as int, k as int, n as int);
                        lemma_measure_bound(stack@, 0, k as int, n as int);
                    }
                } else {
                    proof {
                        assert forall|c: int|
                            rep_allows(sm[j as int].rep, c) && #[trigger] run_ok(
                                sm[j as int].val,
                                s,
                                p as int,
                                c,
                            ) implies !tail_matches(sm, dollar, s, j as int + 1, p + c) by {
                            lemma_rep_bounds(sm[j as int].rep, c);
                        }
                        lemma_no_count_no_tail(sm, dollar, s, j as int, p as int);
                    }
                    let ghost before = stack@;
                    if !backtrack(&self.states, &mut stack, &mut p, Ghost(s), Ghost(dollar)) {
                        found = false;
                        break ;
                    }
                    proof {
                        lemma_total_bounded(sm, s, stack@);
                        let jj = choose|jj: int|
                            {
                                &&& 0 <= jj < before.len()
                                &&& stack@.len() == jj + 1
                                &&& (forall|l: int| 0 <= l < jj ==> stack@[l] == before[l])
                                &&& (stack@[jj].match_size as int) < (before[jj].match_size as int)
                            };
                        lemma_digits(sm, s, before, k as int);
                        lemma_digits(sm, s, stack@, k as int);
                        lemma_measure_decreases(before, stack@, 0, jj, k as int, n as int);
                        lemma_measure_bound(stack@, 0, k as int, n as int);
                    }
                }
            }
        }
        if found {
            proof {
                lemma_stack_span(sm, s, stack@, 0);
                assert(sm.skip(0) =~= sm);
                assert(tail_witness(sm, dollar, s, 0, 0, p as int));
                let counts = counts_of(stack@);
                lemma_counts_of_pos(stack@, k as int);
                assert forall|j: int| 0 <= j < counts.len() implies #[trigger] greedy_level_ok(
                    sm,
                    dollar,
                    s,
                    counts,
                    j,
                ) by {
                    lemma_counts_of_pos(stack@, j);
                    assert(entry_ok(sm, s, stack@, j));
                    assert(counts[j] == stack@[j].match_size);
                    assert forall|c: int|
                        c > counts[j] && rep_allows(sm[j].rep, c) && #[trigger] run_ok(
                            sm[j].val,
                            s,
                            counts_pos(counts, j),
                            c,
                        ) implies !tail_matches(sm, dollar, s, j + 1, counts_pos(counts, j)
                        + c) by {
                        assert(count_ruled_out(sm, dollar, s, stack@, j, c));
                    }
                }
                assert(greedy_decomposition(sm, dollar, s, counts));
                if k > 0 {
                    lemma_counts_of_pos(stack@, 1);
                    assert(counts[0] == stack@[0].match_size);
                }
            }
            let start: usize = if k > 0 && is_wildcard_any(&self.states[0]) {
                proof {
                    lemma_stack_span(sm, s, stack@, 1);
                    assert(prefix_sum(stack@, 1) == stack@[0].match_size);
                    lemma_prefix_sum_mono(stack@, 1, k as int);
                }
                stack[0].match_size
            } else {
                0
            };
            let matched_str = value.substring_ascii(start, p);
            let matched = matched_str.to_owned();
            Ok(Some(MatchResult { start, end: p, matched }))
        } else {
            Ok(None)
        }
    }
}

/// Search-anywhere semantics: an alternative that begins with the implicit
/// search-anywhere state and carries no `$` anchor accepts an input line
/// exactly when its remaining states match some contiguous span of the
/// line.  Together with the matcher's contract this says that an unanchored
/// pattern matches a line if and only if the pattern occurs as a contiguous
/// substring of the line.
pub proof fn lemma_search_anywhere(states: Seq<StateModel>, s: Seq<char>)
    requires
        states.len() > 0,
        states[0] == wildcard_any(),
    ensures
        part_matches(states, false, s) <==> exists|i: int, e: int|
            0 <= i <= e <= s.len() && #[trigger] states_span(states.skip(1), s, i, e),
{
    if part_matches(states, false, s) {
        lemma_tail_step(states, false, s, 0, 0);
        let c = choose|c: int|
            {
                &&& rep_allows(states[0].rep, c)
                &&& #[trigger] run_ok(states[0].val, s, 0, c)
                &&& tail_matches(states, false, s, 1, c)
            };
        let end = choose|end: int| #[trigger] tail_witness(states, false, s, 1, c, end);
        lemma_span_bounds(states.skip(1), s, c, end);
        assert(0 <= c <= end <= s.len() && states_span(states.skip(1), s, c, end));
    }
    if exists|i: int, e: int|
        0 <= i <= e <= s.len() && #[trigger] states_span(states.skip(1), s, i, e) {
        let (i, e) = choose|i: int, e: int|
            0 <= i <= e <= s.len() && #[trigger] states_span(states.skip(1), s, i, e);
        assert(run_ok(states[0].val, s, 0, i)) by {
            assert(forall|k: int| 0 <= k < i ==> val_accepts(states[0].val, #[trigger] s[k]));
        }
        assert(rep_allows(states[0].rep, i));
        assert(tail_witness(states, false, s, 1, i, e));
        lemma_tail_step(states, false, s, 0, 0);
        assert(rep_allows(states[0].rep, i) && run_ok(states[0].val, s, 0, i) && tail_matches(
            states,
            false,
            s,
            1,
            0 + i,
        ));
    }
}

// ---------------------------------------------------------------------------
// The greedy decomposition: which run lengths a successful match records
// ---------------------------------------------------------------------------
/// The position where run `j` of a decomposition starts: the sum of the run
/// lengths before it.
pub open spec fn counts_pos(counts: Seq<int>, j: int) -> int
    decreases j,
{
    if j <= 0 {
        0
    } else {
        counts_pos(counts, j - 1) + counts[j - 1]
    }
}

/// Decompositions that agree on their first `j` runs start run `j` at the
/// same position.
pub proof fn lemma_counts_pos_agree(a: Seq<int>, b: Seq<int>, j: int)
    requires
        forall|l: int| 0 <= l < j ==> a[l] == b[l],
    ensures
        counts_pos(a, j) == counts_pos(b, j),
    decreases j,
{
    if j > 0 {
        lemma_counts_pos_agree(a, b, j - 1);
    }
}

/// Run `j` of the decomposition is feasible where it starts, and is the
/// longest feasible run there whose continuation still lets the remaining
/// states match.
pub open spec fn greedy_level_ok(
    states: Seq<StateModel>,
    dollar: bool,
    s: Seq<char>,
    counts: Seq<int>,
    j: int,
) -> bool {
    let p = counts_pos(counts, j);
    &&& rep_allows(states[j].rep, counts[j])
    &&& run_ok(states[j].val, s, p, counts[j])
    &&& (forall|c: int|
        c > counts[j] && rep_allows(states[j].rep, c) && #[trigger] run_ok(states[j].val, s, p, c)
            ==> !tail_matches(states, dollar, s, j + 1, p + c))
}

/// The decomposition a successful match records: one run length per state,
/// each run feasible and chosen greedily ([`greedy_level_ok`]), with the `$`
/// anchor met by the total.  There is at most one such decomposition
/// ([`lemma_greedy_unique`]), so a reported span is pinned by this
/// predicate.
pub open spec fn greedy_decomposition(
    states: Seq<StateModel>,
    dollar: bool,
    s: Seq<char>,
    counts: Seq<int>,
) -> bool {
    &&& counts.len() == states.len()
    &&& (forall|j: int|
        0 <= j < counts.len() ==> #[trigger] greedy_level_ok(states, dollar, s, counts, j))
    &&& (dollar ==> counts_pos(counts, counts.len() as int) == s.len())
}

/// The runs of a greedy decomposition from level `j` onward consume the
/// input from run `j`'s start to the decomposition's total.
pub proof fn lemma_counts_span(
    states: Seq<StateModel>,
    dollar: bool,
    s: Seq<char>,
    counts: Seq<int>,
    j: int,
)
    requires
        greedy_decomposition(states, dollar, s, counts),
        0 <= j <= counts.len(),
    ensures
        states_span(
            states.skip(j),
            s,
            counts_pos(counts, j),
            counts_pos(counts, counts.len() as int),
        ),
    decreases counts.len() - j,
{
    let total = counts_pos(counts, counts.len() as int);
    if j == counts.len() {
        assert(states.skip(j).len() == 0);
    } else {
        lemma_counts_span(states, dollar, s, counts, j + 1);
        assert(greedy_level_ok(states, dollar, s, counts, j));
        assert(counts_pos(counts, j + 1) == counts_pos(counts, j) + counts[j]);
        assert(states.skip(j)[0] == states[j]);
        assert(states.skip(j).skip(1) =~= states.skip(j + 1));
        assert(span_step(states.skip(j), s, counts_pos(counts, j), total, counts[j]));
        lemma_span_unfold(states.skip(j), s, counts_pos(counts, j), total);
    }
}

/// Two greedy decompositions agree from level `j` on, once they agree
/// before it.
proof fn lemma_greedy_unique_from(
    states: Seq<StateModel>,
    dollar: bool,
    s: Seq<char>,
    c1: Seq<int>,
    c2: Seq<int>,
    j: int,
)
    requires
        greedy_decomposition(states, dollar, s, c1),
        greedy_decomposition(states, dollar, s, c2),
        0 <= j <= c1.len(),
        forall|l: int| 0 <= l < j ==> c1[l] == c2[l],
    ensures
        forall|l: int| 0 <= l < c1.len() ==> c1[l] == c2[l],
    decreases c1.len() - j,
{
    if j < c1.len() {
        lemma_counts_pos_agree(c1, c2, j);
        let p = counts_pos(c1, j);
        assert(greedy_level_ok(states, dollar, s, c1, j));
        assert(greedy_level_ok(states, dollar, s, c2, j));
        if c1[j] < c2[j] {
            lemma_counts_span(states, dollar, s, c2, j + 1);
            assert(tail_witness(
                states,
                dollar,
                s,
                j + 1,
                counts_pos(c2, j + 1),
                counts_pos(c2, c2.len() as int),
            ));
            assert(counts_pos(c2, j + 1) == p + c2[j]);
            assert(run_ok(states[j].val, s, p, c2[j]));
            assert(false);
        }
        if c2[j] < c1[j] {
            lemma_counts_span(states, dollar, s, c1, j + 1);
            assert(tail_witness(
                states,
                dollar,
                s,
                j + 1,
                counts_pos(c1, j + 1),
                counts_pos(c1, c1.len() as int),
            ));
            assert(counts_pos(c1, j + 1) == p + c1[j]);
            assert(run_ok(states[j].val, s, p, c1[j]));
            assert(false);
        }
        lemma_greedy_unique_from(states, dollar, s, c1, c2, j + 1);
    }
}

/// A pattern part admits at most one greedy decomposition of an input line:
/// together with the matcher's contract, the reported span is a pure
/// function of the part and the line.
pub proof fn lemma_greedy_unique(
    states: Seq<StateModel>,
    dollar: bool,
    s: Seq<char>,
    c1: Seq<int>,
    c2: Seq<int>,
)
    requires
        greedy_decomposition(states, dollar, s, c1),
        greedy_decomposition(states, dollar, s, c2),
    ensures
        c1 == c2,
{
    lemma_greedy_unique_from(states, dollar, s, c1, c2, 0);
    assert(c1 =~= c2);
}

/// The run lengths a history stack records, as a decomposition.
pub open spec fn counts_of(stack: Seq<EvaluatedStep>) -> Seq<int> {
    stack.map_values(|e: EvaluatedStep| e.match_size as int)
}

/// The positions of the recorded runs are the stack's prefix sums.
pub proof fn lemma_counts_of_pos(stack: Seq<EvaluatedStep>, j: int)
    requires
        0 <= j <= stack.len(),
    ensures
        counts_pos(counts_of(stack), j) == prefix_sum(stack, j),
    decreases j,
{
    if j > 0 {
        lemma_counts_of_pos(stack, j - 1);
        if j <= stack.len() {
            assert(counts_of(stack)[j - 1] == stack[j - 1].match_size);
        }
    }
}

} // verus!
