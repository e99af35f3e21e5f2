//! The pattern compiler and the compiled pattern.
//!
//! A pattern text is split on every unescaped `|`; each alternative is then
//! scanned left to right into a [`RegexPart`].  The spec functions in this
//! module define the compilation result exactly, so that compiling is a pure
//! function of the pattern text; [`Regex::new`] is proved to return exactly
//! that result.

use vstd::prelude::*;
use crate::error::RegexError;
use crate::match_result::MatchResult;
use crate::regex_class::{class_of_name, str_to_chars, RegexClass};
use vstd::arithmetic::div_mod::lemma_fundamental_div_mod;
use crate::regex_part::{counts_pos, greedy_decomposition, models_of, part_matches, PartModel, RegexPart};
use crate::regex_rep::RegexRep;
use crate::regex_state::{wildcard_any, RegexState, StateModel};
use crate::regex_value::{RegexVal, ValModel};

verus! {

// ---------------------------------------------------------------------------
// Splitting the pattern on unescaped `|`
// ---------------------------------------------------------------------------
/// Scans the pattern from position `i`, cutting a new alternative at every
/// unescaped `|`; a backslash keeps the character after it (and itself) in
/// the current alternative.  `cur` is the alternative being collected and
/// `acc` the finished ones.
pub open spec fn split_from(
    chars: Seq<char>,
    i: int,
    cur: Seq<char>,
    acc: Seq<Seq<char>>,
) -> Seq<Seq<char>>
    decreases chars.len() - i,
{
    if i < 0 || i >= chars.len() {
        acc.push(cur)
    } else if chars[i] == '\\' && i + 1 < chars.len() {
        split_from(chars, i + 2, cur + chars.subrange(i, i + 2), acc)
    } else if chars[i] == '|' {
        split_from(chars, i + 1, Seq::empty(), acc.push(cur))
    } else {
        split_from(chars, i + 1, cur.push(chars[i]), acc)
    }
}

/// The alternatives of a pattern text: the text split on every unescaped
/// `|`.
pub open spec fn escape_split(chars: Seq<char>) -> Seq<Seq<char>> {
    split_from(chars, 0, Seq::empty(), Seq::empty())
}

// ---------------------------------------------------------------------------
// Scanning one alternative
// ---------------------------------------------------------------------------
/// Whether a character is an ASCII digit.
pub open spec fn is_digit_char(c: char) -> bool {
    '0' <= c && c <= '9'
}

/// The number the digit characters denote, in base ten.
pub open spec fn digits_val(digits: Seq<char>) -> int
    decreases digits.len(),
{
    if digits.len() == 0 {
        0
    } else {
        digits_val(digits.drop_last()) * 10 + (digits.last() as u32 - 48)
    }
}

/// The repetition bound the digit characters denote, or `None` when the
/// number does not fit a `usize`.
pub open spec fn parse_count(digits: Seq<char>) -> Option<usize> {
    if digits_val(digits) <= usize::MAX {
        Some(digits_val(digits) as usize)
    } else {
        None
    }
}

/// Scans a `{...}` body from position `q`: digits accumulate, a comma moves
/// the accumulated number into the lower bound, `}` (or the end of the
/// alternative) finishes with the accumulated number as the upper bound, and
/// anything else is a compile error.  Returns the two bounds and the
/// position after the body.
pub open spec fn scan_curly(alt: Seq<char>, q: int, min: Option<usize>, digits: Seq<char>) -> Result<
    (Option<usize>, Option<usize>, int),
    RegexError,
>
    decreases alt.len() - q,
{
    if q < 0 || q >= alt.len() {
        Ok(
            (
                min,
                if digits.len() > 0 {
                    parse_count(digits)
                } else {
                    None
                },
                q,
            ),
        )
    } else if alt[q] == '}' {
        Ok(
            (
                min,
                if digits.len() > 0 {
                    parse_count(digits)
                } else {
                    None
                },
                q + 1,
            ),
        )
    } else if alt[q] == ',' {
        if digits.len() > 0 {
            scan_curly(alt, q + 1, parse_count(digits), Seq::empty())
        } else {
            scan_curly(alt, q + 1, min, digits)
        }
    } else if is_digit_char(alt[q]) {
        scan_curly(alt, q + 1, min, digits.push(alt[q]))
    } else {
        Err(RegexError::InvalidRegularExpression)
    }
}

/// The position of the first `]` at or after `from`, or `None` when the
/// bracket is never closed.
pub open spec fn find_close(alt: Seq<char>, from: int) -> Option<int>
    decreases alt.len() - from,
{
    if from < 0 || from >= alt.len() {
        None
    } else if alt[from] == ']' {
        Some(from)
    } else {
        find_close(alt, from + 1)
    }
}

/// Whether a bracket body has the shape of a POSIX class: `[:`...`:` (the
/// body of the outer bracket of `[[:name:]]`, which ends before the first
/// `]`).
pub open spec fn class_shape(body: Seq<char>) -> bool {
    body.len() >= 3 && body[0] == '[' && body[1] == ':' && body[body.len() - 1] == ':'
}

/// The inclusive character range from `lo` to `hi`.
pub open spec fn char_range(lo: char, hi: char) -> Seq<char> {
    Seq::new((hi as int - lo as int + 1) as nat, |i: int| ((lo as int + i) as char))
}

/// The state a bracket body (not a class) compiles to: an optional leading
/// `^` negates; a three-character body with `-` in the middle is an
/// inclusive ASCII range, whose end must not precede its start; anything
/// else is a literal character list.  An empty body emits no state.
pub open spec fn bracket_state(body: Seq<char>) -> Result<Option<StateModel>, RegexError> {
    if body.len() == 0 {
        Ok(None)
    } else {
        let negated = body[0] == '^';
        let rest = if negated {
            body.skip(1)
        } else {
            body
        };
        if rest.len() == 3 && rest[1] == '-' {
            if rest[0] > rest[2] {
                Err(RegexError::InvalidBracketRange)
            } else if rest[2] <= '\x7f' {
                Ok(
                    Some(
                        StateModel {
                            val: ValModel::Bracket { chars: char_range(rest[0], rest[2]), negated },
                            rep: RegexRep::Exact(1),
                        },
                    ),
                )
            } else {
                Ok(
                    Some(
                        StateModel {
                            val: ValModel::Bracket { chars: rest, negated },
                            rep: RegexRep::Exact(1),
                        },
                    ),
                )
            }
        } else {
            Ok(
                Some(
                    StateModel {
                        val: ValModel::Bracket { chars: rest, negated },
                        rep: RegexRep::Exact(1),
                    },
                ),
            )
        }
    }
}

/// The state sequence with the last state's repetition replaced.
pub open spec fn set_last_rep(acc: Seq<StateModel>, rep: RegexRep) -> Seq<StateModel>
    recommends
        acc.len() > 0,
{
    acc.update(acc.len() - 1, StateModel { val: acc.last().val, rep })
}

/// A literal single-character state.
pub open spec fn literal_state(c: char) -> StateModel {
    StateModel { val: ValModel::Literal(c), rep: RegexRep::Exact(1) }
}

/// Scans one alternative from position `i` with the states built so far in
/// `acc`, producing the alternative's compiled part or the first compile
/// error:
/// - a printable character, or any character after `\`, appends a literal;
/// - `.` appends a wildcard;
/// - `*`, `?`, `+` and `{...}` change the last state's repetition and are
///   errors when no state precedes them;
/// - `^` is an error here (it is consumed before scanning starts when it
///   opens the alternative);
/// - `$` must close the alternative and sets its anchor flag;
/// - `[...]` appends a bracket-set or class state (see [`bracket_state`] and
///   [`class_shape`]); an unclosed bracket is an error.
pub open spec fn scan_states(alt: Seq<char>, i: int, acc: Seq<StateModel>) -> Result<
    PartModel,
    RegexError,
>
    decreases alt.len() - i,
{
    if i < 0 {
        Err(RegexError::InvalidRegularExpression)
    } else if i >= alt.len() {
        Ok(PartModel { states: acc, ends_with_dollar: false })
    } else {
        let c = alt[i];
        if c == '.' {
            scan_states(
                alt,
                i + 1,
                acc.push(StateModel { val: ValModel::Wildcard, rep: RegexRep::Exact(1) }),
            )
        } else if c == '*' {
            if acc.len() == 0 {
                Err(RegexError::InvalidRegularExpression)
            } else {
                scan_states(alt, i + 1, set_last_rep(acc, RegexRep::Any))
            }
        } else if c == '?' {
            if acc.len() == 0 {
                Err(RegexError::InvalidRegularExpression)
            } else {
                scan_states(
                    alt,
                    i + 1,
                    set_last_rep(acc, RegexRep::Range { min: Some(0), max: Some(1) }),
                )
            }
        } else if c == '+' {
            if acc.len() == 0 {
                Err(RegexError::InvalidRegularExpression)
            } else {
                scan_states(alt, i + 1, set_last_rep(acc, RegexRep::Range { min: Some(1), max: None }))
            }
        } else if c == '\\' {
            if i + 1 < alt.len() {
                scan_states(alt, i + 2, acc.push(literal_state(alt[i + 1])))
            } else {
                Err(RegexError::InvalidRegularExpression)
            }
        } else if c == '^' {
            Err(RegexError::InvalidRegularExpression)
        } else if c == '$' {
            if i == alt.len() - 1 {
                Ok(PartModel { states: acc, ends_with_dollar: true })
            } else {
                Err(RegexError::InvalidRegularExpression)
            }
        } else if c == '[' {
            match find_close(alt, i + 1) {
                None => Err(RegexError::UnmatchedBracket),
                Some(cl) => {
                    if cl < i + 1 || cl >= alt.len() {
                        Err(RegexError::UnmatchedBracket)
                    } else {
                        let body = alt.subrange(i + 1, cl);
                        if class_shape(body) {
                            if cl + 1 >= alt.len() {
                                Err(RegexError::UnmatchedBracket)
                            } else if alt[cl + 1] != ']' {
                                Err(RegexError::InvalidRegularExpression)
                            } else {
                                match class_of_name(body.skip(1)) {
                                    Some(class) => scan_states(
                                        alt,
                                        cl + 2,
                                        acc.push(
                                            StateModel {
                                                val: ValModel::Class(class),
                                                rep: RegexRep::Exact(1),
                                            },
                                        ),
                                    ),
                                    None => Err(RegexError::InvalidCharacterClassName),
                                }
                            }
                        } else {
                            match bracket_state(body) {
                                Err(e) => Err(e),
                                Ok(None) => scan_states(alt, cl + 1, acc),
                                Ok(Some(st)) => scan_states(alt, cl + 1, acc.push(st)),
                            }
                        }
                    }
                },
            }
        } else if c == '{' {
            match scan_curly(alt, i + 1, None, Seq::empty()) {
                Err(e) => Err(e),
                Ok((mn, mx, i2)) => {
                    if acc.len() == 0 {
                        Err(RegexError::InvalidRegularExpression)
                    } else if i2 <= i || i2 > alt.len() {
                        Err(RegexError::InvalidRegularExpression)
                    } else {
                        scan_states(alt, i2, set_last_rep(acc, RegexRep::Range { min: mn, max: mx }))
                    }
                },
            }
        } else {
            scan_states(alt, i + 1, acc.push(literal_state(c)))
        }
    }
}

/// The compiled part one alternative denotes: when the alternative opens
/// with `^` it is scanned from the next character as anchored; otherwise the
/// implicit search-anywhere state is prepended.
pub open spec fn compile_alt(alt: Seq<char>) -> Result<PartModel, RegexError> {
    if alt.len() > 0 && alt[0] == '^' {
        scan_states(alt, 1, Seq::empty())
    } else {
        scan_states(alt, 0, seq![wildcard_any()])
    }
}

/// Compiles the alternatives from index `t` onward, appending to `acc`; the
/// first compile error aborts the whole compilation.
pub open spec fn compile_parts(alts: Seq<Seq<char>>, t: int, acc: Seq<PartModel>) -> Result<
    Seq<PartModel>,
    RegexError,
>
    decreases alts.len() - t,
{
    if t < 0 || t >= alts.len() {
        Ok(acc)
    } else {
        match compile_alt(alts[t]) {
            Err(e) => Err(e),
            Ok(part) => compile_parts(alts, t + 1, acc.push(part)),
        }
    }
}

/// What a pattern text compiles to: one part per unescaped-`|` alternative,
/// in source order, or the first compile error.
pub open spec fn spec_compile(pattern: Seq<char>) -> Result<Seq<PartModel>, RegexError> {
    compile_parts(escape_split(pattern), 0, Seq::empty())
}

/// Whether some part of a compiled pattern accepts the input line.
pub open spec fn regex_matches(parts: Seq<PartModel>, s: Seq<char>) -> bool {
    exists|i: int|
        0 <= i < parts.len() && #[trigger] part_matches(parts[i].states, parts[i].ends_with_dollar, s)
}

/// Compilation is a pure function of the pattern text: two compilations of
/// the same text yield equal patterns, which therefore produce identical
/// match results on every input line.
pub proof fn lemma_compile_deterministic(
    pattern: Seq<char>,
    r1: Seq<PartModel>,
    r2: Seq<PartModel>,
    s: Seq<char>,
)
    requires
        spec_compile(pattern) == Ok::<Seq<PartModel>, RegexError>(r1),
        spec_compile(pattern) == Ok::<Seq<PartModel>, RegexError>(r2),
    ensures
        r1 == r2,
        regex_matches(r1, s) == regex_matches(r2, s),
{
}

// ---------------------------------------------------------------------------
// Executable helpers
// ---------------------------------------------------------------------------
/// The characters of `v` between two positions, copied out.
fn copy_range(v: &Vec<char>, from: usize, to: usize) -> (r: Vec<char>)
    requires
        from <= to <= v@.len(),
    ensures
        r@ == v@.subrange(from as int, to as int),
{
    let mut out: Vec<char> = Vec::new();
    let mut i = from;
    while i < to
        invariant
            from <= i <= to <= v@.len(),
            out@ == v@.subrange(from as int, i as int),
        decreases to - i,
    {
        out.push(v[i]);
        i = i + 1;
        proof {
            assert(out@ =~= v@.subrange(from as int, i as int));
        }
    }
    out
}

/// The position of the first `]` at or after `from`, or `None`.
fn find_close_exec(alt: &Vec<char>, from: usize) -> (r: Option<usize>)
    ensures
        match r {
            Some(cl) => find_close(alt@, from as int) == Some(cl as int) && from <= cl
                < alt@.len(),
            None => find_close(alt@, from as int) is None,
        },
{
    let n = alt.len();
    let mut q = from;
    loop
        invariant_except_break
            from <= q,
            n == alt@.len(),
            find_close(alt@, from as int) == find_close(alt@, q as int),
        decreases n - q,
    {
        if q >= n {
            return None;
        }
        if alt[q] == ']' {
            return Some(q);
        }
        q = q + 1;
    }
}

/// The inclusive range of ASCII characters from `lo` to `hi`, collected.
fn char_range_exec(lo: char, hi: char) -> (r: Vec<char>)
    requires
        lo <= hi,
        hi <= '\x7f',
    ensures
        r@ == char_range(lo, hi),
{
    let lo8 = lo as u8;
    let hi8 = hi as u8;
    proof {
        assert(lo8 == lo as int && hi8 == hi as int);
    }
    let mut out: Vec<char> = Vec::new();
    let mut b = lo8;
    while b <= hi8
        invariant
            lo8 == lo as int,
            hi8 == hi as int,
            hi8 <= 0x7f,
            lo8 <= b <= hi8 + 1,
            out@.len() == b - lo8,
            forall|i: int| 0 <= i < out@.len() ==> out@[i] == (((lo as int) + i) as char),
        decreases hi8 + 1 - b,
    {
        out.push(b as char);
        b = b + 1;
    }
    proof {
        assert(out@ =~= char_range(lo, hi));
    }
    out
}

/// The denoted number only grows as digits are appended.
proof fn lemma_digits_val_prefix(digits: Seq<char>, i: int)
    requires
        0 <= i <= digits.len(),
        forall|k: int| 0 <= k < digits.len() ==> is_digit_char(#[trigger] digits[k]),
    ensures
        0 <= digits_val(digits.take(i)) <= digits_val(digits),
    decreases digits.len() - i,
{
    if i == digits.len() {
        assert(digits.take(i) =~= digits);
        lemma_digits_val_nonneg(digits);
    } else {
        lemma_digits_val_prefix(digits, i + 1);
        let a = digits_val(digits.take(i));
        let b = digits_val(digits.take(i + 1));
        assert(digits.take(i + 1).drop_last() =~= digits.take(i));
        lemma_digits_val_nonneg(digits.take(i));
        assert(b == a * 10 + (digits[i] as u32 - 48));
        assert(a <= a * 10) by (nonlinear_arith)
            requires
                a >= 0,
        ;
    }
}

/// A digit string denotes a nonnegative number.
proof fn lemma_digits_val_nonneg(digits: Seq<char>)
    requires
        forall|k: int| 0 <= k < digits.len() ==> is_digit_char(#[trigger] digits[k]),
    ensures
        digits_val(digits) >= 0,
    decreases digits.len(),
{
    if digits.len() > 0 {
        lemma_digits_val_nonneg(digits.drop_last());
        let a = digits_val(digits.drop_last());
        assert(a * 10 >= 0) by (nonlinear_arith)
            requires
                a >= 0,
        ;
    }
}

/// Parses a digit string into a repetition bound, with `None` when the
/// number does not fit a `usize`.
fn parse_count_exec(digits: &Vec<char>) -> (r: Option<usize>)
    requires
        forall|k: int| 0 <= k < digits@.len() ==> is_digit_char(#[trigger] digits@[k]),
    ensures
        r == parse_count(digits@),
{
    let n = digits.len();
    let lim: usize = usize::MAX / 10;
    let rem: usize = usize::MAX % 10;
    proof {
        lemma_fundamental_div_mod(usize::MAX as int, 10);
    }
    let mut acc: usize = 0;
    let mut i: usize = 0;
    while i < n
        invariant
            i <= n,
            n == digits@.len(),
            forall|k: int| 0 <= k < digits@.len() ==> is_digit_char(#[trigger] digits@[k]),
            acc == digits_val(digits@.take(i as int)),
            lim == usize::MAX / 10,
            rem == usize::MAX % 10,
            usize::MAX == 10 * lim + rem,
            rem < 10,
        decreases n - i,
    {
        let d_u32 = (digits[i] as u32) - 48;
        let d = d_u32 as usize;
        proof {
            assert(digits@.take(i as int + 1).drop_last() =~= digits@.take(i as int));
            assert(digits_val(digits@.take(i as int + 1)) == acc * 10 + d);
        }
        if acc > lim || (acc == lim && d > rem) {
            proof {
                assert(digits_val(digits@.take(i as int + 1)) > usize::MAX);
                lemma_digits_val_prefix(digits@, i as int + 1);
            }
            return None;
        }
        acc = acc * 10 + d;
        i = i + 1;
    }
    proof {
        assert(digits@.take(n as int) =~= digits@);
    }
    Some(acc)
}

/// Splits the pattern characters on every unescaped `|`.
fn split_alternatives(chars: &Vec<char>) -> (r: Vec<Vec<char>>)
    ensures
        r@.map_values(|v: Vec<char>| v@) == escape_split(chars@),
{
    let n = chars.len();
    let mut out: Vec<Vec<char>> = Vec::new();
    let mut cur: Vec<char> = Vec::new();
    let mut i: usize = 0;
    proof {
        assert(out@.map_values(|v: Vec<char>| v@) =~= Seq::<Seq<char>>::empty());
    }
    while i < n
        invariant
            i <= n,
            n == chars@.len(),
            escape_split(chars@) == split_from(
                chars@,
                i as int,
                cur@,
                out@.map_values(|v: Vec<char>| v@),
            ),
        decreases n - i,
    {
        let ghost cur0 = cur@;
        let ghost outm = out@.map_values(|v: Vec<char>| v@);
        let c = chars[i];
        if c == '\\' && i + 1 < n {
            cur.push(c);
            cur.push(chars[i + 1]);
            proof {
                assert(cur@ =~= cur0 + chars@.subrange(i as int, i as int + 2));
            }
            i = i + 2;
        } else if c == '|' {
            out.push(cur);
            cur = Vec::new();
            proof {
                assert(out@.map_values(|v: Vec<char>| v@) =~= outm.push(cur0));
                assert(cur@ =~= Seq::<char>::empty());
            }
            i = i + 1;
        } else {
            cur.push(c);
            proof {
                assert(cur@ =~= cur0.push(c));
            }
            i = i + 1;
        }
    }
    let ghost outm = out@.map_values(|v: Vec<char>| v@);
    let ghost last = cur@;
    out.push(cur);
    proof {
        assert(out@.map_values(|v: Vec<char>| v@) =~= outm.push(last));
    }
    out
}

/// Replaces the repetition of the last state in the sequence.
fn set_last(states: &mut Vec<RegexState>, rep: RegexRep)
    requires
        old(states)@.len() > 0,
    ensures
        final(states)@.len() == old(states)@.len(),
        models_of(final(states)@) == set_last_rep(models_of(old(states)@), rep),
{
    let ghost before = models_of(old(states)@);
    let st = states.pop().unwrap();
    states.push(RegexState { value: st.value, repetition: rep });
    proof {
        assert(models_of(states@) =~= set_last_rep(before, rep));
    }
}

/// Scans a `{...}` body starting right after the `{`, returning the two
/// optional bounds and the position after the body.
fn parse_range_repetition(alt: &Vec<char>, start: usize) -> (r: Result<
    (Option<usize>, Option<usize>, usize),
    RegexError,
>)
    requires
        start <= alt@.len(),
    ensures
        match r {
            Ok((mn, mx, i2)) => scan_curly(alt@, start as int, None, Seq::empty()) == Ok::<
                (Option<usize>, Option<usize>, int),
                RegexError,
            >((mn, mx, i2 as int)) && start <= i2 <= alt@.len(),
            Err(e) => scan_curly(alt@, start as int, None, Seq::empty()) == Err::<
                (Option<usize>, Option<usize>, int),
                RegexError,
            >(e),
        },
{
    let n = alt.len();
    let mut q = start;
    let mut min: Option<usize> = None;
    let mut digits: Vec<char> = Vec::new();
    loop
        invariant_except_break
            start <= q <= n,
            n == alt@.len(),
            forall|k: int| 0 <= k < digits@.len() ==> is_digit_char(#[trigger] digits@[k]),
            scan_curly(alt@, start as int, None, Seq::empty()) == scan_curly(
                alt@,
                q as int,
                min,
                digits@,
            ),
        decreases n - q,
    {
        if q >= n {
            let mx = if digits.len() > 0 {
                parse_count_exec(&digits)
            } else {
                None
            };
            return Ok((min, mx, q));
        }
        let c = alt[q];
        if c == '}' {
            let mx = if digits.len() > 0 {
                parse_count_exec(&digits)
            } else {
                None
            };
            return Ok((min, mx, q + 1));
        }
        if c == ',' {
            if digits.len() > 0 {
                min = parse_count_exec(&digits);
                digits = Vec::new();
                proof {
                    assert(digits@ =~= Seq::<char>::empty());
                }
            }
            q = q + 1;
        } else if '0' <= c && c <= '9' {
            digits.push(c);
            q = q + 1;
        } else {
            return Err(RegexError::InvalidRegularExpression);
        }
    }
}

/// Whether a bracket body has the `[:`...`:` shape of a POSIX class.
fn is_class_shape(body: &Vec<char>) -> (r: bool)
    ensures
        r == class_shape(body@),
{
    body.len() >= 3 && body[0] == '[' && body[1] == ':' && body[body.len() - 1] == ':'
}

/// Compiles a bracket body that is not a POSIX class; an empty body emits no
/// state (see [`bracket_state`]).
fn parse_bracket_expression(body: &Vec<char>) -> (r: Result<Option<RegexState>, RegexError>)
    ensures
        match r {
            Ok(Some(st)) => bracket_state(body@) == Ok::<Option<StateModel>, RegexError>(
                Some(st@),
            ),
            Ok(None) => bracket_state(body@) == Ok::<Option<StateModel>, RegexError>(None),
            Err(e) => bracket_state(body@) == Err::<Option<StateModel>, RegexError>(e),
        },
{
    if body.len() == 0 {
        return Ok(None);
    }
    let is_negated = body[0] == '^';
    let start: usize = if is_negated {
        1
    } else {
        0
    };
    proof {
        assert(body@.skip(start as int) == if is_negated {
            body@.skip(1)
        } else {
            body@
        }) by {
            assert(body@.skip(0) =~= body@);
        }
    }
    if body.len() - start == 3 && body[start + 1] == '-' {
        let lo = body[start];
        let hi = body[start + 2];
        proof {
            assert(body@.skip(start as int)[0] == lo);
            assert(body@.skip(start as int)[1] == body@[start as int + 1]);
            assert(body@.skip(start as int)[2] == hi);
        }
        if lo > hi {
            return Err(RegexError::InvalidBracketRange);
        }
        if hi <= '\x7f' {
            let chars = char_range_exec(lo, hi);
            return Ok(
                Some(
                    RegexState {
                        value: RegexVal::BracketExpression { chars, is_negated },
                        repetition: RegexRep::Exact(1),
                    },
                ),
            );
        }
    }
    let chars = copy_range(body, start, body.len());
    proof {
        assert(chars@ =~= body@.skip(start as int));
    }
    Ok(
        Some(
            RegexState {
                value: RegexVal::BracketExpression { chars, is_negated },
                repetition: RegexRep::Exact(1),
            },
        ),
    )
}

/// Compiles a class name (colons included) into its match state.
fn parse_character_class(name: &Vec<char>) -> (r: Result<RegexState, RegexError>)
    ensures
        match r {
            Ok(st) => class_of_name(name@) is Some && st@ == (StateModel {
                val: ValModel::Class(class_of_name(name@).unwrap()),
                rep: RegexRep::Exact(1),
            }),
            Err(e) => class_of_name(name@) is None && e == RegexError::InvalidCharacterClassName,
        },
{
    match crate::regex_class::class_from_chars(name) {
        Ok(class) => Ok(RegexState { value: RegexVal::Class(class), repetition: RegexRep::Exact(1) }),
        Err(e) => Err(e),
    }
}

/// Appends a state, extending the model sequence by its model.
fn push_state(states: &mut Vec<RegexState>, st: RegexState)
    ensures
        final(states)@.len() == old(states)@.len() + 1,
        models_of(final(states)@) == models_of(old(states)@).push(st@),
{
    let ghost stm = st@;
    let ghost before = models_of(states@);
    states.push(st);
    proof {
        assert(models_of(states@) =~= before.push(stm));
    }
}

/// Compiles one alternative into a pattern part, following [`compile_alt`].
#[verifier::rlimit(100)]
fn compile_alternative(alt: &Vec<char>) -> (r: Result<RegexPart, RegexError>)
    ensures
        match r {
            Ok(part) => compile_alt(alt@) == Ok::<PartModel, RegexError>(part@),
            Err(e) => compile_alt(alt@) == Err::<PartModel, RegexError>(e),
        },
{
    let n = alt.len();
    let mut states: Vec<RegexState> = Vec::new();
    let mut i: usize = 0;
    if n > 0 && alt[0] == '^' {
        i = 1;
    } else {
        states.push(RegexState { value: RegexVal::Wildcard, repetition: RegexRep::Any });
    }
    proof {
        assert(models_of(states@) =~= if alt@.len() > 0 && alt@[0] == '^' {
            Seq::<StateModel>::empty()
        } else {
            seq![wildcard_any()]
        });
    }
    loop
        invariant_except_break
            i <= n,
            n == alt@.len(),
            compile_alt(alt@) == scan_states(alt@, i as int, models_of(states@)),
        decreases n - i,
    {
        if i >= n {
            let part = RegexPart { states, ends_with_dollar: false };
            proof {
                assert(part@.states =~= models_of(part.states@));
            }
            return Ok(part);
        }
        let ghost m0 = models_of(states@);
        let c = alt[i];
        if c == '.' {
            push_state(
                &mut states,
                RegexState { value: RegexVal::Wildcard, repetition: RegexRep::Exact(1) },
            );
            i = i + 1;
        } else if c == '*' {
            if states.len() == 0 {
                return Err(RegexError::InvalidRegularExpression);
            }
            set_last(&mut states, RegexRep::Any);
            i = i + 1;
        } else if c == '?' {
            if states.len() == 0 {
                return Err(RegexError::InvalidRegularExpression);
            }
            set_last(&mut states, RegexRep::Range { min: Some(0), max: Some(1) });
            i = i + 1;
        } else if c == '+' {
            if states.len() == 0 {
                return Err(RegexError::InvalidRegularExpression);
            }
            set_last(&mut states, RegexRep::Range { min: Some(1), max: None });
            i = i + 1;
        } else if c == '\\' {
            if i + 1 < n {
                let lit = alt[i + 1];
                push_state(
                    &mut states,
                    RegexState { value: RegexVal::Literal(lit), repetition: RegexRep::Exact(1) },
                );
                i = i + 2;
            } else {
                return Err(RegexError::InvalidRegularExpression);
            }
        } else if c == '^' {
            return Err(RegexError::InvalidRegularExpression);
        } else if c == '$' {
            if i == n - 1 {
                let part = RegexPart { states, ends_with_dollar: true };
                proof {
                    assert(part@.states =~= models_of(part.states@));
                }
                return Ok(part);
            }
            return Err(RegexError::InvalidRegularExpression);
        } else if c == '[' {
            match find_close_exec(alt, i + 1) {
                None => {
                    return Err(RegexError::UnmatchedBracket);
                },
                Some(cl) => {
                    let body = copy_range(alt, i + 1, cl);
                    proof {
                        assert(body@ == alt@.subrange(i as int + 1, cl as int));
                    }
                    if is_class_shape(&body) {
                        if cl + 1 >= n {
                            return Err(RegexError::UnmatchedBracket);
                        }
                        if alt[cl + 1] != ']' {
                            return Err(RegexError::InvalidRegularExpression);
                        }
                        let name = copy_range(&body, 1, body.len());
                        proof {
                            assert(name@ =~= body@.skip(1));
                        }
                        match parse_character_class(&name) {
                            Ok(st) => {
                                push_state(&mut states, st);
                                i = cl + 2;
                            },
                            Err(e) => {
                                return Err(e);
                            },
                        }
                    } else {
                        match parse_bracket_expression(&body) {
                            Err(e) => {
                                return Err(e);
                            },
                            Ok(None) => {
                                i = cl + 1;
                            },
                            Ok(Some(st)) => {
                                push_state(&mut states, st);
                                i = cl + 1;
                            },
                        }
                    }
                },
            }
        } else if c == '{' {
            match parse_range_repetition(alt, i + 1) {
                Err(e) => {
                    return Err(e);
                },
                Ok((mn, mx, i2)) => {
                    if states.len() == 0 {
                        return Err(RegexError::InvalidRegularExpression);
                    }
                    set_last(&mut states, RegexRep::Range { min: mn, max: mx });
                    i = i2;
                },
            }
        } else {
            push_state(
                &mut states,
                RegexState { value: RegexVal::Literal(c), repetition: RegexRep::Exact(1) },
            );
            i = i + 1;
        }
    }
}



/// A compiled regular expression: one pattern part per `|`-separated
/// alternative, in source order.  Immutable once built; one compiled value
/// can be matched against many input lines.
#[derive(Debug)]
pub struct Regex {
    pub parts: Vec<RegexPart>,
}

impl View for Regex {
    type V = Seq<PartModel>;

    open spec fn view(&self) -> Seq<PartModel> {
        self.parts@.map_values(|p: RegexPart| p@)
    }
}

/// The index of the first part that accepts the line, scanning from `t`.
pub open spec fn first_matching(parts: Seq<PartModel>, s: Seq<char>, t: int) -> Option<int>
    decreases parts.len() - t,
{
    if t < 0 || t >= parts.len() {
        None
    } else if part_matches(parts[t].states, parts[t].ends_with_dollar, s) {
        Some(t)
    } else {
        first_matching(parts, s, t + 1)
    }
}

/// Some part accepts the line exactly when scanning finds a first one.
pub proof fn lemma_first_matching(parts: Seq<PartModel>, s: Seq<char>, t: int)
    requires
        0 <= t <= parts.len(),
    ensures
        first_matching(parts, s, t) is Some <==> exists|i: int|
            t <= i < parts.len() && #[trigger] part_matches(
                parts[i].states,
                parts[i].ends_with_dollar,
                s,
            ),
        match first_matching(parts, s, t) {
            Some(i) => t <= i < parts.len() && part_matches(
                parts[i].states,
                parts[i].ends_with_dollar,
                s,
            ),
            None => true,
        },
    decreases parts.len() - t,
{
    if t < parts.len() {
        lemma_first_matching(parts, s, t + 1);
    }
}

impl Regex {
    /// Compiles a pattern text.
    ///
    /// The result is exactly what [`spec_compile`] assigns to the text:
    /// compilation is a pure function of the pattern, every compile error of
    /// the grammar is reported, and on success the returned pattern's parts
    /// are pinned alternative by alternative.
    pub fn new(expression: &str) -> (r: Result<Regex, RegexError>)
        ensures
            match r {
                Ok(regex) => spec_compile(expression@) == Ok::<Seq<PartModel>, RegexError>(
                    regex@,
                ),
                Err(e) => spec_compile(expression@) == Err::<Seq<PartModel>, RegexError>(e),
            },
    {
        let chars = str_to_chars(expression);
        let alts = split_alternatives(&chars);
        let ghost altsm = escape_split(expression@);
        let total = alts.len();
        let mut parts: Vec<RegexPart> = Vec::new();
        let mut t: usize = 0;
        proof {
            assert(parts@.map_values(|p: RegexPart| p@) =~= Seq::<PartModel>::empty());
        }
        loop
            invariant_except_break
                t <= total,
                total == alts@.len(),
                altsm == escape_split(expression@),
                alts@.map_values(|v: Vec<char>| v@) == altsm,
                spec_compile(expression@) == compile_parts(
                    altsm,
                    t as int,
                    parts@.map_values(|p: RegexPart| p@),
                ),
            decreases total - t,
        {
            if t >= total {
                let regex = Regex { parts };
                return Ok(regex);
            }
            let ghost pm0 = parts@.map_values(|p: RegexPart| p@);
            proof {
                assert(alts@.map_values(|v: Vec<char>| v@)[t as int] == alts@[t as int]@);
            }
            match compile_alternative(&alts[t]) {
                Err(e) => {
                    return Err(e);
                },
                Ok(part) => {
                    let ghost partm = part@;
                    parts.push(part);
                    proof {
                        assert(parts@.map_values(|p: RegexPart| p@) =~= pm0.push(partm));
                    }
                    t = t + 1;
                },
            }
        }
    }

    /// Matches an input line, reporting the span of the first matching
    /// alternative.
    ///
    /// Returns `Err` exactly on non-ASCII input.  On ASCII input the result
    /// is `Some` if and only if some alternative accepts the line
    /// ([`regex_matches`]); the span returned belongs to the first accepting
    /// alternative, which itself matches it (see
    /// [`crate::regex_part::reported_span_ok`]).
    pub fn find_match(&self, value: &str) -> (r: Result<Option<MatchResult>, RegexError>)
        ensures
            !value.is_ascii() ==> r == Result::<Option<MatchResult>, RegexError>::Err(
                RegexError::NonAsciiInput,
            ),
            value.is_ascii() ==> match r {
                Ok(Some(m)) => {
                    let idx = first_matching(self@, value@, 0).unwrap();
                    &&& regex_matches(self@, value@)
                    &&& first_matching(self@, value@, 0) is Some
                    &&& m.start <= m.end <= value@.len()
                    &&& m.matched@ == value@.subrange(m.start as int, m.end as int)
                    &&& (self@[idx].ends_with_dollar ==> m.end == value@.len())
                    &&& crate::regex_part::reported_span_ok(
                        self@[idx].states,
                        value@,
                        m.start as int,
                        m.end as int,
                    )
                    &&& exists|counts: Seq<int>|
                        {
                            &&& #[trigger] greedy_decomposition(
                                self@[idx].states,
                                self@[idx].ends_with_dollar,
                                value@,
                                counts,
                            )
                            &&& m.end == counts_pos(counts, counts.len() as int)
                            &&& m.start == if self@[idx].states.len() > 0 && self@[idx].states[0]
                                == wildcard_any() {
                                counts[0]
                            } else {
                                0
                            }
                        }
                },
                Ok(None) => !regex_matches(self@, value@),
                Err(_) => false,
            },
    {
        if !value.is_ascii() {
            return Err(RegexError::NonAsciiInput);
        }
        let ghost s = value@;
        let total = self.parts.len();
        let mut t: usize = 0;
        loop
            invariant_except_break
                value.is_ascii(),
                s == value@,
                t <= total,
                total == self.parts@.len(),
                self@.len() == total,
                first_matching(self@, s, 0) == first_matching(self@, s, t as int),
            decreases total - t,
        {
            if t >= total {
                proof {
                    lemma_first_matching(self@, s, 0);
                }
                return Ok(None);
            }
            proof {
                assert(self@[t as int] == self.parts@[t as int]@);
            }
            match self.parts[t].match_single_expression(value) {
                Err(e) => {
                    return Err(e);
                },
                Ok(Some(m)) => {
                    proof {
                        lemma_first_matching(self@, s, 0);
                        assert(regex_matches(self@, s)) by {
                            assert(part_matches(
                                self@[t as int].states,
                                self@[t as int].ends_with_dollar,
                                s,
                            ));
                        }
                    }
                    return Ok(Some(m));
                },
                Ok(None) => {
                    t = t + 1;
                },
            }
        }
    }

    /// Matches an input line, reporting only success or failure.
    ///
    /// Returns `Err` exactly on non-ASCII input; on ASCII input the result
    /// is `Ok(true)` if and only if some alternative accepts the line.
    pub fn match_expression(&self, value: &str) -> (r: Result<bool, RegexError>)
        ensures
            !value.is_ascii() ==> r == Result::<bool, RegexError>::Err(RegexError::NonAsciiInput),
            value.is_ascii() ==> r == Result::<bool, RegexError>::Ok(
                regex_matches(self@, value@),
            ),
    {
        match self.find_match(value) {
            Ok(Some(_)) => Ok(true),
            Ok(None) => Ok(false),
            Err(e) => Err(e),
        }
    }
}

} // verus!
