//! A small regular-expression engine.
//!
//! A textual pattern is compiled into a [`regex::Regex`]: a sequence of
//! alternatives, each an ordered list of match states.  A backtracking
//! matcher then decides whether the pattern occurs in an ASCII input line
//! and reports the matched span.
//!
//! The supported pattern grammar covers literals, the `.` wildcard, greedy
//! quantifiers (`*`, `+`, `?`), bounded repetition (`{m,n}`), bracket
//! expressions (ranges and negation), POSIX character classes such as
//! `[[:digit:]]`, alternation (`|`), and the line anchors `^` and `$`.

pub mod bracket_expression;
pub mod error;
pub mod evaluated_state;
pub mod match_result;
pub mod regex;
pub mod regex_class;
pub mod regex_part;
pub mod regex_rep;
pub mod regex_state;
pub mod regex_value;
