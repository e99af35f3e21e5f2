//! Tests for the engine's edge cases: anchors, errors, spans, compilation
//! purity, and the completeness of backtracking.
//!
//! One deliberate choice is recorded here: backtracking is complete.  A
//! greedy run recorded for a bounded repetition can be undone one character
//! at a time when a later state fails, whatever the repetition's bounds, so
//! a match is found whenever one exists.

use grep_rustico::error::RegexError;
use grep_rustico::match_result::MatchResult;
use grep_rustico::regex::Regex;
use grep_rustico::regex_class::RegexClass;
use grep_rustico::regex_rep::RegexRep;
use grep_rustico::regex_state::RegexState;
use grep_rustico::regex_value::RegexVal;

#[test]
fn test_anchor_scenarios() {
    assert_eq!(Regex::new("^a").unwrap().match_expression("a"), Ok(true));
    assert_eq!(Regex::new("^a").unwrap().match_expression("ba"), Ok(false));
    assert_eq!(Regex::new("a$").unwrap().match_expression("ba"), Ok(true));
    assert_eq!(Regex::new("ab$").unwrap().match_expression("ba"), Ok(false));
}

#[test]
fn test_bracket_set_scenarios() {
    assert_eq!(Regex::new("[a-e]").unwrap().match_expression("c"), Ok(true));
    assert_eq!(Regex::new("[a-e]").unwrap().match_expression("A"), Ok(false));
    assert_eq!(Regex::new("a[^abc]bc").unwrap().match_expression("aebc"), Ok(true));
    assert_eq!(Regex::new("a[^abc]bc").unwrap().match_expression("aabc"), Ok(false));
}

#[test]
fn test_invalid_bracket_range_error() {
    assert_eq!(Regex::new("[e-a]").unwrap_err(), RegexError::InvalidBracketRange);
}

#[test]
fn test_non_ascii_input_error() {
    let regex = Regex::new("a").unwrap();
    assert_eq!(regex.match_expression("héllo"), Err(RegexError::NonAsciiInput));
}

#[test]
fn test_non_ascii_does_not_poison_pattern() {
    let regex = Regex::new("a").unwrap();
    assert_eq!(regex.match_expression("héllo"), Err(RegexError::NonAsciiInput));
    assert_eq!(regex.match_expression("banana"), Ok(true));
    assert_eq!(regex.match_expression("zzz"), Ok(false));
}

#[test]
fn test_unmatched_bracket_error() {
    assert_eq!(Regex::new("[abc").unwrap_err(), RegexError::UnmatchedBracket);
    assert_eq!(Regex::new("a[^x").unwrap_err(), RegexError::UnmatchedBracket);
}

#[test]
fn test_invalid_class_name_error() {
    assert_eq!(
        Regex::new("[[:foo:]]").unwrap_err(),
        RegexError::InvalidCharacterClassName
    );
}

#[test]
fn test_invalid_regular_expression_errors() {
    // in an unanchored alternative a leading quantifier applies to the
    // implicit search-anywhere state, so only anchored alternatives can
    // start with one
    assert_eq!(Regex::new("^*ab").unwrap_err(), RegexError::InvalidRegularExpression);
    assert_eq!(Regex::new("^+ab").unwrap_err(), RegexError::InvalidRegularExpression);
    assert_eq!(Regex::new("^?ab").unwrap_err(), RegexError::InvalidRegularExpression);
    assert_eq!(Regex::new("^a{2}|^{3}b").unwrap_err(), RegexError::InvalidRegularExpression);
    assert_eq!(Regex::new("a^b").unwrap_err(), RegexError::InvalidRegularExpression);
    assert_eq!(Regex::new("a$b").unwrap_err(), RegexError::InvalidRegularExpression);
    assert_eq!(Regex::new("a{x}").unwrap_err(), RegexError::InvalidRegularExpression);
    assert_eq!(Regex::new("ab\\").unwrap_err(), RegexError::InvalidRegularExpression);
}

#[test]
fn test_compile_is_pure() {
    let inputs = ["b", "ab", "aaab", "aa", "", "xbx", "ba"];
    let first = Regex::new("a*b|c$").unwrap();
    let second = Regex::new("a*b|c$").unwrap();
    for input in inputs {
        assert_eq!(first.match_expression(input), second.match_expression(input));
    }
}

#[test]
fn test_escaped_metacharacters() {
    assert_eq!(Regex::new("a\\*b").unwrap().match_expression("a*b"), Ok(true));
    assert_eq!(Regex::new("a\\*b").unwrap().match_expression("aab"), Ok(false));
    assert_eq!(Regex::new("a\\|b").unwrap().match_expression("a|b"), Ok(true));
    assert_eq!(Regex::new("a\\|b").unwrap().match_expression("a"), Ok(false));
    assert_eq!(Regex::new("a\\$").unwrap().match_expression("a$b"), Ok(true));
}

#[test]
fn test_empty_bracket_emits_nothing() {
    assert_eq!(Regex::new("a[]b").unwrap().match_expression("ab"), Ok(true));
    assert_eq!(Regex::new("[]").unwrap().match_expression("x"), Ok(true));
}

#[test]
fn test_negated_empty_bracket_matches_any() {
    assert_eq!(Regex::new("a[^]b").unwrap().match_expression("axb"), Ok(true));
    assert_eq!(Regex::new("a[^]b").unwrap().match_expression("ab"), Ok(false));
}

#[test]
fn test_backtracking_is_complete() {
    // the bounded run of two characters must be shortened to one so that the
    // trailing literal states can consume the rest
    assert_eq!(Regex::new("a{1,3}ab").unwrap().match_expression("aab"), Ok(true));
    // the run cannot be dropped altogether: a match that skips the
    // repetition entirely is not accepted
    assert_eq!(Regex::new("x[ab]{1,2}a").unwrap().match_expression("xabz"), Ok(false));
}

#[test]
fn test_anchored_end_backtracking() {
    assert_eq!(Regex::new("a[ab]{0,2}b$").unwrap().match_expression("aab"), Ok(true));
    assert_eq!(Regex::new("a[ab]{0,2}b$").unwrap().match_expression("aaba"), Ok(false));
}

#[test]
fn test_find_match_span() {
    let regex = Regex::new("^ab").unwrap();
    let result = regex.find_match("abc").unwrap().unwrap();
    assert_eq!(result.range(), (0, 2));
    assert_eq!(result.matched, "ab");

    let regex = Regex::new("a").unwrap();
    let result = regex.find_match("casa").unwrap().unwrap();
    assert_eq!(result.range(), (3, 4));
    assert_eq!(result.matched, "a");

    let regex = Regex::new("z").unwrap();
    assert!(regex.find_match("casa").unwrap().is_none());
}

#[test]
fn test_match_result_accessors() {
    let result = MatchResult::new(2, 5, String::from("abc"));
    assert_eq!(result.range(), (2, 5));
    assert_eq!(result.start, 2);
    assert_eq!(result.end, 5);
    assert_eq!(result.matched, "abc");
}

#[test]
fn test_class_lookup() {
    assert!(matches!(
        RegexClass::from_str_to_class(":alpha:"),
        Ok(RegexClass::Alpha)
    ));
    assert!(matches!(
        RegexClass::from_str_to_class(":digit:"),
        Ok(RegexClass::Digit)
    ));
    assert!(matches!(
        RegexClass::from_str_to_class(":punct:"),
        Ok(RegexClass::Punct)
    ));
    assert_eq!(
        RegexClass::from_str_to_class(":bogus:").unwrap_err(),
        RegexError::InvalidCharacterClassName
    );
    assert_eq!(
        RegexClass::from_str_to_class("alpha").unwrap_err(),
        RegexError::InvalidCharacterClassName
    );
}

#[test]
fn test_class_predicates() {
    assert!(RegexClass::Alpha.matches(&'k'));
    assert!(!RegexClass::Alpha.matches(&'1'));
    assert!(RegexClass::Digit.matches(&'7'));
    assert!(!RegexClass::Digit.matches(&'x'));
    assert!(RegexClass::Lower.matches(&'x'));
    assert!(!RegexClass::Lower.matches(&'X'));
    assert!(RegexClass::Upper.matches(&'X'));
    assert!(RegexClass::Space.matches(&' '));
    assert!(RegexClass::Space.matches(&'\t'));
    assert!(!RegexClass::Space.matches(&'a'));
    assert!(RegexClass::Punct.matches(&';'));
    assert!(!RegexClass::Punct.matches(&'a'));
    assert!(RegexClass::Alnum.matches(&'a'));
    assert!(RegexClass::Alnum.matches(&'0'));
    assert!(!RegexClass::Alnum.matches(&'-'));
}

#[test]
fn test_value_matches_step() {
    assert_eq!(RegexVal::Literal('a').matches("abc"), 1);
    assert_eq!(RegexVal::Literal('a').matches("bca"), 0);
    assert_eq!(RegexVal::Wildcard.matches("x"), 1);
    assert_eq!(RegexVal::Wildcard.matches(""), 0);
    let set = RegexVal::BracketExpression { chars: vec!['a', 'b'], is_negated: false };
    assert_eq!(set.matches("b"), 1);
    assert_eq!(set.matches("c"), 0);
    let negated = RegexVal::BracketExpression { chars: vec!['a', 'b'], is_negated: true };
    assert_eq!(negated.matches("b"), 0);
    assert_eq!(negated.matches("c"), 1);
    assert_eq!(RegexVal::Class(RegexClass::Digit).matches("5x"), 1);
    assert_eq!(RegexVal::Class(RegexClass::Digit).matches("x5"), 0);
}

#[test]
fn test_state_construction() {
    let state = RegexState { value: RegexVal::Literal('q'), repetition: RegexRep::Exact(1) };
    assert_eq!(state.value.matches("q"), 1);
    let ranged = RegexState {
        value: RegexVal::Wildcard,
        repetition: RegexRep::Range { min: Some(2), max: Some(4) },
    };
    assert_eq!(ranged.value.matches("zz"), 1);
}

#[test]
fn test_error_messages() {
    assert_eq!(RegexError::UnmatchedBracket.message(), "Unmatched [, [^, [:, or [.");
    assert_eq!(
        RegexError::InvalidCharacterClassName.message(),
        "Invalid character class name"
    );
    assert_eq!(
        RegexError::InvalidRegularExpression.message(),
        "Invalid regular expression"
    );
    assert_eq!(RegexError::NonAsciiInput.message(), "Input is not ASCII");
    assert_eq!(RegexError::InvalidFile.message(), "Invalid file");
    assert_eq!(RegexError::InvalidBracketRange.message(), "Invalid range end");
}

#[test]
fn test_curly_bound_edge_cases() {
    // an unclosed brace body is read as if closed at the end
    assert_eq!(Regex::new("ba{2").unwrap().match_expression("baa"), Ok(true));
    // a lone bound with no comma is an upper bound only
    assert_eq!(Regex::new("ca{2}").unwrap().match_expression("c"), Ok(true));
    assert_eq!(Regex::new("a{1,2}").unwrap().match_expression("b"), Ok(false));
}

#[test]
fn test_empty_inputs() {
    assert_eq!(Regex::new("a*").unwrap().match_expression(""), Ok(true));
    assert_eq!(Regex::new("a").unwrap().match_expression(""), Ok(false));
    assert_eq!(Regex::new("^$").unwrap().match_expression(""), Ok(true));
    assert_eq!(Regex::new("^$").unwrap().match_expression("x"), Ok(false));
    assert_eq!(Regex::new("").unwrap().match_expression("anything"), Ok(true));
}

#[test]
fn test_non_ascii_pattern_literal() {
    // the pattern itself may hold any character; it simply never matches an
    // ASCII input line
    let regex = Regex::new("é").unwrap();
    assert_eq!(regex.match_expression("abc"), Ok(false));
    assert_eq!(regex.match_expression("héllo"), Err(RegexError::NonAsciiInput));
}

#[test]
fn test_multiple_alternatives_first_wins() {
    let regex = Regex::new("ab|a").unwrap();
    let result = regex.find_match("xab").unwrap().unwrap();
    assert_eq!(result.range(), (1, 3));
    assert_eq!(result.matched, "ab");
}
