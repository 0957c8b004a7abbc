use linegrep::matcher::match_regex;
use linegrep::parser::{parse, ParseError};
use linegrep::pattern::patterns_eq;

#[test]
fn matched_slice_lies_in_trimmed_line() {
    let line = "  hello  ";
    let m = match_regex(line, "l+o").unwrap();
    assert_eq!(m, "llo".to_string());
    assert!(line.trim().contains(&m));
}

#[test]
fn leftmost_run_wins_over_longer_later_run() {
    assert_eq!(match_regex("b aa aaa", "a+"), Some("aa".to_string()));
}

#[test]
fn greedy_one_or_more_backs_off_for_the_tail() {
    assert_eq!(match_regex("aaab", "a+ab"), Some("aaab".to_string()));
}

#[test]
fn first_alternative_wins_even_when_a_later_one_reaches_further() {
    assert_eq!(match_regex("aab", "(a|aa)b"), Some("ab".to_string()));
}

#[test]
fn start_anchor_pins_the_match_to_offset_zero() {
    assert_eq!(match_regex("abc", "^abc"), Some("abc".to_string()));
    assert_eq!(match_regex("xabc", "^abc"), None);
}

#[test]
fn end_anchor_demands_a_match_ending_at_the_line_end() {
    assert_eq!(match_regex("abca", "a$"), Some("a".to_string()));
    assert_eq!(match_regex("ab", "a$"), None);
}

#[test]
fn empty_pattern_matches_the_empty_prefix() {
    assert_eq!(match_regex("abc", ""), Some("".to_string()));
    assert_eq!(match_regex("", ""), Some("".to_string()));
}

#[test]
fn caret_dollar_matches_only_the_empty_line() {
    assert_eq!(match_regex("", "^$"), Some("".to_string()));
    assert_eq!(match_regex("   ", "^$"), Some("".to_string()));
    assert_eq!(match_regex("a", "^$"), None);
}

#[test]
fn backreference_to_unentered_group_fails() {
    assert_eq!(match_regex("abc", r"\1abc"), None);
    assert_eq!(match_regex("c", r"((b)|c)\2"), None);
}

#[test]
fn class_at_end_of_input_fails_rather_than_matching_nothing() {
    assert_eq!(match_regex("b", "b[abc]"), None);
}

#[test]
fn negated_class_still_requires_an_alphanumeric() {
    assert_eq!(match_regex("!d", "[^abc]"), Some("d".to_string()));
    assert_eq!(match_regex("!?", "[^abc]"), None);
}

#[test]
fn quantified_group_repeats_and_captures_last_run() {
    assert_eq!(match_regex("ababc", "(ab)+c"), Some("ababc".to_string()));
    assert_eq!(match_regex("xyzyzy", r"x(yz)+\1"), Some("xyzyz".to_string()));
    assert_eq!(match_regex("xyzyzyz", r"x(yz)+\1"), Some("xyzyzyz".to_string()));
}

#[test]
fn optional_group_may_match_nothing() {
    assert_eq!(match_regex("ac", "a(b)?c"), Some("ac".to_string()));
    assert_eq!(match_regex("abc", "a(b)?c"), Some("abc".to_string()));
}

#[test]
fn matching_is_deterministic_across_calls() {
    let line = "grep 101 is doing grep 101 times, and again grep 101 times";
    let pat = r"((\w\w\w\w) (\d\d\d)) is doing \2 \3 times, and again \1 times";
    let first = match_regex(line, pat);
    let second = match_regex(line, pat);
    assert_eq!(first, second);
}

#[test]
fn reparsing_yields_the_same_tree() {
    let pat = r"^((a|b)+c?)[xy]\1.\w$";
    let (p1, sa1, ea1) = parse(pat).unwrap();
    let (p2, sa2, ea2) = parse(pat).unwrap();
    assert_eq!(sa1, sa2);
    assert_eq!(ea1, ea2);
    assert!(patterns_eq(&p1, &p2));
}

#[test]
fn parse_rejects_unknown_escapes() {
    assert_eq!(parse(r"a\x").unwrap_err(), ParseError::UnknownEscape);
    assert_eq!(parse(r"a\0").unwrap_err(), ParseError::UnknownEscape);
    assert_eq!(parse("a\\").unwrap_err(), ParseError::UnknownEscape);
}

#[test]
fn parse_rejects_unterminated_classes_and_bad_members() {
    assert_eq!(parse("[abc").unwrap_err(), ParseError::UnterminatedClass);
    assert_eq!(parse("[a-b]").unwrap_err(), ParseError::InvalidClassMember);
}

#[test]
fn parse_rejects_broken_groups() {
    assert_eq!(parse("(ab").unwrap_err(), ParseError::UnterminatedGroup);
    assert_eq!(parse("()").unwrap_err(), ParseError::EmptyGroup);
}

#[test]
fn parse_rejects_dangling_quantifiers() {
    assert_eq!(parse("+a").unwrap_err(), ParseError::DanglingQuantifier);
    assert_eq!(parse("a++").unwrap_err(), ParseError::DanglingQuantifier);
    assert_eq!(parse(r"(a)\1+").unwrap_err(), ParseError::DanglingQuantifier);
}

#[test]
fn parse_rejects_stray_closing_brackets() {
    assert_eq!(parse("ab]").unwrap_err(), ParseError::UnmatchedBracket);
}

#[test]
fn wildcard_refuses_metacharacters() {
    assert_eq!(match_regex("axb", "a.b"), Some("axb".to_string()));
    assert_eq!(match_regex("a(b", "a.b"), None);
}

#[test]
fn backreference_numbers_are_single_digits() {
    assert_eq!(match_regex("aa0", r"(a)\10"), Some("aa0".to_string()));
}

#[test]
fn anchors_away_from_the_ends_are_literals() {
    assert_eq!(match_regex("a^b", "a^b"), Some("a^b".to_string()));
    assert_eq!(match_regex("a$b", "a$b"), Some("a$b".to_string()));
}
