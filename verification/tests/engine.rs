use regex_parser::pattern::{parse_pattern, try_parse_pattern};
use regex_parser::Matcher;

fn search(input: &str, pattern: &str) -> bool {
    let mut m = Matcher::new();
    m.match_pattern(input, pattern)
}

#[test]
fn plain_substring_found() {
    assert!(search("hello world", "world"));
    assert!(search("hello world", "hello"));
    assert!(search("hello world", "lo wo"));
}

#[test]
fn plain_substring_absent() {
    assert!(!search("hello world", "worlds"));
    assert!(!search("hello", "xyz"));
}

#[test]
fn empty_input_never_matches() {
    assert!(!search("", "a"));
    assert!(!search("", ""));
}

#[test]
fn empty_pattern_matches_nonempty_input() {
    assert!(search("a", ""));
}

#[test]
fn anchored_both_ends() {
    assert!(search("abc", "^abc$"));
    assert!(!search("xabc", "^abc$"));
    assert!(!search("abcx", "^abc$"));
    assert!(!search("ab", "^abc$"));
}

#[test]
fn anchor_start_only() {
    assert!(search("abcx", "^abc"));
    assert!(!search("xabc", "^abc"));
}

#[test]
fn anchor_end_only() {
    assert!(search("xabc", "abc$"));
    assert!(!search("abcx", "abc$"));
}

#[test]
fn one_or_more() {
    assert!(search("a", "a+"));
    assert!(search("aa", "a+"));
    assert!(search("aaa", "a+"));
    assert!(!search("", "a+"));
    assert!(!search("b", "a+"));
}

#[test]
fn one_or_more_with_tail() {
    assert!(search("aaab", "a+b"));
    assert!(!search("b", "a+b"));
}

#[test]
fn zero_or_one() {
    assert!(search("b", "a?b"));
    assert!(search("ab", "a?b"));
    assert!(!search("ac", "a?c?x"));
}

#[test]
fn character_class() {
    assert!(search("a", "[abc]"));
    assert!(search("b", "[abc]"));
    assert!(search("c", "[abc]"));
    assert!(!search("d", "[abc]"));
    assert!(search("zb", "[abc]"));
}

#[test]
fn negated_character_class() {
    assert!(search("d", "[^abc]"));
    assert!(!search("a", "[^abc]"));
    assert!(!search("abc", "[^abc]"));
    assert!(search("ad", "[^abc]"));
}

#[test]
fn wildcard_dot() {
    assert!(search("xyz", "x.z"));
    assert!(search("xaz", "x.z"));
    assert!(!search("xz", "x.z"));
}

#[test]
fn digit_class() {
    assert!(search("5", "\\d"));
    assert!(search("abc7", "\\d"));
    assert!(!search("abc", "\\d"));
}

#[test]
fn word_class() {
    assert!(search("a", "\\w"));
    assert!(search("7", "\\w"));
    assert!(!search(" -.", "\\w"));
}

#[test]
fn escaped_backslash() {
    assert!(search("a\\b", "\\\\"));
    assert!(!search("ab", "\\\\"));
}

#[test]
fn alternation() {
    assert!(search("cat", "(cat|dog)"));
    assert!(search("dog", "(cat|dog)"));
    assert!(!search("cow", "(cat|dog)"));
}

#[test]
fn alternation_with_context() {
    assert!(search("I have a dog here", "a (cat|dog) here"));
    assert!(!search("I have a cow here", "a (cat|dog) here"));
}

#[test]
fn backreference_repeat_word() {
    assert!(search("hello hello", "(\\w+) \\1"));
    assert!(!search("hello world", "(\\w+) \\1"));
}

#[test]
fn backreference_two_groups() {
    assert!(search(
        "3 red squares and 3 red circles",
        "(\\d+) (\\w+) squares and \\1 \\2 circles"
    ));
    assert!(!search(
        "3 red squares and 4 red circles",
        "(\\d+) (\\w+) squares and \\1 \\2 circles"
    ));
}

#[test]
fn captures_erased_after_failure() {
    let mut m = Matcher::new();
    assert!(!m.match_pattern("ac", "(a)(b)"));
    assert!(m.captured_at(0).is_empty());
    assert!(m.captured_at(1).is_empty());
}

#[test]
fn captures_hold_after_success() {
    let mut m = Matcher::new();
    assert!(m.match_pattern("zabx", "(ab)x"));
    assert_eq!(m.captured_at(0).iter().collect::<String>(), "ab");
}

#[test]
fn compile_is_deterministic() {
    let a = parse_pattern("(a|bc)+x?[de]\\1\\w$");
    let b = parse_pattern("(a|bc)+x?[de]\\1\\w$");
    assert_eq!(a, b);
}

#[test]
fn malformed_class_is_rejected() {
    assert!(try_parse_pattern("[abc").is_none());
}

#[test]
fn malformed_group_is_rejected() {
    assert!(try_parse_pattern("(ab").is_none());
}

#[test]
fn dangling_plus_is_rejected() {
    assert!(try_parse_pattern("+a").is_none());
}

#[test]
fn dangling_question_is_rejected() {
    assert!(try_parse_pattern("?a").is_none());
}

#[test]
fn unknown_escape_is_rejected() {
    assert!(try_parse_pattern("\\q").is_none());
}

#[test]
fn group_quantifier() {
    assert!(search("ababc", "(ab)+c"));
    assert!(!search("ac", "(ab)+c"));
}

#[test]
fn nested_groups() {
    assert!(search("acx", "((a|b)c)x"));
    assert!(search("bcx", "((a|b)c)x"));
    assert!(!search("ccx", "((a|b)c)x"));
}

#[test]
fn many_groups_do_not_overflow_the_table() {
    // the tenth group claims a dead slot; matching still succeeds
    assert!(search("abcdefghij", "(a)(b)(c)(d)(e)(f)(g)(h)(i)(j)"));
}

#[test]
fn ninth_backreference() {
    assert!(search("abcdefghii", "(a)(b)(c)(d)(e)(f)(g)(h)(i)\\9"));
    assert!(!search("abcdefghix", "(a)(b)(c)(d)(e)(f)(g)(h)(i)\\9"));
}

#[test]
fn quantified_option_terminates() {
    // `a?+` can repeat a zero-width match; the engine stops extending it
    assert!(search("b", "a?+"));
    assert!(search("aab", "a?+b"));
}

#[test]
fn backreference_to_empty_capture_fails() {
    // a slot holding empty text never matches, even zero-width
    assert!(!search("x", "(b?)x\\1"));
}

#[test]
fn trailing_capture_at_input_end_stays_empty() {
    // the input-exhausted branch admits a lone trailing capture mark
    // without writing it
    let mut m = Matcher::new();
    assert!(m.match_pattern("a", "(a)"));
    assert!(m.captured_at(0).is_empty());
}

#[test]
fn first_alternative_wins() {
    let mut m = Matcher::new();
    assert!(m.match_pattern("xab", "(a|ab)"));
    assert_eq!(m.captured_at(0).iter().collect::<String>(), "a");
}
