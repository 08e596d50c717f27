use codecrafters_grep::match_pattern;
use codecrafters_grep::pattern::{
    get_indexes_by_filter, get_pattern_start_indexes, pattern_matches_for_substring, StartFilter,
};

fn chars(text: &str) -> Vec<char> {
    text.chars().collect()
}

#[test]
fn flat_literals() {
    assert!(match_pattern("apple", "a"));
    assert!(match_pattern("apple", "ple"));
    assert!(!match_pattern("apple", "pel"));
    assert!(!match_pattern("dog", "f"));
}

#[test]
fn flat_classes() {
    assert!(match_pattern("a1", "\\d"));
    assert!(!match_pattern("abc", "\\d"));
    assert!(match_pattern("foo_1", "\\w\\w\\w"));
    assert!(!match_pattern("$!?", "\\w"));
    assert!(match_pattern("1 apple", "\\d apple"));
    assert!(!match_pattern("x apple", "\\d apple"));
    assert!(match_pattern("sally has 3 apples", "\\d \\w\\w\\w\\w\\ws"));
}

#[test]
fn flat_brackets() {
    assert!(match_pattern("apple", "[abc]"));
    assert!(match_pattern("banana", "[abc]n"));
    assert!(!match_pattern("dog", "[abc]"));
    assert!(match_pattern("dog", "[^abc]"));
    assert!(!match_pattern("cab", "[^abc]"));
    assert!(match_pattern("cabd", "[^abc]"));
}

#[test]
fn flat_bracket_accepts_any_listed_character() {
    assert!(match_pattern("a", "[abc]"));
    assert!(match_pattern("b", "[abc]"));
    assert!(match_pattern("c", "[abc]"));
    assert!(match_pattern("b", "[ab]"));
    assert!(match_pattern("xxc", "[abc]"));
    assert!(match_pattern("xcy", "x[abc]y"));
    assert!(!match_pattern("d", "[abc]"));
    assert!(!match_pattern("xdy", "x[abc]y"));
}

#[test]
fn flat_negated_bracket_accepts_any_character_not_listed() {
    assert!(!match_pattern("a", "[^abc]"));
    assert!(!match_pattern("cba", "[^abc]"));
    assert!(match_pattern("ad", "[^abc]"));
    assert!(match_pattern("bd", "[^abc]"));
    assert!(match_pattern("x", "[^"));
    assert!(match_pattern("]", "[^]"));
}

#[test]
fn flat_bracket_lists_its_first_character_whatever_it_is() {
    assert!(match_pattern("]", "[]a]"));
    assert!(match_pattern("a", "[]a]"));
    assert!(!match_pattern("b", "[]a]"));
    assert!(match_pattern("]", "[]]"));
}

#[test]
fn flat_bracket_that_is_not_closed_runs_to_the_end() {
    assert!(match_pattern("a", "[ab"));
    assert!(match_pattern("xab", "x[ab"));
    assert!(match_pattern("xbb", "x[ab"));
    assert!(!match_pattern("xc", "x[ab"));
    assert!(!match_pattern("x", "x["));
    assert!(!match_pattern("[", "["));
}

#[test]
fn flat_empty_pattern_or_input() {
    assert!(!match_pattern("abc", ""));
    assert!(!match_pattern("", "a"));
    assert!(!match_pattern("", ""));
}

#[test]
fn flat_backslash_before_anything_else_is_passed_over() {
    assert!(match_pattern("ab", "a\\qb"));
    assert!(!match_pattern("aqb", "a\\qb"));
    assert!(match_pattern("a", "a\\x"));
    assert!(match_pattern("a1", "a\\1"));
    assert!(match_pattern("a", "a\\1"));
    assert!(match_pattern("ab", "a\\\\b"));
    assert!(!match_pattern("a\\b", "a\\\\b"));
}

#[test]
fn flat_backslash_at_the_end_is_passed_over() {
    assert!(match_pattern("a", "a\\"));
    assert!(match_pattern("xab", "a\\"));
    assert!(!match_pattern("b", "a\\"));
}

#[test]
fn flat_backslash_that_is_passed_over_gives_no_start() {
    assert!(!match_pattern("aq", "\\qa"));
    assert!(!match_pattern("a", "\\qa"));
    assert!(!match_pattern("\\", "\\"));
    assert!(!match_pattern("\\", "\\\\"));
    assert!(!match_pattern("a\\", "\\\\"));
    assert!(!match_pattern("a", "\\\\a"));
}

#[test]
fn flat_other_characters_stand_for_themselves() {
    assert!(match_pattern("a+b", "a+b"));
    assert!(!match_pattern("aab", "a+b"));
    assert!(match_pattern("d.g", "d.g"));
    assert!(!match_pattern("dog", "d.g"));
    assert!(match_pattern("(a|b)?$", "(a|b)?$"));
    assert!(match_pattern("x^y", "^y"));
}

#[test]
fn flat_input_too_short() {
    assert!(!match_pattern("ab", "abc"));
    assert!(!match_pattern("a", "a\\d"));
    assert!(!match_pattern("a", "a[a]"));
}

#[test]
fn flat_positions_are_counted_in_code_points() {
    assert!(match_pattern("øa", "a"));
    assert!(match_pattern("日本語1", "\\d"));
    assert!(match_pattern("aøb", "aøb"));
    assert!(!match_pattern("aøb", "ab"));
}

#[test]
fn start_indexes_by_first_element() {
    assert_eq!(vec![1, 3], get_pattern_start_indexes(&chars("a1b2"), &chars("\\dx")));
    assert_eq!(vec![0, 1], get_pattern_start_indexes(&chars("a1-_"), &chars("\\w")));
    assert_eq!(vec![0, 2], get_pattern_start_indexes(&chars("abac"), &chars("abc")));
    assert_eq!(vec![1, 3], get_pattern_start_indexes(&chars("abac"), &chars("[bc]")));
    assert_eq!(vec![0, 2], get_pattern_start_indexes(&chars("abac"), &chars("[^bc]")));
    assert_eq!(vec![0, 2], get_pattern_start_indexes(&chars("a]ab"), &chars("[a]b]")));
    assert_eq!(Vec::<usize>::new(), get_pattern_start_indexes(&chars("a\\b"), &chars("\\\\b")));
    assert_eq!(Vec::<usize>::new(), get_pattern_start_indexes(&chars("abac"), &chars("")));
    assert_eq!(Vec::<usize>::new(), get_pattern_start_indexes(&chars("abac"), &chars("\\")));
    assert_eq!(Vec::<usize>::new(), get_pattern_start_indexes(&chars("abac"), &chars("\\a")));
    assert_eq!(Vec::<usize>::new(), get_pattern_start_indexes(&chars("abac"), &chars("[")));
    assert_eq!(vec![0, 1, 2, 3], get_pattern_start_indexes(&chars("abac"), &chars("[^")));
}

#[test]
fn indexes_by_filter() {
    let input = chars("a1b2_");
    assert_eq!(vec![1, 3], get_indexes_by_filter(&input, &StartFilter::Digit));
    assert_eq!(vec![0, 1, 2, 3], get_indexes_by_filter(&input, &StartFilter::Alphanumeric));
    assert_eq!(vec![2], get_indexes_by_filter(&input, &StartFilter::Is('b')));
    assert_eq!(vec![0, 2], get_indexes_by_filter(&input, &StartFilter::OneOf(vec!['a', 'b'])));
    assert_eq!(vec![1, 3, 4], get_indexes_by_filter(&input, &StartFilter::NoneOf(vec!['a', 'b'])));
    assert_eq!(Vec::<usize>::new(), get_indexes_by_filter(&input, &StartFilter::OneOf(vec![])));
    assert_eq!(vec![0, 1, 2, 3, 4], get_indexes_by_filter(&input, &StartFilter::NoneOf(vec![])));
    assert_eq!(Vec::<usize>::new(), get_indexes_by_filter(&input, &StartFilter::Nowhere));
}

#[test]
fn filter_tests_one_character() {
    assert!(StartFilter::Digit.test('7'));
    assert!(!StartFilter::Digit.test('x'));
    assert!(StartFilter::Alphanumeric.test('x'));
    assert!(!StartFilter::Alphanumeric.test('_'));
    assert!(StartFilter::Is('x').test('x'));
    assert!(!StartFilter::Is('x').test('y'));
    assert!(StartFilter::OneOf(vec!['x', 'y']).test('y'));
    assert!(!StartFilter::OneOf(vec!['x', 'y']).test('z'));
    assert!(StartFilter::NoneOf(vec!['x', 'y']).test('z'));
    assert!(!StartFilter::NoneOf(vec!['x', 'y']).test('x'));
    assert!(!StartFilter::Nowhere.test('x'));
}

#[test]
fn substring_match_from_a_position() {
    let input = chars("xab1");
    assert!(pattern_matches_for_substring(&input, 1, &chars("ab\\d")));
    assert!(!pattern_matches_for_substring(&input, 0, &chars("ab\\d")));
    assert!(pattern_matches_for_substring(&input, 4, &chars("")));
    assert!(!pattern_matches_for_substring(&input, 4, &chars("a")));
    assert!(pattern_matches_for_substring(&input, 0, &chars("[^y][a][^a]")));
}
