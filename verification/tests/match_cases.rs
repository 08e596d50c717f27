use codecrafters_grep::Regex;

fn matches(pattern: &str, input: &str) -> bool {
    Regex::new(pattern).unwrap().matches(input)
}

#[test]
fn typical_patterns() {
    assert!(matches("\\d\\d", "24"));
    assert!(!matches("\\d\\d", "2c"));
    assert!(matches("[^abc][^def]", "yz"));
    assert!(!matches("^log", "slog"));
    assert!(matches("ca+at", "caaats"));
    assert!(matches("foos?_and_bars", "foo_and_bars"));
    assert!(matches("(cat|dog|bird|lion) hello", "bird hello"));
    assert!(matches(
        "^I see (\\d (cat|dog|cow)s?(, | and )?)+$",
        "I see 1 cat, 2 dogs and 3 cows"
    ));
    assert!(matches(
        "([abcd]+) is \\1, not [^xyz]+",
        "abcd is abcd, not efg"
    ));
    assert!(matches(
        "('(cat) and \\2') is the same as \\1",
        "'cat and cat' is the same as 'cat and cat'"
    ));
}

#[test]
fn match_may_start_at_any_code_point() {
    assert!(matches("log", "log"));
    assert!(matches("log", "a log"));
    assert!(matches("log", "øøølog"));
    assert!(!matches("log", "lo g"));
}

#[test]
fn empty_input_has_no_position_to_start_at() {
    assert!(!matches("a?", ""));
    assert!(!matches("()", ""));
    assert!(!matches(")", ""));
    assert!(!matches(".", ""));
}

#[test]
fn anchored_expression_is_tried_on_empty_input() {
    assert!(matches("^a?", ""));
    assert!(matches("^a?$", ""));
    assert!(!matches("^a", ""));
}

#[test]
fn start_anchor_allows_the_first_position_only() {
    assert!(matches("^log", "logging"));
    assert!(!matches("^log", "slog"));
    assert!(!matches("^log", " log"));
    assert!(matches("^(a|b)c", "bc"));
    assert!(!matches("^(a|b)c", "xbc"));
}

#[test]
fn end_anchor_requires_the_end_of_the_input() {
    assert!(matches("log$", "blog"));
    assert!(!matches("log$", "logs"));
    assert!(!matches("log$", "log\n"));
    assert!(matches("^log$", "log"));
    assert!(!matches("^log$", "logs"));
    assert!(!matches("^log$", " log"));
}

#[test]
fn end_anchor_in_the_middle_can_never_be_passed() {
    assert!(!matches("a$b", "ab"));
    assert!(!matches("a$b", "a"));
}

#[test]
fn digit_class_is_the_ten_ascii_digits() {
    assert!(matches("^\\d\\d\\d\\d\\d\\d\\d\\d\\d\\d$", "0123456789"));
    assert!(!matches("\\d", "/"));
    assert!(!matches("\\d", ":"));
    assert!(!matches("\\d", "٣"));
    assert!(!matches("\\d", "\u{130}"));
}

#[test]
fn alphanumeric_class_is_ascii_letters_and_digits() {
    assert!(matches("^\\w\\w\\w\\w\\w\\w$", "azAZ09"));
    assert!(!matches("\\w", "_"));
    assert!(!matches("\\w", "@[`{/:"));
    assert!(!matches("\\w", "é"));
    assert!(!matches("\\w", "\u{141}"));
}

#[test]
fn wildcard_takes_any_code_point() {
    assert!(matches("a.b", "a\nb"));
    assert!(matches("a.b", "aøb"));
    assert!(matches("^.$", "日"));
    assert!(!matches("^..$", "日"));
    assert!(!matches("a.b", "ab"));
}

#[test]
fn empty_brackets_match() {
    assert!(!matches("[]", "abc"));
    assert!(matches("[^]", "a"));
}

#[test]
fn escaped_backslash_is_a_literal() {
    assert!(matches("a\\\\b", "a\\b"));
    assert!(!matches("a\\\\b", "ab"));
}

#[test]
fn one_or_more_needs_one() {
    assert!(matches("a+", "a"));
    assert!(matches("a+", "baaa"));
    assert!(!matches("a+", "bcd"));
    assert!(!matches("ca+t", "ct"));
}

#[test]
fn one_or_more_at_the_end_takes_all_it_can() {
    assert!(matches("a+$", "baa"));
    assert!(!matches("a+$", "aab"));
    assert!(matches("^a+$", "aaaa"));
    assert!(!matches("^a+$", "aaba"));
}

#[test]
fn one_or_more_stops_where_the_next_node_matches() {
    assert!(matches("ca+t", "cat"));
    assert!(matches("ca+t", "caaat"));
    assert!(matches(".+b", "aab"));
    assert!(matches("^.+b$", "aab"));
    assert!(matches("^.+b$", "abab"));
    assert!(matches("\\d+x", "123x"));
}

#[test]
fn one_or_more_repeats_its_own_node_only() {
    assert!(!matches("ca+t", "caXt"));
    assert!(!matches("ca+t", "caaXt"));
    assert!(!matches("^\\d+x", "12ax"));
}

#[test]
fn one_or_more_leaves_one_for_an_equal_next_node() {
    assert!(matches("a+a", "aa"));
    assert!(matches("a+a", "aaaa"));
    assert!(!matches("a+a", "a"));
    assert!(matches("^a+a$", "aaa"));
    assert!(matches("a+ab", "aaab"));
    assert!(matches("a+ab", "aab"));
    assert!(!matches("a+ab", "ab"));
    assert!(matches("ca+at", "caat"));
    assert!(!matches("ca+at", "cat"));
    assert!(matches("\\d+\\d", "12"));
    assert!(!matches("^\\d+\\d$", "1"));
}

#[test]
fn one_or_more_hands_over_at_first_sight_of_the_next_node() {
    assert!(!matches("a.+bc", "aXbYbc"));
    assert!(matches("a.+bc", "aXbc"));
    assert!(matches("g.+gol", "gogxgol"));
    assert!(!matches("^g.+gol", "gogxgol"));
}

#[test]
fn one_or_more_of_a_group() {
    assert!(matches("^(ab)+$", "ababab"));
    assert!(!matches("^(ab)+$", "ababa"));
    assert!(matches("(ab)+c", "ababc"));
    assert!(matches("^(\\d, )+end$", "1, 2, 3, end"));
}

#[test]
fn one_or_more_of_a_node_that_takes_nothing_ends() {
    assert!(matches("(a?)+", "b"));
    assert!(matches("^(a?)+b$", "b"));
    assert!(matches("^(a?)+b$", "aab"));
    assert!(matches("a?+", "b"));
    assert!(matches("^(a?)+(a?)$", "aaa"));
}

#[test]
fn optional_takes_its_node_where_it_can() {
    assert!(matches("^colou?r$", "color"));
    assert!(matches("^colou?r$", "colour"));
    assert!(!matches("^colou?r$", "colouur"));
    assert!(matches("^\\d?x$", "x"));
    assert!(matches("^\\d?x$", "7x"));
    assert!(matches("^[ab]?c$", "bc"));
    assert!(matches("^a?$", "a"));
}

#[test]
fn optional_never_gives_back_what_it_took() {
    assert!(!matches("a?ab", "ab"));
    assert!(matches("a?ab", "aab"));
    assert!(!matches("^.?a$", "a"));
}

#[test]
fn optional_node_that_fails_half_way_takes_nothing() {
    assert!(matches("^(ab)?ac$", "ac"));
    assert!(matches("^(ab)?ac$", "abac"));
    assert!(matches("^(a\\d)?a$", "a"));
}

#[test]
fn alternation_takes_the_first_variant_that_matches() {
    assert!(matches("^(ab|a)c$", "abc"));
    assert!(matches("^(ab|a)c$", "ac"));
    assert!(matches("^(a|ab)$", "a"));
    assert!(!matches("^(a|ab)c$", "abc"));
}

#[test]
fn alternation_moves_by_what_the_variant_took() {
    assert!(matches("^(ab|c)d$", "abd"));
    assert!(matches("^(ab|c)d$", "cd"));
    assert!(!matches("^(ab|c)d$", "ad"));
    assert!(matches("^(a+|b)c$", "aaac"));
    assert!(matches("^(\\d\\d|x)(y|zz)$", "12zz"));
    assert!(matches("^(a?|b)c$", "c"));
}

#[test]
fn alternation_with_an_empty_variant() {
    assert!(matches("^(a|)b$", "b"));
    assert!(matches("^(a|)b$", "ab"));
    assert!(matches("^(|a)b$", "b"));
    assert!(!matches("^(|a)b$", "ab"));
}

#[test]
fn alternation_at_top_level_matches_any_variant() {
    assert!(matches("cat|dog", "hotdog"));
    assert!(matches("cat|dog", "cats"));
    assert!(!matches("cat|dog", "cow"));
    assert!(matches("^cat|dog", "cat"));
    assert!(matches("^cat|dog", "dog"));
    assert!(!matches("^cat|dog", "hotdog"));
}

#[test]
fn alternation_without_a_variant_that_matches() {
    assert!(!matches("(cat|dog)", "bird"));
    assert!(!matches("^(a|b)$", "c"));
}

#[test]
fn empty_group_takes_nothing() {
    assert!(matches("^a()b$", "ab"));
    assert!(matches("()", "x"));
}

#[test]
fn reference_repeats_the_text_of_its_group() {
    assert!(matches("(cat) and \\1", "cat and cat"));
    assert!(!matches("(cat) and \\1", "cat and dog"));
    assert!(matches("^(\\w+) \\1$", "hello hello"));
    assert!(!matches("^(\\w+) \\1$", "hello hellO"));
    assert!(!matches("^(\\w+) \\1$", "hello hell"));
    assert!(matches("^(.)(.)\\2\\1$", "abba"));
    assert!(!matches("^(.)(.)\\2\\1$", "abab"));
}

#[test]
fn groups_are_numbered_by_their_opening_parenthesis() {
    assert!(matches("^((a)b)\\2\\1$", "abaab"));
    assert!(!matches("^((a)b)\\1\\2$", "abaab"));
    assert!(matches("^((a)b)\\1\\2$", "ababa"));
    assert!(matches("^(a(b(c)))\\3\\2\\1$", "abccbcabc"));
}

#[test]
fn groups_in_variants_not_taken_keep_their_numbers() {
    assert!(matches("^(a|(b))(c)\\3$", "acc"));
    assert!(matches("^(a|(b))(c)\\3$", "bcc"));
    assert!(matches("^(a|(b))(c)\\2$", "bcb"));
    assert!(!matches("^(a|(b))(c)\\2$", "acc"));
    assert!(!matches("^(a|(b))(c)\\2$", "aca"));
}

#[test]
fn reference_to_a_group_that_captured_nothing_fails() {
    assert!(!matches("\\1(a)", "aa"));
    assert!(!matches("(a)\\2", "aa"));
    assert!(!matches("(a)\\0", "aa"));
    assert!(!matches("^(x(a)|y)\\2$", "ya"));
    assert!(matches("^(x(a)|y)\\2$", "xaa"));
    assert!(!matches("^(a)?\\1$", ""));
}

#[test]
fn reference_to_an_empty_capture_takes_nothing() {
    assert!(matches("^(a?)b\\1$", "b"));
    assert!(matches("^(a?)b\\1$", "aba"));
    assert!(!matches("^(a?)b\\1$", "ab"));
    assert!(matches("^()\\1$", ""));
}

#[test]
fn reference_inside_its_own_alternation() {
    assert!(matches("^(a|b)\\1$", "aa"));
    assert!(matches("^(a|b)\\1$", "bb"));
    assert!(!matches("^(a|b)\\1$", "ab"));
}

#[test]
fn repeated_group_keeps_its_last_capture() {
    assert!(matches("^(a|b)+\\1$", "abb"));
    assert!(!matches("^(a|b)+\\1$", "aba"));
    assert!(matches("^(\\d)+ \\1$", "123 3"));
    assert!(!matches("^(\\d)+ \\1$", "123 1"));
}

#[test]
fn reference_needs_the_whole_text() {
    assert!(!matches("^(abc)\\1$", "abcab"));
    assert!(!matches("(abc)-\\1", "abc-ab"));
    assert!(matches("(abc)-\\1", "abc-abcd"));
}

#[test]
fn each_attempt_starts_without_captures() {
    assert!(!matches("(a)x|\\1y", "azay"));
    assert!(matches("(a)\\1", "abaa"));
}

#[test]
fn code_points_beyond_ascii() {
    assert!(matches("g.+gol", "goøö0Ogol"));
    assert!(matches("^ø+$", "øøø"));
    assert!(matches("^[日本]+語$", "日本日語"));
    assert!(matches("^(ø|ö)\\1$", "öö"));
    assert!(!matches("^...$", "øö"));
}

#[test]
fn one_regex_serves_many_inputs() {
    let regex = Regex::new("^(\\w+)@\\1$").unwrap();
    assert!(regex.matches("a@a"));
    assert!(!regex.matches("a@b"));
    assert!(regex.matches("xyz@xyz"));
    assert!(!regex.matches(""));
}
