use codecrafters_grep::Regex;

fn matches(pattern: &str, input: &str) -> bool {
    Regex::new(pattern).unwrap().matches(input)
}

const INPUTS: [&str; 12] = [
    "a", "b", "ab", "ba", "aab", "abab", "xay", "cat and cat", "log", "blog", "logs", "a+b",
];

#[test]
fn single_literal_matches_where_it_occurs() {
    for c in "abgx ]-".chars() {
        let pattern = c.to_string();
        for input in INPUTS {
            assert_eq!(input.contains(c), matches(&pattern, input));
        }
        assert!(!matches(&pattern, ""));
    }
}

#[test]
fn start_anchor_keeps_only_matches_of_the_pattern() {
    for pattern in ["a", "log", "a?b", "(a|b)+", "a+b", ".og", "[ab]b", "a\\d?b"] {
        let anchored = format!("^{}", pattern);
        for input in INPUTS {
            if matches(&anchored, input) {
                assert!(matches(pattern, input));
            }
        }
    }
}

#[test]
fn start_anchor_on_empty_input_is_another_matter() {
    assert!(matches("^a?", ""));
    assert!(!matches("a?", ""));
}

#[test]
fn second_caret_is_a_literal() {
    assert!(matches("^^x", "^x"));
    assert!(!matches("^x", "^x"));
}

#[test]
fn end_anchor_keeps_only_matches_of_the_pattern() {
    for pattern in [
        "a", "log", "a?b", "(a|b)+", "a+b", ".og", "[ab]b", "^a", "^(a|b)+", "a+", "a+a", "(a+)b",
        "a|b", "^lo|og", "x(a|b+)b", "a)b", "a++b", "(a+)+b", "^(.+)+b", "(a+)b+a", "(a)(.+)\\1",
        "^((a|b)+)+b", "(.+)(a|b)", "a+a+a", "^(a+)(a+)", "^(a+)(b+)\\1", "(a)(b+)(\\1?b)",
    ] {
        let anchored = format!("{}$", pattern);
        for input in INPUTS {
            if matches(&anchored, input) {
                assert!(matches(pattern, input));
            }
        }
    }
}

#[test]
fn end_anchor_after_an_end_anchor_that_looks_ahead() {
    assert!(matches("^a+$b?$", "aa"));
    assert!(!matches("^a+$b?", "aa"));
}

#[test]
fn end_anchor_after_a_copy_with_references_of_a_repeated_node() {
    assert!(matches("^((.)\\2)+((.)\\2)$", "aabbab"));
    assert!(!matches("^((.)\\2)+((.)\\2)", "aabbab"));
}

#[test]
fn end_anchor_after_a_reference_to_a_group_that_looks_ahead() {
    assert!(matches("^(.+)(\\1?a)$", "aaba"));
    assert!(!matches("^(.+)(\\1?a)", "aaba"));
}

#[test]
fn end_anchor_inside_a_group_that_is_not_closed() {
    assert!(matches("^(.+)(\\1?a$", "aaba"));
    assert!(!matches("^(.+)(\\1?a", "aaba"));
}

#[test]
fn end_anchor_after_an_open_bracket_is_a_member_of_it() {
    assert!(matches("[a$", "$"));
    assert!(!matches("[a", "$"));
}

#[test]
fn optional_is_its_node_or_nothing() {
    let cases = [
        ("x", "ay"),
        ("\\d", "a"),
        ("c", "at"),
        ("[xy]", "ab"),
        (".", "b"),
        ("(ab)", "a"),
        ("(a|b)", "b|x"),
        ("\\1", "a"),
    ];
    for (atom, rest) in cases {
        let optional = format!("{}?{}", atom, rest);
        let present = format!("{}{}", atom, rest);
        for input in INPUTS {
            if matches(&present, input) {
                assert!(matches(&optional, input));
            }
            if matches(&optional, input) {
                assert!(matches(&present, input) || matches(rest, input));
            }
        }
    }
}

#[test]
fn optional_is_its_node_or_nothing_where_it_cannot_shadow() {
    let cases = [("x", "ay"), ("\\d", "a"), ("c", "at"), ("s", "_and")];
    let inputs = ["ay", "xay", "a", "7a", "cat", "at", "foos_and", "foo_and", "b"];
    for (atom, rest) in cases {
        let optional = format!("{}?{}", atom, rest);
        let present = format!("{}{}", atom, rest);
        for input in inputs {
            assert_eq!(
                matches(&present, input) || matches(rest, input),
                matches(&optional, input)
            );
        }
    }
}

#[test]
fn optional_may_shadow_what_follows() {
    assert!(matches("ab", "ab"));
    assert!(!matches("a?ab", "ab"));
}

#[test]
fn optional_repetition_does_not_hand_over() {
    assert!(matches("b+b", "bb"));
    assert!(!matches("b+?b", "bb"));
}

#[test]
fn optional_group_keeps_its_number() {
    assert!(matches("(b)\\1", "bb"));
    assert!(!matches("(a)?(b)\\1", "bb"));
}

#[test]
fn match_ends_with_the_text_of_the_group() {
    for (pattern, input, expected) in [
        ("(cat) and \\1", "cat and cat", true),
        ("(cat) and \\1", "cat and cab", false),
        ("x(\\d+)=\\1", "x12=12", true),
        ("x(\\d+)=\\1", "x12=13", false),
        ("(a)(b+)c\\2", "abbcbb", true),
        ("(a)(b+)c\\2", "abbcb", false),
    ] {
        assert_eq!(expected, matches(pattern, input));
    }
}
