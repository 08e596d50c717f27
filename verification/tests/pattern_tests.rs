use codecrafters_grep::pattern::match_pattern;

#[test]
fn single_digit_matches_1() {
    assert!(match_pattern("1 abc", "\\d"))
}

#[test]
fn single_digit_matches_2() {
    assert!(match_pattern("a1bc", "\\d"))
}

#[test]
fn single_digit_matches_3() {
    assert!(match_pattern("abc 1", "\\d"))
}
