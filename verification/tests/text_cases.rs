use codecrafters_grep::text::{
    code_points, contains_char, is_char_alphanumeric, is_char_digit, is_char_letter,
    is_char_lowercase_letter, is_char_uppercase_letter,
};

#[test]
fn digits() {
    for c in "0123456789".chars() {
        assert!(is_char_digit(c));
    }
    for c in "/:aA ٣\u{130}".chars() {
        assert!(!is_char_digit(c));
    }
}

#[test]
fn letters() {
    for c in "AMZ".chars() {
        assert!(is_char_uppercase_letter(c));
        assert!(!is_char_lowercase_letter(c));
        assert!(is_char_letter(c));
    }
    for c in "amz".chars() {
        assert!(is_char_lowercase_letter(c));
        assert!(!is_char_uppercase_letter(c));
        assert!(is_char_letter(c));
    }
    for c in "@[`{_0 éÉ\u{141}".chars() {
        assert!(!is_char_letter(c));
    }
}

#[test]
fn alphanumerics() {
    for c in "azAZ09".chars() {
        assert!(is_char_alphanumeric(c));
    }
    for c in "_-@[`{/: ø".chars() {
        assert!(!is_char_alphanumeric(c));
    }
}

#[test]
fn code_points_of_a_string() {
    assert_eq!(Vec::<char>::new(), code_points(""));
    assert_eq!(vec!['a', 'b'], code_points("ab"));
    assert_eq!(vec!['g', 'ø', '日', '\n'], code_points("gø日\n"));
}

#[test]
fn membership() {
    let list = vec!['a', 'ø', 'a'];
    assert!(contains_char(&list, 'a'));
    assert!(contains_char(&list, 'ø'));
    assert!(!contains_char(&list, 'o'));
    assert!(!contains_char(&Vec::new(), 'a'));
}
