use codecrafters_grep::Pattern::{
    self, Alternation, AlphanumericClass, CharLiteral, DigitClass, EndOfString, Group,
    NegativeCharGroup, OneOrMoreQuantifier, OptionalQuantifier, PositiveCharGroup, StartOfString,
    Wildcard,
};
use codecrafters_grep::Regex;
use std::collections::VecDeque;

#[test]
fn char_literal_singular() {
    let regex = Regex::new("a").unwrap();
    let patterns = regex.into_patterns();
    assert_eq!(1, patterns.len());
    assert_eq!(CharLiteral('a'), *patterns.front().unwrap())
}

#[test]
fn char_literal_multiple() {
    let regex = Regex::new("ab3").unwrap();
    let mut patterns = regex.into_patterns();

    assert_eq!(3, patterns.len());
    assert_eq!(CharLiteral('a'), patterns.pop_front().unwrap());
    assert_eq!(CharLiteral('b'), patterns.pop_front().unwrap());
    assert_eq!(CharLiteral('3'), patterns.pop_front().unwrap());
}

#[test]
fn digit_class_singular() {
    let regex = Regex::new("\\d").unwrap();
    let mut patterns = regex.into_patterns();

    assert_eq!(1, patterns.len());
    assert_eq!(DigitClass, patterns.pop_front().unwrap());
}

#[test]
fn digit_class_multiple() {
    let regex = Regex::new("\\d\\d").unwrap();
    let mut patterns = regex.into_patterns();

    assert_eq!(2, patterns.len());
    assert_eq!(DigitClass, patterns.pop_front().unwrap());
    assert_eq!(DigitClass, patterns.pop_front().unwrap());
}

#[test]
fn alphanumeric_class_singular() {
    let regex = Regex::new("\\w").unwrap();
    let mut patterns = regex.into_patterns();

    assert_eq!(1, patterns.len());
    assert_eq!(AlphanumericClass, patterns.pop_front().unwrap());
}

#[test]
fn alphanumeric_class_multiple() {
    let regex = Regex::new("\\w\\w").unwrap();
    let mut patterns = regex.into_patterns();

    assert_eq!(2, patterns.len());
    assert_eq!(AlphanumericClass, patterns.pop_front().unwrap());
    assert_eq!(AlphanumericClass, patterns.pop_front().unwrap());
}

#[test]
fn singular_positive_char_group_singular_char() {
    let regex = Regex::new("[a]").unwrap();
    let mut patterns = regex.into_patterns();

    assert_eq!(1, patterns.len());
    assert_eq!(
        PositiveCharGroup(vec!['a']),
        patterns.pop_front().unwrap()
    );
}

#[test]
fn singular_positive_char_group_multiple_chars() {
    let regex = Regex::new("[abc]").unwrap();
    let mut patterns = regex.into_patterns();

    assert_eq!(1, patterns.len());
    assert_eq!(
        PositiveCharGroup(vec!['a', 'b', 'c']),
        patterns.pop_front().unwrap()
    );
}

#[test]
fn multiple_positive_char_groups_singular_char() {
    let regex = Regex::new("[a][b]").unwrap();
    let mut patterns = regex.into_patterns();

    assert_eq!(2, patterns.len());
    assert_eq!(
        PositiveCharGroup(vec!['a']),
        patterns.pop_front().unwrap()
    );
    assert_eq!(
        PositiveCharGroup(vec!['b']),
        patterns.pop_front().unwrap()
    );
}

#[test]
fn multiple_positive_char_groups_multiple_chars() {
    let regex = Regex::new("[abc][def]").unwrap();
    let mut patterns = regex.into_patterns();

    assert_eq!(2, patterns.len());
    assert_eq!(
        PositiveCharGroup(vec!['a', 'b', 'c']),
        patterns.pop_front().unwrap()
    );
    assert_eq!(
        PositiveCharGroup(vec!['d', 'e', 'f']),
        patterns.pop_front().unwrap()
    );
}

#[test]
fn singular_negative_char_group_singular_char() {
    let regex = Regex::new("[^a]").unwrap();
    let mut patterns = regex.into_patterns();

    assert_eq!(1, patterns.len());
    assert_eq!(
        NegativeCharGroup(vec!['a']),
        patterns.pop_front().unwrap()
    );
}

#[test]
fn singular_negative_char_group_multiple_chars() {
    let regex = Regex::new("[^abc]").unwrap();
    let mut patterns = regex.into_patterns();

    assert_eq!(1, patterns.len());
    assert_eq!(
        NegativeCharGroup(vec!['a', 'b', 'c']),
        patterns.pop_front().unwrap()
    );
}

#[test]
fn multiple_negative_char_groups_singular_char() {
    let regex = Regex::new("[^a][^b]").unwrap();
    let mut patterns = regex.into_patterns();

    assert_eq!(2, patterns.len());
    assert_eq!(
        NegativeCharGroup(vec!['a']),
        patterns.pop_front().unwrap()
    );
    assert_eq!(
        NegativeCharGroup(vec!['b']),
        patterns.pop_front().unwrap()
    );
}

#[test]
fn multiple_negative_char_groups_multiple_chars() {
    let regex = Regex::new("[^abc][^def]").unwrap();
    let mut patterns = regex.into_patterns();

    assert_eq!(2, patterns.len());
    assert_eq!(
        NegativeCharGroup(vec!['a', 'b', 'c']),
        patterns.pop_front().unwrap()
    );
    assert_eq!(
        NegativeCharGroup(vec!['d', 'e', 'f']),
        patterns.pop_front().unwrap()
    );
}

#[test]
fn positive_char_groups_and_negative_char_groups_1() {
    let regex = Regex::new("[abc][^def]").unwrap();
    let mut patterns = regex.into_patterns();

    assert_eq!(2, patterns.len());
    assert_eq!(
        PositiveCharGroup(vec!['a', 'b', 'c']),
        patterns.pop_front().unwrap()
    );
    assert_eq!(
        NegativeCharGroup(vec!['d', 'e', 'f']),
        patterns.pop_front().unwrap()
    );
}

#[test]
fn positive_char_groups_and_negative_char_groups_2() {
    let regex = Regex::new("[^abc][def][^ghi][jkl]").unwrap();
    let mut patterns = regex.into_patterns();

    assert_eq!(4, patterns.len());
    assert_eq!(
        NegativeCharGroup(vec!['a', 'b', 'c']),
        patterns.pop_front().unwrap()
    );
    assert_eq!(
        PositiveCharGroup(vec!['d', 'e', 'f']),
        patterns.pop_front().unwrap()
    );
    assert_eq!(
        NegativeCharGroup(vec!['g', 'h', 'i']),
        patterns.pop_front().unwrap()
    );
    assert_eq!(
        PositiveCharGroup(vec!['j', 'k', 'l']),
        patterns.pop_front().unwrap()
    );
}

#[test]
fn start_of_string_with_single_char() {
    let regex = Regex::new("^a").unwrap();
    let mut patterns = regex.into_patterns();

    assert_eq!(1, patterns.len());
    assert_eq!(
        StartOfString(Box::new(CharLiteral('a'))),
        patterns.pop_front().unwrap()
    );
}

#[test]
fn start_of_string_with_multiple_chars() {
    let regex = Regex::new("^ab").unwrap();
    let mut patterns = regex.into_patterns();

    assert_eq!(2, patterns.len());
    assert_eq!(
        StartOfString(Box::new(CharLiteral('a'))),
        patterns.pop_front().unwrap()
    );
    assert_eq!(CharLiteral('b'), patterns.pop_front().unwrap());
}

#[test]
fn end_of_string_with_single_char() {
    let regex = Regex::new("a$").unwrap();
    let mut patterns = regex.into_patterns();

    assert_eq!(1, patterns.len());
    assert_eq!(
        EndOfString(Box::new(CharLiteral('a'))),
        patterns.pop_front().unwrap()
    );
}

#[test]
fn end_of_string_with_multiple_chars() {
    let regex = Regex::new("ab$").unwrap();
    let mut patterns = regex.into_patterns();

    assert_eq!(2, patterns.len());
    assert_eq!(CharLiteral('a'), patterns.pop_front().unwrap());
    assert_eq!(
        EndOfString(Box::new(CharLiteral('b'))),
        patterns.pop_front().unwrap()
    );
}

#[test]
fn singular_one_or_more_quantifier_with_single_char() {
    let regex = Regex::new("a+").unwrap();
    let mut patterns = regex.into_patterns();

    assert_eq!(1, patterns.len());
    assert_eq!(
        OneOrMoreQuantifier(Box::new(CharLiteral('a'))),
        patterns.pop_front().unwrap()
    );
}

#[test]
fn multiple_one_or_more_quantifiers_with_single_char() {
    let regex = Regex::new("a+b+").unwrap();
    let mut patterns = regex.into_patterns();

    assert_eq!(2, patterns.len());
    assert_eq!(
        OneOrMoreQuantifier(Box::new(CharLiteral('a'))),
        patterns.pop_front().unwrap()
    );
    assert_eq!(
        OneOrMoreQuantifier(Box::new(CharLiteral('b'))),
        patterns.pop_front().unwrap()
    );
}

#[test]
fn singular_one_or_more_quantifier_with_single_positive_char_group() {
    let regex = Regex::new("[abc]+").unwrap();
    let mut patterns = regex.into_patterns();

    assert_eq!(1, patterns.len());
    assert_eq!(
        OneOrMoreQuantifier(Box::new(PositiveCharGroup(vec!['a', 'b', 'c']))),
        patterns.pop_front().unwrap()
    );
}

#[test]
fn single_optional_quantifier_with_single_char() {
    let regex = Regex::new("a?").unwrap();
    let mut patterns = regex.into_patterns();

    assert_eq!(1, patterns.len());
    assert_eq!(
        OptionalQuantifier(Box::new(CharLiteral('a'))),
        patterns.pop_front().unwrap()
    );
}

#[test]
fn multiple_optional_quantifiers_with_single_char() {
    let regex = Regex::new("a?b?").unwrap();
    let mut patterns = regex.into_patterns();

    assert_eq!(2, patterns.len());
    assert_eq!(
        OptionalQuantifier(Box::new(CharLiteral('a'))),
        patterns.pop_front().unwrap()
    );
    assert_eq!(
        OptionalQuantifier(Box::new(CharLiteral('b'))),
        patterns.pop_front().unwrap()
    );
}

#[test]
fn single_optional_quantifier_with_single_positive_char_group() {
    let regex = Regex::new("[abc]?").unwrap();
    let mut patterns = regex.into_patterns();

    assert_eq!(1, patterns.len());
    assert_eq!(
        OptionalQuantifier(Box::new(PositiveCharGroup(vec!['a', 'b', 'c']))),
        patterns.pop_front().unwrap()
    );
}

#[test]
fn single_wildcard() {
    let regex = Regex::new(".").unwrap();
    let mut patterns = regex.into_patterns();

    assert_eq!(1, patterns.len());
    assert_eq!(Wildcard, patterns.pop_front().unwrap());
}

#[test]
fn multiple_wildcards() {
    let regex = Regex::new("...").unwrap();
    let mut patterns = regex.into_patterns();

    assert_eq!(3, patterns.len());
    assert_eq!(Wildcard, patterns.pop_front().unwrap());
    assert_eq!(Wildcard, patterns.pop_front().unwrap());
    assert_eq!(Wildcard, patterns.pop_front().unwrap());
}

#[test]
fn single_group_with_single_literal_char() {
    let regex = Regex::new("(a)").unwrap();
    let mut patterns = regex.into_patterns();

    let mut expected = VecDeque::new();
    expected.push_back(CharLiteral('a'));

    assert_eq!(1, patterns.len());
    assert_eq!(Group(expected), patterns.pop_front().unwrap());
}

#[test]
fn single_group_with_multiple_literal_chars() {
    let regex = Regex::new("(abc)").unwrap();
    let mut patterns = regex.into_patterns();

    let mut expected = VecDeque::new();
    expected.push_back(CharLiteral('a'));
    expected.push_back(CharLiteral('b'));
    expected.push_back(CharLiteral('c'));

    assert_eq!(1, patterns.len());
    assert_eq!(Group(expected), patterns.pop_front().unwrap());
}

#[test]
fn multiple_flat_groups_with_single_literal_char() {
    let regex = Regex::new("(a)(b)").unwrap();
    let mut patterns = regex.into_patterns();

    let mut expected_1 = VecDeque::new();
    expected_1.push_back(CharLiteral('a'));

    let mut expected_2 = VecDeque::new();
    expected_2.push_back(CharLiteral('b'));

    assert_eq!(2, patterns.len());
    assert_eq!(Group(expected_1), patterns.pop_front().unwrap());
    assert_eq!(Group(expected_2), patterns.pop_front().unwrap());
}

#[test]
fn single_alternation_with_two_options() {
    let regex = Regex::new("(cat|dog)").unwrap();
    let mut patterns = regex.into_patterns();

    let mut expected = VecDeque::new();
    expected.push_back({
        let mut word_vec = Vec::new();
        word_vec.push(vec![CharLiteral('c'), CharLiteral('a'), CharLiteral('t')]);
        word_vec.push(vec![CharLiteral('d'), CharLiteral('o'), CharLiteral('g')]);

        Alternation(word_vec)
    });

    assert_eq!(1, patterns.len());
    assert_eq!(Group(expected), patterns.pop_front().unwrap());
}

#[test]
fn single_alternation_with_four_options() {
    let regex = Regex::new("(cat|dog|bird|lion)").unwrap();
    let mut patterns = regex.into_patterns();

    let mut expected = VecDeque::new();
    expected.push_back({
        let mut word_vec = Vec::new();
        word_vec.push(vec![CharLiteral('c'), CharLiteral('a'), CharLiteral('t')]);
        word_vec.push(vec![CharLiteral('d'), CharLiteral('o'), CharLiteral('g')]);
        word_vec.push(vec![
            CharLiteral('b'),
            CharLiteral('i'),
            CharLiteral('r'),
            CharLiteral('d'),
        ]);
        word_vec.push(vec![
            CharLiteral('l'),
            CharLiteral('i'),
            CharLiteral('o'),
            CharLiteral('n'),
        ]);

        Alternation(word_vec)
    });

    assert_eq!(1, patterns.len());
    assert_eq!(Group(expected), patterns.pop_front().unwrap());
}

#[test]
fn multiple_flat_groups_with_multiple_literal_chars() {
    let regex = Regex::new("(abc)(def)").unwrap();
    let mut patterns = regex.into_patterns();

    let mut expected_1 = VecDeque::new();
    expected_1.push_back(CharLiteral('a'));
    expected_1.push_back(CharLiteral('b'));
    expected_1.push_back(CharLiteral('c'));

    let mut expected_2 = VecDeque::new();
    expected_2.push_back(CharLiteral('d'));
    expected_2.push_back(CharLiteral('e'));
    expected_2.push_back(CharLiteral('f'));

    assert_eq!(2, patterns.len());
    assert_eq!(Group(expected_1), patterns.pop_front().unwrap());
    assert_eq!(Group(expected_2), patterns.pop_front().unwrap());
}

#[test]
fn multiple_nested_groups_with_single_literal_char() {
    let regex = Regex::new("(a(b))").unwrap();
    let mut patterns = regex.into_patterns();

    let mut expected = VecDeque::new();
    expected.push_back(CharLiteral('a'));

    let mut inner_expected = VecDeque::new();
    inner_expected.push_back(CharLiteral('b'));
    expected.push_back(Group(inner_expected));

    assert_eq!(1, patterns.len());
    assert_eq!(Group(expected), patterns.pop_front().unwrap());
}

#[test]
fn multiple_nested_and_flat_groups_with_multiple_literal_chars() {
    let regex = Regex::new("(ab (cd (ef)) gh) (ij)").unwrap();
    let patterns = regex.into_patterns();

    let mut expected: VecDeque<Pattern> = VecDeque::new();

    expected.push_back({
        let mut vec_a_to_h = VecDeque::new();
        vec_a_to_h.push_back(CharLiteral('a'));
        vec_a_to_h.push_back(CharLiteral('b'));
        vec_a_to_h.push_back(CharLiteral(' '));

        vec_a_to_h.push_back({
            let mut vec_c_to_f = VecDeque::new();
            vec_c_to_f.push_back(CharLiteral('c'));
            vec_c_to_f.push_back(CharLiteral('d'));
            vec_c_to_f.push_back(CharLiteral(' '));

            vec_c_to_f.push_back({
                let mut vec_e_to_f = VecDeque::new();
                vec_e_to_f.push_back(CharLiteral('e'));
                vec_e_to_f.push_back(CharLiteral('f'));

                Group(vec_e_to_f)
            });

            Group(vec_c_to_f)
        });

        vec_a_to_h.push_back(CharLiteral(' '));
        vec_a_to_h.push_back(CharLiteral('g'));
        vec_a_to_h.push_back(CharLiteral('h'));

        Group(vec_a_to_h)
    });

    expected.push_back(CharLiteral(' '));

    expected.push_back({
        let mut vec_i_to_j = VecDeque::new();
        vec_i_to_j.push_back(CharLiteral('i'));
        vec_i_to_j.push_back(CharLiteral('j'));
        Group(vec_i_to_j)
    });

    assert_eq!(3, patterns.len());
    assert_eq!(expected, patterns);
}
