//! A matcher for flat patterns, which are read while they are matched.
//!
//! A flat pattern is a row of elements, each of which takes one character of
//! the input: `\d` for a decimal digit, `\w` for an ASCII letter or digit, a
//! list of characters in square brackets, negated by a `^` in first place,
//! and any other character for itself. A backslash before anything but `d`
//! or `w`, another backslash too, is no element: it is passed over together
//! with the character after it and takes nothing from the input. There are no
//! groups, quantifiers, wildcards or anchors here; `crate::regex` has those.

use crate::regex::syntax::{bracket_close, lemma_bracket_close_bounds};
use crate::text::{
    code_points, contains_char, is_alphanumeric, is_char_alphanumeric, is_char_digit, is_digit,
    lemma_seq_char_is_scalar,
};
use vstd::prelude::*;

verus! {

broadcast use lemma_seq_char_is_scalar;

/// The characters that the list of a bracket holds after its first place:
/// those from `from` up to the first `]`, or up to the end of the pattern.
pub open spec fn listed_from(pattern: Seq<char>, from: int) -> Seq<char> {
    pattern.subrange(from, bracket_close(pattern, from))
}

/// Whether a backslash stands at `p` that is passed over: one before
/// anything but `d` or `w`, or one that ends the pattern.
pub open spec fn is_passed_over(pattern: Seq<char>, p: int) -> bool {
    0 <= p < pattern.len() && pattern[p] == '\\' && (p + 1 >= pattern.len() || (pattern[p + 1]
        != 'd' && pattern[p + 1] != 'w'))
}

/// Whether the element of `pattern` that starts at `p` accepts `c`.
///
/// The first character after the `[` of a bracket that is not negated is
/// listed whatever it is, a `]` too. A backslash that is passed over, and a
/// `[` that ends the pattern, accept nothing.
pub open spec fn element_accepts(pattern: Seq<char>, p: int, c: char) -> bool {
    if p < 0 || p >= pattern.len() {
        false
    } else if pattern[p] == '\\' {
        if p + 1 >= pattern.len() {
            false
        } else if pattern[p + 1] == 'd' {
            is_digit(c)
        } else {
            pattern[p + 1] == 'w' && is_alphanumeric(c)
        }
    } else if pattern[p] == '[' {
        if p + 1 >= pattern.len() {
            false
        } else if pattern[p + 1] == '^' {
            !listed_from(pattern, p + 2).contains(c)
        } else {
            c == pattern[p + 1] || listed_from(pattern, p + 2).contains(c)
        }
    } else {
        c == pattern[p]
    }
}

/// The position after the bracket whose list runs from `from` on.
pub open spec fn list_end(pattern: Seq<char>, from: int) -> int {
    let close = bracket_close(pattern, from);
    if close < pattern.len() {
        close + 1
    } else {
        close
    }
}

/// The position after the element of `pattern` that starts at `p`.
pub open spec fn element_end(pattern: Seq<char>, p: int) -> int {
    if 0 <= p < pattern.len() && pattern[p] == '\\' {
        p + 2
    } else if 0 <= p < pattern.len() && pattern[p] == '[' {
        list_end(pattern, p + 2)
    } else {
        p + 1
    }
}

/// An element that accepts a character ends after the place where it
/// starts, and within the pattern.
pub proof fn lemma_element_end(pattern: Seq<char>, p: int, c: char)
    requires
        element_accepts(pattern, p, c),
    ensures
        p < element_end(pattern, p) <= pattern.len(),
{
    if pattern[p] == '[' {
        lemma_bracket_close_bounds(pattern, p + 2);
    }
}

/// Whether `pattern` from `p` on matches `input` from `i` on: every element
/// accepts the character that it meets, one after the other, and what is
/// passed over takes none.
pub open spec fn flat_match(pattern: Seq<char>, p: int, input: Seq<char>, i: int) -> bool
    decreases pattern.len() - p,
{
    if p < 0 || p >= pattern.len() {
        true
    } else if is_passed_over(pattern, p) {
        p + 1 >= pattern.len() || flat_match(pattern, p + 2, input, i)
    } else if 0 <= i < input.len() && element_accepts(pattern, p, input[i]) {
        proof {
            lemma_element_end(pattern, p, input[i]);
        }
        flat_match(pattern, element_end(pattern, p), input, i + 1)
    } else {
        false
    }
}

/// Whether `pattern` matches somewhere in `input`: it starts with an element
/// that takes a character, and from some position of the input on it matches
/// element by element. The empty pattern, and one that starts with a
/// backslash that is passed over, give no position to start at.
pub open spec fn flat_matches(input: Seq<char>, pattern: Seq<char>) -> bool {
    pattern.len() > 0 && !is_passed_over(pattern, 0) && exists|i: int|
        0 <= i < input.len() && #[trigger] flat_match(pattern, 0, input, i)
}

/// The characters that the first element of `pattern` accepts. Only at a
/// position that holds one of them does an attempt start.
pub open spec fn first_accepted(pattern: Seq<char>) -> Set<char> {
    Set::new(|c: char| element_accepts(pattern, 0, c))
}

/// A pattern whose first element takes a character matches only from
/// positions that hold a character that this element accepts.
pub proof fn lemma_match_starts_at_first(pattern: Seq<char>, input: Seq<char>, i: int)
    requires
        pattern.len() > 0,
        !is_passed_over(pattern, 0),
        0 <= i < input.len(),
        flat_match(pattern, 0, input, i),
    ensures
        first_accepted(pattern).contains(input[i]),
{
}

/// The characters at which an attempt to match may start.
#[derive(Debug)]
pub enum StartFilter {
    /// A decimal digit.
    Digit,
    /// An ASCII letter or digit.
    Alphanumeric,
    /// The given character.
    Is(char),
    /// Any of the given characters.
    OneOf(Vec<char>),
    /// Any character but the given ones.
    NoneOf(Vec<char>),
    /// None.
    Nowhere,
}

impl StartFilter {
    /// Whether an attempt may start at a position that holds `c`.
    pub open spec fn admits(self, c: char) -> bool {
        match self {
            StartFilter::Digit => is_digit(c),
            StartFilter::Alphanumeric => is_alphanumeric(c),
            StartFilter::Is(wanted) => c == wanted,
            StartFilter::OneOf(wanted) => wanted@.contains(c),
            StartFilter::NoneOf(unwanted) => !unwanted@.contains(c),
            StartFilter::Nowhere => false,
        }
    }

    /// The characters at which an attempt may start.
    pub open spec fn admitted(self) -> Set<char> {
        Set::new(|c: char| self.admits(c))
    }

    /// Whether an attempt may start at a position that holds `c`.
    pub fn test(&self, c: char) -> (admitted: bool)
        ensures
            admitted == self.admits(c),
    {
        match self {
            StartFilter::Digit => is_char_digit(c),
            StartFilter::Alphanumeric => is_char_alphanumeric(c),
            StartFilter::Is(wanted) => c == *wanted,
            StartFilter::OneOf(wanted) => contains_char(wanted, c),
            StartFilter::NoneOf(unwanted) => !contains_char(unwanted, c),
            StartFilter::Nowhere => false,
        }
    }
}

/// Whether `pattern` matches somewhere in `input_line`.
///
/// It does so where the pattern starts with an element that takes a
/// character and matches, element by element, from some position of the
/// line on.
pub fn match_pattern(input_line: &str, pattern: &str) -> (matched: bool)
    ensures
        matched == flat_matches(input_line@, pattern@),
{
    let input = code_points(input_line);
    let pattern_chars = code_points(pattern);
    let starts = get_pattern_start_indexes(input.as_slice(), pattern_chars.as_slice());
    let mut k: usize = 0;
    while k < starts.len()
        invariant
            k <= starts@.len(),
            input@ == input_line@,
            pattern_chars@ == pattern@,
            is_selection(starts@, input@, first_accepted(pattern@)),
            forall|j: int|
                0 <= j < k ==> !flat_match(pattern@, 0, input@, (#[trigger] starts@[j]) as int),
        decreases starts@.len() - k,
    {
        if pattern_matches_for_substring(
            input.as_slice(),
            starts[k],
            pattern_chars.as_slice(),
        ) {
            assert(first_accepted(pattern@).contains(input@[starts@[k as int] as int]));
            return true;
        }
        k += 1;
    }
    assert forall|i: int|
        pattern@.len() > 0 && !is_passed_over(pattern@, 0) && 0 <= i
            < input@.len() implies !#[trigger] flat_match(pattern@, 0, input@, i) by {
        if flat_match(pattern@, 0, input@, i) {
            lemma_match_starts_at_first(pattern@, input@, i);
            let j = choose|j: int| 0 <= j < starts@.len() && starts@[j] == i;
            assert(!flat_match(pattern@, 0, input@, starts@[j] as int));
        }
    }
    false
}

/// Reads the list of a bracket from `from` on: its characters up to the
/// first `]`, and the position after that `]`.
fn read_list(pattern: &[char], from: usize) -> (r: (Vec<char>, usize))
    requires
        from <= pattern@.len(),
    ensures
        r.0@ == listed_from(pattern@, from as int),
        r.1 == list_end(pattern@, from as int),
        from <= r.1 <= pattern@.len(),
{
    let mut list: Vec<char> = Vec::new();
    let mut q: usize = from;
    proof {
        lemma_bracket_close_bounds(pattern@, from as int);
    }
    while q < pattern.len() && pattern[q] != ']'
        invariant
            from <= q <= pattern@.len(),
            bracket_close(pattern@, from as int) == bracket_close(pattern@, q as int),
            list@ == pattern@.subrange(from as int, q as int),
        decreases pattern@.len() - q,
    {
        list.push(pattern[q]);
        q += 1;
        assert(list@ =~= pattern@.subrange(from as int, q as int));
    }
    let end: usize = if q < pattern.len() {
        q + 1
    } else {
        q
    };
    (list, end)
}

/// Whether `pattern` matches `input` from position `from` on, element by
/// element.
pub fn pattern_matches_for_substring(input: &[char], from: usize, pattern: &[char]) -> (matched:
    bool)
    requires
        from <= input@.len(),
    ensures
        matched == flat_match(pattern@, 0, input@, from as int),
{
    let mut p: usize = 0;
    let mut i: usize = from;
    while p < pattern.len()
        invariant
            p <= pattern@.len(),
            i <= input@.len(),
            flat_match(pattern@, 0, input@, from as int) == flat_match(
                pattern@,
                p as int,
                input@,
                i as int,
            ),
        decreases pattern@.len() - p,
    {
        let element = pattern[p];
        if element == '\\' {
            if p + 1 >= pattern.len() {
                return true;
            }
            let class = pattern[p + 1];
            if class == 'd' {
                if i >= input.len() || !is_char_digit(input[i]) {
                    return false;
                }
                i += 1;
            } else if class == 'w' {
                if i >= input.len() || !is_char_alphanumeric(input[i]) {
                    return false;
                }
                i += 1;
            }
            p += 2;
        } else if element == '[' {
            if p + 1 >= pattern.len() || i >= input.len() {
                return false;
            }
            let first = pattern[p + 1];
            let (list, end) = read_list(pattern, p + 2);
            let listed = contains_char(&list, input[i]);
            let accepted = if first == '^' {
                !listed
            } else {
                input[i] == first || listed
            };
            if !accepted {
                return false;
            }
            p = end;
            i += 1;
        } else {
            if i >= input.len() || input[i] != element {
                return false;
            }
            p += 1;
            i += 1;
        }
    }
    true
}

/// Whether `starts` lists, in rising order, exactly the positions of `input`
/// that hold a character of `admitted`.
pub open spec fn is_selection(starts: Seq<usize>, input: Seq<char>, admitted: Set<char>) -> bool {
    &&& forall|j: int, k: int| 0 <= j < k < starts.len() ==> starts[j] < starts[k]
    &&& forall|j: int|
        0 <= j < starts.len() ==> (#[trigger] starts[j]) < input.len() && admitted.contains(
            input[starts[j] as int],
        )
    &&& forall|i: int|
        0 <= i < input.len() && admitted.contains(#[trigger] input[i]) ==> exists|j: int|
            0 <= j < starts.len() && starts[j] == i
}

/// The positions of `input` at which an attempt to match `pattern` starts:
/// those that hold a character that the first element of the pattern accepts,
/// in rising order.
pub fn get_pattern_start_indexes(input: &[char], pattern: &[char]) -> (starts: Vec<usize>)
    ensures
        is_selection(starts@, input@, first_accepted(pattern@)),
{
    let filter = if pattern.len() == 0 {
        StartFilter::Nowhere
    } else if pattern[0] == '\\' {
        if pattern.len() < 2 {
            StartFilter::Nowhere
        } else if pattern[1] == 'd' {
            StartFilter::Digit
        } else if pattern[1] == 'w' {
            StartFilter::Alphanumeric
        } else {
            StartFilter::Nowhere
        }
    } else if pattern[0] == '[' {
        if pattern.len() < 2 {
            StartFilter::Nowhere
        } else if pattern[1] == '^' {
            let (list, _) = read_list(pattern, 2);
            StartFilter::NoneOf(list)
        } else {
            let (list, _) = read_list(pattern, 2);
            let mut wanted: Vec<char> = Vec::new();
            wanted.push(pattern[1]);
            let mut k: usize = 0;
            while k < list.len()
                invariant
                    k <= list@.len(),
                    wanted@ == seq![pattern@[1]] + list@.take(k as int),
                decreases list@.len() - k,
            {
                wanted.push(list[k]);
                k += 1;
                assert(wanted@ =~= seq![pattern@[1]] + list@.take(k as int));
            }
            proof {
                assert(list@.take(k as int) =~= list@);
                lemma_contains_after_first(pattern@[1], list@);
            }
            StartFilter::OneOf(wanted)
        }
    } else {
        StartFilter::Is(pattern[0])
    };
    assert(filter.admitted() =~= first_accepted(pattern@));
    get_indexes_by_filter(input, &filter)
}

/// A list with one character put before it holds that character and what
/// the list held.
pub proof fn lemma_contains_after_first(first: char, list: Seq<char>)
    ensures
        forall|c: char|
            #[trigger] (seq![first] + list).contains(c) <==> c == first || list.contains(c),
{
    let whole = seq![first] + list;
    assert forall|c: char| #[trigger] whole.contains(c) <==> c == first || list.contains(c) by {
        if whole.contains(c) {
            let j = choose|j: int| 0 <= j < whole.len() && whole[j] == c;
            if j > 0 {
                assert(list[j - 1] == c);
            }
        }
        if c == first {
            assert(whole[0] == c);
        }
        if list.contains(c) {
            let j = choose|j: int| 0 <= j < list.len() && list[j] == c;
            assert(whole[j + 1] == c);
        }
    }
}

/// The positions of `input` that `filter` admits, in rising order.
pub fn get_indexes_by_filter(input: &[char], filter: &StartFilter) -> (starts: Vec<usize>)
    ensures
        is_selection(starts@, input@, filter.admitted()),
{
    let ghost admitted = filter.admitted();
    let mut starts: Vec<usize> = Vec::new();
    let mut i: usize = 0;
    while i < input.len()
        invariant
            i <= input@.len(),
            admitted == filter.admitted(),
            is_selection(starts@, input@.take(i as int), admitted),
        decreases input@.len() - i,
    {
        let ghost before = starts@;
        if filter.test(input[i]) {
            starts.push(i);
        }
        i += 1;
        proof {
            let seen = input@.take(i as int);
            assert forall|w: int|
                0 <= w < seen.len() && admitted.contains(#[trigger] seen[w]) implies exists|j: int|
                0 <= j < starts@.len() && starts@[j] == w by {
                if w < i - 1 {
                    assert(input@.take(i - 1)[w] == seen[w]);
                    let j = choose|j: int| 0 <= j < before.len() && before[j] == w;
                    assert(starts@[j] == w);
                } else {
                    assert(starts@[starts@.len() - 1] == w);
                }
            }
            assert forall|j: int| 0 <= j < starts@.len() implies (#[trigger] starts@[j])
                < seen.len() && admitted.contains(seen[starts@[j] as int]) by {
                if j < before.len() {
                    assert(before[j] < i - 1);
                    assert(input@.take(i - 1)[before[j] as int] == seen[before[j] as int]);
                }
            }
        }
    }
    assert(input@.take(i as int) =~= input@);
    starts
}

} // verus!
