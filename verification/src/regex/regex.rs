//! Compiled regular expressions: how a pattern is compiled, and how the
//! result is matched against an input.

use crate::regex::captures::Captures;
use crate::regex::error::RegexParsingError;
use crate::regex::matcher::{match_sequence, Items};
use crate::regex::node::{seq_group_count, variants_group_count, Node};
use crate::regex::pattern::{
    lemma_view_alternation, lemma_view_group, nodes_of, variants_of, Pattern,
};
use crate::regex::semantics::{attempt, is_candidate, regex_matches};
use crate::regex::syntax::{
    anchor_first, bracket_close, bracket_end, bracket_node, close_level, compile, escape_node,
    lemma_anchor_first_group_count, lemma_bracket_bounds, lemma_bracket_close_bounds,
    lemma_scan_bounds, replace_last, scan,
};
use crate::text::{code_points, is_char_digit, lemma_seq_char_is_scalar};
use std::collections::VecDeque;
use vstd::prelude::*;
use vstd::slice::slice_subrange;

verus! {

broadcast use lemma_seq_char_is_scalar;

/// The pattern that a backslash makes of the character after it, if any.
fn escape_pattern(c: char) -> (r: Option<Pattern>)
    ensures
        match escape_node(c) {
            Some(node) => r matches Some(p) && p@ == node,
            None => r is None,
        },
{
    if c == 'w' {
        Some(Pattern::AlphanumericClass)
    } else if c == 'd' {
        Some(Pattern::DigitClass)
    } else if c == '\\' {
        Some(Pattern::CharLiteral('\\'))
    } else if is_char_digit(c) {
        let value: u32 = c as u32 - '0' as u32;
        Some(Pattern::Backreference(value as usize))
    } else {
        None
    }
}

/// Reads the bracket that opens just before `from`.
fn parse_bracket(pattern: &[char], from: usize) -> (r: (Pattern, usize))
    requires
        from <= pattern@.len(),
    ensures
        r.0@ == bracket_node(pattern@, from as int),
        r.1 == bracket_end(pattern@, from as int),
        from <= r.1 <= pattern@.len(),
{
    let negated = from < pattern.len() && pattern[from] == '^';
    let start: usize = if negated {
        from + 1
    } else {
        from
    };
    let mut chars: Vec<char> = Vec::new();
    let mut pos: usize = start;
    proof {
        lemma_bracket_bounds(pattern@, from as int);
        lemma_bracket_close_bounds(pattern@, start as int);
    }
    while pos < pattern.len() && pattern[pos] != ']'
        invariant
            start <= pos <= pattern@.len(),
            bracket_close(pattern@, start as int) == bracket_close(pattern@, pos as int),
            chars@ == pattern@.subrange(start as int, pos as int),
        decreases pattern@.len() - pos,
    {
        chars.push(pattern[pos]);
        pos += 1;
        assert(chars@ =~= pattern@.subrange(start as int, pos as int));
    }
    let end: usize = if pos < pattern.len() {
        pos + 1
    } else {
        pos
    };
    if negated {
        (Pattern::NegativeCharGroup(chars), end)
    } else {
        (Pattern::PositiveCharGroup(chars), end)
    }
}

/// Moves the items of a level into a branch of an alternation, in order.
fn into_branch(items: VecDeque<Pattern>) -> (branch: Vec<Pattern>)
    ensures
        branch@ == items@,
{
    let mut items = items;
    let ghost all = items@;
    let mut branch: Vec<Pattern> = Vec::new();
    while items.len() > 0
        invariant
            branch@ + items@ == all,
        decreases items@.len(),
    {
        let ghost before = items@;
        match items.pop_front() {
            Some(item) => {
                branch.push(item);
                assert(branch@ + items@ =~= all) by {
                    assert(before =~= seq![item] + items@);
                }
            },
            None => {},
        }
    }
    assert(branch@ =~= all);
    branch
}

/// The items of a level at its end: the current branch alone where no `|`
/// was read, else one alternation of all the branches.
fn finish_level(branches: Vec<Vec<Pattern>>, current: VecDeque<Pattern>) -> (items: VecDeque<
    Pattern,
>)
    ensures
        nodes_of(items@) == close_level(variants_of(branches@), nodes_of(current@)),
{
    if branches.len() == 0 {
        current
    } else {
        let mut branches = branches;
        let ghost closed = branches@;
        branches.push(into_branch(current));
        assert(variants_of(branches@) =~= variants_of(closed).push(nodes_of(current@)));
        proof {
            lemma_view_alternation(branches);
        }
        let mut items: VecDeque<Pattern> = VecDeque::new();
        items.push_back(Pattern::Alternation(branches));
        assert(nodes_of(items@) =~= seq![Node::Alternation(variants_of(branches@))]);
        items
    }
}

/// The kinds of node that wrap the node before them.
enum Wrapper {
    EndOfString,
    Optional,
    OneOrMore,
}

/// The node that `wrapper` makes of `inner`.
spec fn wrap_node(wrapper: Wrapper, inner: Node) -> Node {
    match wrapper {
        Wrapper::EndOfString => Node::EndOfString(Box::new(inner)),
        Wrapper::Optional => Node::OptionalQuantifier(Box::new(inner)),
        Wrapper::OneOrMore => Node::OneOrMoreQuantifier(Box::new(inner)),
    }
}

/// Wraps the last item of `current`, and says whether there was one.
fn wrap_last_item(current: &mut VecDeque<Pattern>, wrapper: Wrapper) -> (done: bool)
    ensures
        done == (old(current)@.len() > 0),
        done ==> nodes_of(final(current)@) == replace_last(
            nodes_of(old(current)@),
            wrap_node(wrapper, nodes_of(old(current)@).last()),
        ),
{
    match current.pop_back() {
        Some(last) => {
            let wrapped = match wrapper {
                Wrapper::EndOfString => Pattern::EndOfString(Box::new(last)),
                Wrapper::Optional => Pattern::OptionalQuantifier(Box::new(last)),
                Wrapper::OneOrMore => Pattern::OneOrMoreQuantifier(Box::new(last)),
            };
            current.push_back(wrapped);
            assert(nodes_of(current@) =~= replace_last(
                nodes_of(old(current)@),
                wrap_node(wrapper, nodes_of(old(current)@).last()),
            ));
            true
        },
        None => false,
    }
}

/// Adds `item` at the end of `current`.
fn push_item(current: &mut VecDeque<Pattern>, item: Pattern)
    ensures
        nodes_of(final(current)@) == nodes_of(old(current)@).push(item@),
{
    current.push_back(item);
    assert(nodes_of(current@) =~= nodes_of(old(current)@).push(item@));
}

/// A compiled regular expression.
#[derive(Debug)]
pub struct Regex {
    patterns: VecDeque<Pattern>,
}

impl View for Regex {
    type V = Seq<Node>;

    closed spec fn view(&self) -> Seq<Node> {
        nodes_of(self.patterns@)
    }
}

impl Regex {
    /// Every group of the expression has a slot number that fits the
    /// machine's word.
    #[verifier::type_invariant]
    spec fn slots_fit(&self) -> bool {
        seq_group_count(nodes_of(self.patterns@)) <= usize::MAX
    }

    /// Compiles `pattern`.
    ///
    /// Gives the expression that `compile` describes, or the error that it
    /// describes: `EmptyRegex` for the empty pattern, `InvalidStart` for a
    /// `^` with nothing to anchor, `InvalidEnd`, `InvalidOptionalQuantifier`
    /// and `InvalidOneOrMoreQuantifier` for a `$`, `?` or `+` with nothing
    /// before it on its level, and `InvalidCharClass` for a backslash before
    /// anything but `d`, `w`, a backslash or a digit. The first of these from
    /// the left decides.
    pub fn new(pattern: &str) -> (r: Result<Regex, RegexParsingError>)
        ensures
            match compile(pattern@) {
                Ok(nodes) => r matches Ok(regex) && regex@ == nodes,
                Err(e) => r matches Err(err) && err == e,
            },
    {
        let chars = code_points(pattern);
        if chars.len() == 0 {
            return Err(RegexParsingError::EmptyRegex);
        }
        if chars[0] == '^' {
            if chars.len() == 1 {
                return Err(RegexParsingError::InvalidStart);
            }
            let rest = slice_subrange(chars.as_slice(), 1, chars.len());
            assert(rest@ =~= pattern@.drop_first());
            proof {
                lemma_scan_bounds(rest@, 0, Seq::empty(), Seq::empty());
                assert(variants_group_count(Seq::<Seq<Node>>::empty()) == 0);
                assert(seq_group_count(Seq::<Node>::empty()) == 0);
            }
            match Self::parse_pattern(rest, 0) {
                Ok((items, _)) => {
                    let mut items = items;
                    let ghost read = nodes_of(items@);
                    match items.pop_front() {
                        Some(first) => {
                            items.push_front(Pattern::StartOfString(Box::new(first)));
                            proof {
                                assert(nodes_of(items@) =~= anchor_first(read));
                                lemma_anchor_first_group_count(read);
                            }
                            Ok(Regex { patterns: items })
                        },
                        None => Err(RegexParsingError::InvalidStart),
                    }
                },
                Err(e) => Err(e),
            }
        } else {
            let whole = chars.as_slice();
            proof {
                lemma_scan_bounds(whole@, 0, Seq::empty(), Seq::empty());
                assert(variants_group_count(Seq::<Seq<Node>>::empty()) == 0);
                assert(seq_group_count(Seq::<Node>::empty()) == 0);
            }
            match Self::parse_pattern(whole, 0) {
                Ok((items, _)) => Ok(Regex { patterns: items }),
                Err(e) => Err(e),
            }
        }
    }

    /// Whether the expression matches somewhere in `input`.
    ///
    /// An anchored expression is tried at the start of the input, any other
    /// at every code point of it in turn, each time with nothing captured.
    pub fn matches(&self, input: &str) -> (matched: bool)
        ensures
            matched == regex_matches(self@, input@),
    {
        let chars = code_points(input);
        let starts = self.find_start_indexes(chars.as_slice());
        proof {
            use_type_invariant(self);
        }
        let mut k: usize = 0;
        while k < starts.len()
            invariant
                k <= starts@.len(),
                chars@ == input@,
                seq_group_count(nodes_of(self.patterns@)) <= usize::MAX,
                forall|j: int| 0 <= j < starts@.len() ==> starts@[j] == j,
                forall|start: int|
                    is_candidate(self@, input@, start) <==> 0 <= start < starts@.len(),
                forall|start: int| 0 <= start < k ==> attempt(self@, input@, start) is None,
            decreases starts@.len() - k,
        {
            let mut captures = Captures::new();
            assert(is_candidate(self@, input@, k as int));
            let end = match_sequence(
                Items::Deque(&self.patterns),
                None,
                chars.as_slice(),
                starts[k],
                &mut captures,
                0,
            );
            if end.is_some() {
                return true;
            }
            k += 1;
        }
        false
    }

    /// The positions at which an attempt starts, in the order in which they
    /// are tried: the start of the input alone for an anchored expression,
    /// else every position that holds a code point.
    fn find_start_indexes(&self, input: &[char]) -> (starts: Vec<usize>)
        ensures
            forall|j: int| 0 <= j < starts@.len() ==> starts@[j] == j,
            forall|start: int| is_candidate(self@, input@, start) <==> 0 <= start < starts@.len(),
    {
        let anchored = self.patterns.len() > 0 && match &self.patterns[0] {
            Pattern::StartOfString(_) => true,
            _ => false,
        };
        let count: usize = if anchored {
            1
        } else {
            input.len()
        };
        let mut starts: Vec<usize> = Vec::new();
        let mut i: usize = 0;
        while i < count
            invariant
                i <= count,
                starts@.len() == i,
                forall|j: int| 0 <= j < i ==> starts@[j] == j,
            decreases count - i,
        {
            starts.push(i);
            i += 1;
        }
        starts
    }

    /// The top-level items of the expression, in order.
    pub fn patterns(&self) -> (items: &VecDeque<Pattern>)
        ensures
            nodes_of(items@) == self@,
    {
        &self.patterns
    }

    /// Takes the expression apart into its top-level items.
    pub fn into_patterns(self) -> (items: VecDeque<Pattern>)
        ensures
            nodes_of(items@) == self@,
    {
        self.patterns
    }

    /// Reads one level of `pattern` from `start` on: up to and including the
    /// `)` that closes it, or up to the end of the pattern. Gives the items
    /// of the level and the position after it.
    fn parse_pattern(pattern: &[char], start: usize) -> (r: Result<
        (VecDeque<Pattern>, usize),
        RegexParsingError,
    >)
        requires
            start <= pattern@.len(),
        ensures
            match scan(pattern@, start as int, Seq::empty(), Seq::empty()) {
                Ok(level) => r matches Ok((items, end)) && nodes_of(items@) == level.nodes()
                    && end == level.end,
                Err(e) => r matches Err(err) && err == e,
            },
        decreases pattern@.len() - start,
    {
        let ghost goal = scan(pattern@, start as int, Seq::empty(), Seq::empty());
        let mut branches: Vec<Vec<Pattern>> = Vec::new();
        let mut current: VecDeque<Pattern> = VecDeque::new();
        let mut pos: usize = start;
        assert(variants_of(branches@) =~= Seq::empty());
        assert(nodes_of(current@) =~= Seq::empty());
        while pos < pattern.len()
            invariant
                start <= pos <= pattern@.len(),
                goal == scan(pattern@, start as int, Seq::empty(), Seq::empty()),
                goal == scan(pattern@, pos as int, variants_of(branches@), nodes_of(current@)),
            decreases pattern@.len() - pos,
        {
            let c = pattern[pos];
            if c == ')' {
                return Ok((finish_level(branches, current), pos + 1));
            } else if c == '|' {
                let ghost closed = branches@;
                branches.push(into_branch(current));
                assert(variants_of(branches@) =~= variants_of(closed).push(nodes_of(current@)));
                current = VecDeque::new();
                assert(nodes_of(current@) =~= Seq::empty());
                pos += 1;
            } else if c == '$' {
                if !wrap_last_item(&mut current, Wrapper::EndOfString) {
                    return Err(RegexParsingError::InvalidEnd);
                }
                pos += 1;
            } else if c == '?' {
                if !wrap_last_item(&mut current, Wrapper::Optional) {
                    return Err(RegexParsingError::InvalidOptionalQuantifier);
                }
                pos += 1;
            } else if c == '+' {
                if !wrap_last_item(&mut current, Wrapper::OneOrMore) {
                    return Err(RegexParsingError::InvalidOneOrMoreQuantifier);
                }
                pos += 1;
            } else if c == '.' {
                push_item(&mut current, Pattern::Wildcard);
                pos += 1;
            } else if c == '\\' {
                if pos + 1 >= pattern.len() {
                    return Err(RegexParsingError::InvalidCharClass);
                }
                match escape_pattern(pattern[pos + 1]) {
                    Some(item) => push_item(&mut current, item),
                    None => {
                        return Err(RegexParsingError::InvalidCharClass);
                    },
                }
                pos += 2;
            } else if c == '[' {
                let (item, end) = parse_bracket(pattern, pos + 1);
                push_item(&mut current, item);
                pos = end;
            } else if c == '(' {
                proof {
                    lemma_scan_bounds(pattern@, pos + 1, Seq::empty(), Seq::empty());
                }
                match Self::parse_pattern(pattern, pos + 1) {
                    Ok((items, end)) => {
                        proof {
                            lemma_view_group(items);
                        }
                        push_item(&mut current, Pattern::Group(items));
                        pos = end;
                    },
                    Err(e) => {
                        return Err(e);
                    },
                }
            } else {
                push_item(&mut current, Pattern::CharLiteral(c));
                pos += 1;
            }
        }
        Ok((finish_level(branches, current), pos))
    }
}

} // verus!
