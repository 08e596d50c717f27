//! What a pattern compiles to.
//!
//! A pattern is read from left to right, one character at a time. The nodes
//! read so far on the current level are kept in a sequence, to which a
//! quantifier or `$` reaches back for the node it applies to. The functions
//! here define the outcome of that reading.

use crate::regex::error::RegexParsingError;
use crate::regex::node::{
    group_count, lemma_seq_group_count_push, lemma_seq_group_count_replace_last,
    lemma_variants_group_count_push, seq_group_count, variants_group_count, Node,
};
use crate::text::{is_digit, lemma_seq_char_is_scalar};
use vstd::prelude::*;

verus! {

broadcast use lemma_seq_char_is_scalar;

/// What reading one level of a pattern yields.
pub struct Level {
    /// The branches of the level that a `|` has closed.
    pub branches: Seq<Seq<Node>>,
    /// The nodes of the branch that was read last.
    pub current: Seq<Node>,
    /// The position after the level.
    pub end: int,
    /// Whether a `)` ended the level, rather than the end of the pattern.
    pub closed: bool,
}

impl Level {
    /// The nodes that the level stands for.
    pub open spec fn nodes(self) -> Seq<Node> {
        close_level(self.branches, self.current)
    }
}

/// The value of a decimal digit.
pub open spec fn digit_value(c: char) -> nat
    recommends
        is_digit(c),
{
    (c as int - '0' as int) as nat
}

/// The node that a backslash makes of the character after it, if any.
pub open spec fn escape_node(c: char) -> Option<Node> {
    if c == 'w' {
        Some(Node::AlphanumericClass)
    } else if c == 'd' {
        Some(Node::DigitClass)
    } else if c == '\\' {
        Some(Node::CharLiteral('\\'))
    } else if is_digit(c) {
        Some(Node::Backreference(digit_value(c)))
    } else {
        None
    }
}

/// The first position from `from` on that holds `]`, or the length of `s`
/// where there is none.
pub open spec fn bracket_close(s: Seq<char>, from: int) -> int
    decreases s.len() - from,
{
    if from >= s.len() {
        s.len() as int
    } else if s[from] == ']' {
        from
    } else {
        bracket_close(s, from + 1)
    }
}

/// Whether the bracket that opens just before `from` is a negated one.
pub open spec fn bracket_negated(s: Seq<char>, from: int) -> bool {
    0 <= from < s.len() && s[from] == '^'
}

/// The position of the first listed character of the bracket that opens just
/// before `from`.
pub open spec fn bracket_start(s: Seq<char>, from: int) -> int {
    if bracket_negated(s, from) {
        from + 1
    } else {
        from
    }
}

/// The node of the bracket that opens just before `from`: every character up
/// to the first `]` is listed as it stands, but for a `^` in first place,
/// which negates the list.
pub open spec fn bracket_node(s: Seq<char>, from: int) -> Node {
    let start = bracket_start(s, from);
    let chars = s.subrange(start, bracket_close(s, start));
    if bracket_negated(s, from) {
        Node::NegativeCharGroup(chars)
    } else {
        Node::PositiveCharGroup(chars)
    }
}

/// The position after the bracket that opens just before `from`: after its
/// `]`, or the end of the pattern where it is not closed.
pub open spec fn bracket_end(s: Seq<char>, from: int) -> int {
    let close = bracket_close(s, bracket_start(s, from));
    if close < s.len() {
        close + 1
    } else {
        close
    }
}

/// A bracket ends after the place where it opens, and within the pattern.
pub proof fn lemma_bracket_bounds(s: Seq<char>, from: int)
    requires
        0 <= from <= s.len(),
    ensures
        from <= bracket_start(s, from) <= bracket_close(s, bracket_start(s, from)) <= s.len(),
        from <= bracket_end(s, from) <= s.len(),
{
    lemma_bracket_close_bounds(s, bracket_start(s, from));
}

/// The closing position of a bracket lies between its start and the end of
/// the pattern, and no `]` stands before it.
pub proof fn lemma_bracket_close_bounds(s: Seq<char>, from: int)
    requires
        0 <= from <= s.len(),
    ensures
        from <= bracket_close(s, from) <= s.len(),
        forall|i: int| from <= i < bracket_close(s, from) ==> s[i] != ']',
        bracket_close(s, from) < s.len() ==> s[bracket_close(s, from)] == ']',
    decreases s.len() - from,
{
    if from < s.len() && s[from] != ']' {
        lemma_bracket_close_bounds(s, from + 1);
    }
}

/// The nodes of a level at its end: the current branch alone where no `|`
/// was read, else one alternation of all the branches.
pub open spec fn close_level(branches: Seq<Seq<Node>>, current: Seq<Node>) -> Seq<Node> {
    if branches.len() == 0 {
        current
    } else {
        seq![Node::Alternation(branches.push(current))]
    }
}

/// `current` with `node` in place of its last node.
pub open spec fn replace_last(current: Seq<Node>, node: Node) -> Seq<Node>
    recommends
        current.len() > 0,
{
    current.drop_last().push(node)
}

/// The reading of one level of the pattern `s` from `pos` on, where
/// `branches` are the branches of the level that a `|` has closed and
/// `current` holds the nodes of the branch being read.
///
/// The level ends at a `)` or at the end of the pattern. A group is a level
/// of its own, read from the character after its `(`; the level around it
/// goes on after it. That a group ends further on than it starts is what
/// makes the reading end; `lemma_scan_bounds` shows that it always does, so
/// that no pattern gets the error that stands in for the other case.
pub open spec fn scan(s: Seq<char>, pos: int, branches: Seq<Seq<Node>>, current: Seq<Node>)
    -> Result<Level, RegexParsingError>
    decreases s.len() - pos,
{
    if pos < 0 || pos >= s.len() {
        Ok(Level { branches, current, end: pos, closed: false })
    } else {
        let c = s[pos];
        if c == ')' {
            Ok(Level { branches, current, end: pos + 1, closed: true })
        } else if c == '|' {
            scan(s, pos + 1, branches.push(current), Seq::empty())
        } else if c == '$' {
            if current.len() == 0 {
                Err(RegexParsingError::InvalidEnd)
            } else {
                scan(
                    s,
                    pos + 1,
                    branches,
                    replace_last(current, Node::EndOfString(Box::new(current.last()))),
                )
            }
        } else if c == '?' {
            if current.len() == 0 {
                Err(RegexParsingError::InvalidOptionalQuantifier)
            } else {
                scan(
                    s,
                    pos + 1,
                    branches,
                    replace_last(current, Node::OptionalQuantifier(Box::new(current.last()))),
                )
            }
        } else if c == '+' {
            if current.len() == 0 {
                Err(RegexParsingError::InvalidOneOrMoreQuantifier)
            } else {
                scan(
                    s,
                    pos + 1,
                    branches,
                    replace_last(current, Node::OneOrMoreQuantifier(Box::new(current.last()))),
                )
            }
        } else if c == '.' {
            scan(s, pos + 1, branches, current.push(Node::Wildcard))
        } else if c == '\\' {
            if pos + 1 >= s.len() {
                Err(RegexParsingError::InvalidCharClass)
            } else {
                match escape_node(s[pos + 1]) {
                    Some(node) => scan(s, pos + 2, branches, current.push(node)),
                    None => Err(RegexParsingError::InvalidCharClass),
                }
            }
        } else if c == '[' {
            proof {
                lemma_bracket_bounds(s, pos + 1);
            }
            scan(s, bracket_end(s, pos + 1), branches, current.push(bracket_node(s, pos + 1)))
        } else if c == '(' {
            match scan(s, pos + 1, Seq::empty(), Seq::empty()) {
                Ok(inner) => if pos < inner.end <= s.len() {
                    scan(s, inner.end, branches, current.push(Node::Group(inner.nodes())))
                } else {
                    Err(RegexParsingError::InvalidCharClass)
                },
                Err(e) => Err(e),
            }
        } else {
            scan(s, pos + 1, branches, current.push(Node::CharLiteral(c)))
        }
    }
}

/// Whether a level read from `pos` ends after `pos` and within the pattern,
/// at the end of the pattern unless a `)` ended it, and holds no more new
/// groups than characters were read.
pub open spec fn scan_bounded(
    s: Seq<char>,
    pos: int,
    branches: Seq<Seq<Node>>,
    current: Seq<Node>,
) -> bool {
    scan(s, pos, branches, current) matches Ok(level) ==> {
        &&& pos <= level.end <= s.len()
        &&& pos < s.len() ==> pos < level.end
        &&& !level.closed ==> level.end == s.len()
        &&& seq_group_count(level.nodes()) <= variants_group_count(branches) + seq_group_count(
            current,
        ) + (level.end - pos)
    }
}

/// A level ends after the place where it starts, and within the pattern;
/// and every group in it took at least one character to open.
pub proof fn lemma_scan_bounds(
    s: Seq<char>,
    pos: int,
    branches: Seq<Seq<Node>>,
    current: Seq<Node>,
)
    requires
        0 <= pos <= s.len(),
    ensures
        scan_bounded(s, pos, branches, current),
    decreases s.len() - pos,
{
    lemma_variants_group_count_push(branches, current);
    assert(seq_group_count(close_level(branches, current)) == variants_group_count(branches)
        + seq_group_count(current)) by {
        if branches.len() > 0 {
            let alt = Node::Alternation(branches.push(current));
            assert(seq![alt].drop_first() =~= Seq::<Node>::empty());
            assert(seq_group_count(seq![alt]) == group_count(alt) + seq_group_count(
                seq![alt].drop_first(),
            ));
            assert(seq_group_count(Seq::<Node>::empty()) == 0);
        } else {
            assert(variants_group_count(branches) == 0);
        }
    }
    if pos < s.len() {
        let c = s[pos];
        if c == ')' {
        } else if c == '|' {
            assert(seq_group_count(Seq::<Node>::empty()) == 0);
            lemma_scan_bounds(s, pos + 1, branches.push(current), Seq::empty());
        } else if c == '$' {
            if current.len() > 0 {
                let node = Node::EndOfString(Box::new(current.last()));
                lemma_seq_group_count_replace_last(current, node);
                lemma_scan_bounds(s, pos + 1, branches, replace_last(current, node));
            }
        } else if c == '?' {
            if current.len() > 0 {
                let node = Node::OptionalQuantifier(Box::new(current.last()));
                lemma_seq_group_count_replace_last(current, node);
                lemma_scan_bounds(s, pos + 1, branches, replace_last(current, node));
            }
        } else if c == '+' {
            if current.len() > 0 {
                let node = Node::OneOrMoreQuantifier(Box::new(current.last()));
                lemma_seq_group_count_replace_last(current, node);
                lemma_scan_bounds(s, pos + 1, branches, replace_last(current, node));
            }
        } else if c == '.' {
            lemma_seq_group_count_push(current, Node::Wildcard);
            lemma_scan_bounds(s, pos + 1, branches, current.push(Node::Wildcard));
        } else if c == '\\' {
            if pos + 1 < s.len() {
                match escape_node(s[pos + 1]) {
                    Some(node) => {
                        lemma_seq_group_count_push(current, node);
                        lemma_scan_bounds(s, pos + 2, branches, current.push(node));
                    },
                    None => {},
                }
            }
        } else if c == '[' {
            lemma_bracket_bounds(s, pos + 1);
            let node = bracket_node(s, pos + 1);
            lemma_seq_group_count_push(current, node);
            lemma_scan_bounds(s, bracket_end(s, pos + 1), branches, current.push(node));
        } else if c == '(' {
            lemma_scan_bounds(s, pos + 1, Seq::empty(), Seq::empty());
            match scan(s, pos + 1, Seq::empty(), Seq::empty()) {
                Ok(inner) => {
                    let node = Node::Group(inner.nodes());
                    lemma_seq_group_count_push(current, node);
                    assert(variants_group_count(Seq::<Seq<Node>>::empty()) == 0);
                    assert(seq_group_count(Seq::<Node>::empty()) == 0);
                    lemma_scan_bounds(s, inner.end, branches, current.push(node));
                },
                Err(_) => {},
            }
        } else {
            lemma_seq_group_count_push(current, Node::CharLiteral(c));
            lemma_scan_bounds(s, pos + 1, branches, current.push(Node::CharLiteral(c)));
        }
    }
}

/// `nodes` with its first node anchored to the start of the input.
pub open spec fn anchor_first(nodes: Seq<Node>) -> Seq<Node>
    recommends
        nodes.len() > 0,
{
    seq![Node::StartOfString(Box::new(nodes[0]))] + nodes.drop_first()
}

/// Anchoring the first node adds no group.
pub proof fn lemma_anchor_first_group_count(nodes: Seq<Node>)
    requires
        nodes.len() > 0,
    ensures
        seq_group_count(anchor_first(nodes)) == seq_group_count(nodes),
{
    let anchored = anchor_first(nodes);
    assert(anchored.drop_first() =~= nodes.drop_first());
    assert(anchored[0] == Node::StartOfString(Box::new(nodes[0])));
    assert(group_count(anchored[0]) == group_count(nodes[0]));
}

/// What the pattern `s` compiles to.
///
/// A `^` in first place anchors the expression: it is taken off, the rest is
/// read, and the first node read is wrapped. Anywhere else `^` stands for
/// itself.
pub open spec fn compile(s: Seq<char>) -> Result<Seq<Node>, RegexParsingError> {
    if s.len() == 0 {
        Err(RegexParsingError::EmptyRegex)
    } else if s[0] == '^' {
        if s.len() == 1 {
            Err(RegexParsingError::InvalidStart)
        } else {
            match scan(s.drop_first(), 0, Seq::empty(), Seq::empty()) {
                Ok(level) => if level.nodes().len() == 0 {
                    Err(RegexParsingError::InvalidStart)
                } else {
                    Ok(anchor_first(level.nodes()))
                },
                Err(e) => Err(e),
            }
        }
    } else {
        match scan(s, 0, Seq::empty(), Seq::empty()) {
            Ok(level) => Ok(level.nodes()),
            Err(e) => Err(e),
        }
    }
}

} // verus!
