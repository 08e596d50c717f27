//! What it means for a compiled expression to match an input.
//!
//! Matching is a walk over the tree that never reconsiders a choice: a
//! quantifier decides how far it goes by looking at the one node that follows
//! it, an alternation takes its first variant that matches, and an optional
//! node is taken whenever it can be. The functions here define that walk as a
//! function from a position in the input to the position where the match
//! ends, together with the captures made on the way.

use crate::regex::node::{
    group_count, next_size, node_size, seq_group_count, seq_size, variants_size, Node,
};
use crate::text::{is_alphanumeric, is_digit};
use vstd::prelude::*;

verus! {

/// A point in a match attempt: a position in the input, counted in code
/// points, and the text captured so far by each group, by its number.
pub struct MatchState {
    pub pos: int,
    pub captures: Map<nat, Seq<char>>,
}

/// Whether a single-character node accepts `c`.
pub open spec fn accepts(n: Node, c: char) -> bool {
    match n {
        Node::CharLiteral(l) => c == l,
        Node::DigitClass => is_digit(c),
        Node::AlphanumericClass => is_alphanumeric(c),
        Node::PositiveCharGroup(chars) => chars.contains(c),
        Node::NegativeCharGroup(chars) => !chars.contains(c),
        Node::Wildcard => true,
        _ => false,
    }
}

/// The number of code points left between `pos` and the end of `input`.
pub open spec fn remaining(input: Seq<char>, pos: int) -> nat {
    if pos <= input.len() {
        (input.len() - pos) as nat
    } else {
        0
    }
}

/// Whether `text` stands in `input` at `pos`.
pub open spec fn occurs_at(input: Seq<char>, pos: int, text: Seq<char>) -> bool {
    0 <= pos && pos + text.len() <= input.len() && input.subrange(pos, pos + text.len()) == text
}

/// Whether `to` lies further in the input than `from`, and still in it.
pub open spec fn advances(input: Seq<char>, from: MatchState, to: MatchState) -> bool {
    from.pos < to.pos <= input.len()
}

/// The match of one node at `st`.
///
/// `next` is the node that follows in the pattern, if any; a quantifier looks
/// at it to decide where to stop. `base` is the number of groups that open
/// before this node in the pattern, so that the first group inside it fills
/// slot `base + 1`. The result is the state after the match, or `None` where
/// the node does not match.
pub open spec fn match_node(
    node: Node,
    next: Option<Node>,
    input: Seq<char>,
    st: MatchState,
    base: nat,
) -> Option<MatchState>
    decreases node_size(node) + next_size(next), 0nat,
{
    match node {
        Node::StartOfString(inner) => match_node(*inner, next, input, st, base),
        Node::EndOfString(inner) => match match_node(*inner, next, input, st, base) {
            Some(end) => if end.pos == input.len() {
                Some(end)
            } else {
                None
            },
            None => None,
        },
        Node::OptionalQuantifier(inner) => match match_node(*inner, None, input, st, base) {
            Some(end) => Some(end),
            None => Some(st),
        },
        Node::OneOrMoreQuantifier(inner) => match match_node(*inner, next, input, st, base) {
            None => None,
            Some(first) => match next {
                None => Some(repeat_greedy(*inner, input, first, base)),
                Some(following) => if *inner == following {
                    Some(repeat_leaving_one(*inner, input, first, base))
                } else {
                    Some(
                        repeat_until(
                            *inner,
                            following,
                            input,
                            first,
                            base,
                            base + group_count(*inner),
                        ),
                    )
                },
            },
        },
        Node::Group(items) => match match_seq(items, next, input, st, base + 1) {
            Some(end) => Some(
                MatchState {
                    pos: end.pos,
                    captures: end.captures.insert(base + 1, input.subrange(st.pos, end.pos)),
                },
            ),
            None => None,
        },
        Node::Alternation(variants) => match_variants(variants, input, st, base),
        Node::Backreference(n) => if st.captures.contains_key(n) && occurs_at(
            input,
            st.pos,
            st.captures[n],
        ) {
            Some(MatchState { pos: st.pos + st.captures[n].len(), captures: st.captures })
        } else {
            None
        },
        _ => if 0 <= st.pos < input.len() && accepts(node, input[st.pos]) {
            Some(MatchState { pos: st.pos + 1, captures: st.captures })
        } else {
            None
        },
    }
}

/// The match of a sequence of nodes, one after the other, each seeing the one
/// after it as the node that follows; the last sees `outer_next`.
pub open spec fn match_seq(
    items: Seq<Node>,
    outer_next: Option<Node>,
    input: Seq<char>,
    st: MatchState,
    base: nat,
) -> Option<MatchState>
    decreases seq_size(items) + next_size(outer_next), 1 + items.len(),
{
    if items.len() == 0 {
        Some(st)
    } else {
        let rest = items.drop_first();
        let next = if rest.len() > 0 {
            Some(rest[0])
        } else {
            outer_next
        };
        proof {
            if rest.len() > 0 {
                assert(seq_size(rest) == node_size(rest[0]) + seq_size(rest.drop_first()));
            }
        }
        match match_node(items[0], next, input, st, base) {
            Some(mid) => match_seq(rest, outer_next, input, mid, base + group_count(items[0])),
            None => None,
        }
    }
}

/// The match of the first variant that matches, each tried from `st`.
pub open spec fn match_variants(
    variants: Seq<Seq<Node>>,
    input: Seq<char>,
    st: MatchState,
    base: nat,
) -> Option<MatchState>
    decreases variants_size(variants), 1 + variants.len(),
{
    if variants.len() == 0 {
        None
    } else {
        match match_seq(variants[0], None, input, st, base) {
            Some(end) => Some(end),
            None => match_variants(
                variants.drop_first(),
                input,
                st,
                base + seq_group_count(variants[0]),
            ),
        }
    }
}

/// Repeats `inner` from `st` for as long as it matches and moves forward.
pub open spec fn repeat_greedy(inner: Node, input: Seq<char>, st: MatchState, base: nat)
    -> MatchState
    decreases node_size(inner), 1 + remaining(input, st.pos),
{
    match match_node(inner, None, input, st, base) {
        Some(after) => if advances(input, st, after) {
            repeat_greedy(inner, input, after, base)
        } else {
            st
        },
        None => st,
    }
}

/// Repeats `inner` from `st` as `repeat_greedy` does, but stops one
/// repetition early, so that a following node equal to `inner` finds one
/// occurrence left.
pub open spec fn repeat_leaving_one(inner: Node, input: Seq<char>, st: MatchState, base: nat)
    -> MatchState
    decreases node_size(inner), 1 + remaining(input, st.pos),
{
    match match_node(inner, None, input, st, base) {
        Some(after) => if advances(input, st, after) && match_node(
            inner,
            None,
            input,
            after,
            base,
        ) is Some {
            repeat_leaving_one(inner, input, after, base)
        } else {
            st
        },
        None => st,
    }
}

/// Repeats `inner` from `st` for as long as it matches and moves forward,
/// but stops as soon as `following` matches at the position reached.
pub open spec fn repeat_until(
    inner: Node,
    following: Node,
    input: Seq<char>,
    st: MatchState,
    base: nat,
    following_base: nat,
) -> MatchState
    decreases node_size(inner) + node_size(following), 1 + remaining(input, st.pos),
{
    if match_node(following, None, input, st, following_base) is Some {
        st
    } else {
        match match_node(inner, None, input, st, base) {
            Some(after) => if advances(input, st, after) {
                repeat_until(inner, following, input, after, base, following_base)
            } else {
                st
            },
            None => st,
        }
    }
}

/// The state in which an attempt starts at `start`: nothing captured yet.
pub open spec fn initial_state(start: int) -> MatchState {
    MatchState { pos: start, captures: Map::empty() }
}

/// The outcome of one attempt to match the whole expression from `start`.
pub open spec fn attempt(nodes: Seq<Node>, input: Seq<char>, start: int) -> Option<MatchState> {
    match_seq(nodes, None, input, initial_state(start), 0)
}

/// Whether the expression is anchored to the start of the input.
pub open spec fn is_anchored(nodes: Seq<Node>) -> bool {
    nodes.len() > 0 && nodes[0] is StartOfString
}

/// Whether an attempt may start at `start`: at the very start only for an
/// anchored expression, else at any code point of the input.
pub open spec fn is_candidate(nodes: Seq<Node>, input: Seq<char>, start: int) -> bool {
    if is_anchored(nodes) {
        start == 0
    } else {
        0 <= start < input.len()
    }
}

/// Whether the expression matches somewhere in `input`.
pub open spec fn regex_matches(nodes: Seq<Node>, input: Seq<char>) -> bool {
    exists|start: int| is_candidate(nodes, input, start) && attempt(nodes, input, start) is Some
}

} // verus!
