//! How a node that looks at what follows it hands over to the last node of
//! an expression, and what that means for anchoring the last node to the
//! end of the input.
//!
//! Anchored to the end, the last node matches at fewer places. A node before
//! it that looks ahead for it may then walk further than it would have, but
//! wherever it would have stopped earlier, it would have stopped because the
//! last node matched there.

use crate::regex::frame::{
    ignores_next, lemma_ignores_next, lemma_match_seq_concat, lemma_match_seq_single, slot,
};
use crate::regex::node::{
    group_count, lemma_seq_group_count_push, node_size, reference_free, refers_to, seq_group_count,
    Node,
};
use crate::regex::position::lemma_match_node_position;
use crate::regex::semantics::{
    advances, match_node, match_seq, remaining, repeat_leaving_one, repeat_until, MatchState,
};
use crate::regex::slots::{agree_except, lemma_match_node_slot};
use vstd::prelude::*;

verus! {

/// Whether `node` hands over to `following`: wherever `node` matches before
/// `following` anchored to the end, it also matches before `following`
/// itself, and comes to rest at the same place or at a place where
/// `following` matches. `lemma_hands_over` shows that the nodes described
/// here do so.
///
/// `base` is the number of groups that open before `node`. They are the
/// nodes that take no account of what follows them, the repetitions of nodes
/// that hand over, and the groups that end in a node that hands over. Three
/// kinds of node are left out, because they do not hand over:
/// - a node that is itself anchored to the end and looks at what follows:
///   in `^a+$b?` the repetition stops after one `a`, and in `^a+$b?$` it goes
///   on to the end of `aa`;
/// - the repetition of a node with groups before an equal node with
///   references, which finds other captures under its other numbers:
///   `^((.)\2)+((.)\2)$` matches `aabbab`, and `^((.)\2)+((.)\2)` does not;
/// - a group that ends in a node that looks at what follows, before a node
///   that refers to that group, which finds the capture of the group only
///   after the group has closed: `^(.+)(\1?a)$` matches `aaba`, and
///   `^(.+)(\1?a)` does not.
pub open spec fn hands_over(node: Node, following: Node, base: nat) -> bool
    decreases node,
{
    ignores_next(node) || match node {
        Node::StartOfString(inner) => hands_over(*inner, following, base),
        Node::OneOrMoreQuantifier(inner) => hands_over(*inner, following, base) && (*inner
            != following || group_count(*inner) == 0 || reference_free(following)),
        Node::Group(items) => items.len() > 0 && !refers_to(following, base + 1) && hands_over(
            items.last(),
            following,
            base + 1 + seq_group_count(items.drop_last()),
        ),
        _ => false,
    }
}

/// Whether the state `rest` is the state `other`, or one in which
/// `following` matches.
pub open spec fn reaches(
    following: Node,
    input: Seq<char>,
    rest: MatchState,
    other: MatchState,
    base: nat,
) -> bool {
    rest == other || match_node(following, None, input, rest, base) is Some
}

/// Where a node matches, it still matches where a repetition of it that
/// stops one short comes to rest.
pub proof fn lemma_repeat_leaving_one_leaves_one(
    inner: Node,
    input: Seq<char>,
    st: MatchState,
    base: nat,
)
    requires
        match_node(inner, None, input, st, base) is Some,
    ensures
        match_node(inner, None, input, repeat_leaving_one(inner, input, st, base), base) is Some,
    decreases remaining(input, st.pos),
{
    let after = match_node(inner, None, input, st, base)->Some_0;
    if advances(input, st, after) && match_node(inner, None, input, after, base) is Some {
        lemma_repeat_leaving_one_leaves_one(inner, input, after, base);
    }
}

/// A repetition that yields to `following` comes to rest where the
/// repetition that yields to `following` anchored to the end does, or
/// earlier, at a place where `following` matches.
pub proof fn lemma_repeat_until_reaches(
    inner: Node,
    following: Node,
    input: Seq<char>,
    st: MatchState,
    base: nat,
    following_base: nat,
)
    ensures
        reaches(
            following,
            input,
            repeat_until(inner, following, input, st, base, following_base),
            repeat_until(
                inner,
                Node::EndOfString(Box::new(following)),
                input,
                st,
                base,
                following_base,
            ),
            following_base,
        ),
    decreases remaining(input, st.pos),
{
    let anchored = Node::EndOfString(Box::new(following));
    if match_node(following, None, input, st, following_base) is None {
        assert(match_node(anchored, None, input, st, following_base) is None);
        match match_node(inner, None, input, st, base) {
            Some(after) => {
                if advances(input, st, after) {
                    lemma_repeat_until_reaches(
                        inner,
                        following,
                        input,
                        after,
                        base,
                        following_base,
                    );
                }
            },
            None => {},
        }
    }
}

/// A node matches under other numbers for its groups where it matches under
/// its own, if the numbers are the same or the node holds no reference.
pub proof fn lemma_matches_under_other_numbers(
    node: Node,
    input: Seq<char>,
    st: MatchState,
    base: nat,
    other_base: nat,
)
    requires
        other_base == base || reference_free(node),
    ensures
        match_node(node, None, input, st, base) is Some <==> match_node(
            node,
            None,
            input,
            st,
            other_base,
        ) is Some,
{
    if other_base != base {
        lemma_match_node_position(node, None, input, st, base, st, other_base);
    }
}

/// A repetition that stops one short comes to rest where the repetition
/// that yields to its own node anchored to the end does, or at a place where
/// its node matches.
pub proof fn lemma_repeat_leaving_one_reaches(
    inner: Node,
    input: Seq<char>,
    st: MatchState,
    base: nat,
    following_base: nat,
)
    requires
        following_base == base || reference_free(inner),
    ensures
        reaches(
            inner,
            input,
            repeat_leaving_one(inner, input, st, base),
            repeat_until(
                inner,
                Node::EndOfString(Box::new(inner)),
                input,
                st,
                base,
                following_base,
            ),
            following_base,
        ),
{
    let rest = repeat_leaving_one(inner, input, st, base);
    if match_node(inner, None, input, st, base) is Some {
        lemma_repeat_leaving_one_leaves_one(inner, input, st, base);
        lemma_matches_under_other_numbers(inner, input, rest, base, following_base);
    } else {
        lemma_matches_under_other_numbers(inner, input, st, base, following_base);
        assert(match_node(
            Node::EndOfString(Box::new(inner)),
            None,
            input,
            st,
            following_base,
        ) is None);
    }
}

/// A node that hands over to `following`: where it matches before
/// `following` anchored to the end, it matches before `following` itself,
/// and comes to rest at the same place or at a place where `following`
/// matches.
pub proof fn lemma_hands_over(
    node: Node,
    following: Node,
    input: Seq<char>,
    st: MatchState,
    base: nat,
)
    requires
        hands_over(node, following, base),
        match_node(node, Some(Node::EndOfString(Box::new(following))), input, st, base) is Some,
    ensures
        match_node(node, Some(following), input, st, base) matches Some(rest) && reaches(
            following,
            input,
            rest,
            match_node(
                node,
                Some(Node::EndOfString(Box::new(following))),
                input,
                st,
                base,
            )->Some_0,
            base + group_count(node),
        ),
    decreases node,
{
    let anchored = Node::EndOfString(Box::new(following));
    if ignores_next(node) {
        lemma_ignores_next(node, Some(anchored), Some(following), input, st, base);
    } else {
        match node {
            Node::StartOfString(inner) => {
                lemma_hands_over(*inner, following, input, st, base);
            },
            Node::OneOrMoreQuantifier(inner) => {
                lemma_hands_over(*inner, following, input, st, base);
                let first = match_node(*inner, Some(following), input, st, base)->Some_0;
                let other_first = match_node(*inner, Some(anchored), input, st, base)->Some_0;
                let after = base + group_count(*inner);
                assert(node_size(anchored) == 1 + node_size(following));
                if first == other_first {
                    if *inner == anchored {
                        // The repeated node has matched up to the end of the
                        // input: no repetition can move on from there.
                        assert(first.pos == input.len());
                        assert(repeat_leaving_one(*inner, input, first, base) == first);
                        assert(repeat_until(*inner, following, input, first, base, after)
                            == first);
                    } else if *inner == following {
                        lemma_repeat_leaving_one_reaches(*inner, input, first, base, after);
                    } else {
                        lemma_repeat_until_reaches(*inner, following, input, first, base, after);
                    }
                } else {
                    // The first match before `following` itself ends where
                    // `following` matches.
                    if *inner == following {
                        lemma_matches_under_other_numbers(*inner, input, first, base, after);
                        lemma_repeat_leaving_one_leaves_one(*inner, input, first, base);
                        lemma_matches_under_other_numbers(
                            *inner,
                            input,
                            repeat_leaving_one(*inner, input, first, base),
                            base,
                            after,
                        );
                    } else {
                        assert(repeat_until(*inner, following, input, first, base, after)
                            == first);
                    }
                }
            },
            Node::Group(items) => {
                let after = base + group_count(node);
                lemma_seq_hands_over(items, following, input, st, base + 1);
                let inside = match_seq(items, Some(following), input, st, base + 1)->Some_0;
                let other_inside = match_seq(items, Some(anchored), input, st, base + 1)->Some_0;
                let closed = match_node(node, Some(following), input, st, base)->Some_0;
                if inside != other_inside {
                    // What the group captures is nothing to `following`.
                    assert(agree_except(inside.captures, closed.captures, base + 1)) by {
                        assert forall|j: nat| j != base + 1 implies slot(inside.captures, j)
                            == slot(closed.captures, j) by {}
                    }
                    lemma_match_node_slot(following, None, input, inside, closed, after, base + 1);
                }
            },
            _ => {},
        }
    }
}

/// A sequence whose last node hands over to `following`: where it matches
/// before `following` anchored to the end, it matches before `following`
/// itself, and comes to rest at the same place or at a place where
/// `following` matches.
pub proof fn lemma_seq_hands_over(
    items: Seq<Node>,
    following: Node,
    input: Seq<char>,
    st: MatchState,
    base: nat,
)
    requires
        items.len() > 0,
        hands_over(items.last(), following, base + seq_group_count(items.drop_last())),
        match_seq(items, Some(Node::EndOfString(Box::new(following))), input, st, base) is Some,
    ensures
        match_seq(items, Some(following), input, st, base) matches Some(rest) && reaches(
            following,
            input,
            rest,
            match_seq(
                items,
                Some(Node::EndOfString(Box::new(following))),
                input,
                st,
                base,
            )->Some_0,
            base + seq_group_count(items),
        ),
    decreases items,
{
    let anchored = Node::EndOfString(Box::new(following));
    let front = items.drop_last();
    let last = items.last();
    assert(items =~= front + seq![last]);
    lemma_seq_group_count_push(front, last);
    assert(front.push(last) =~= items);
    lemma_match_seq_concat(front, seq![last], Some(anchored), input, st, base);
    lemma_match_seq_concat(front, seq![last], Some(following), input, st, base);
    let mid = match_seq(front, Some(last), input, st, base)->Some_0;
    let b = base + seq_group_count(front);
    lemma_match_seq_single(last, Some(anchored), input, mid, b);
    lemma_match_seq_single(last, Some(following), input, mid, b);
    lemma_hands_over(last, following, input, mid, b);
}

} // verus!
