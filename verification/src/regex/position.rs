//! Where no reference to a group is involved, a match depends on the
//! position alone: not on what was captured before, nor on the numbers that
//! the groups have.

use crate::regex::node::{
    group_count, next_reference_free, next_size, node_size, reference_free, seq_group_count,
    seq_reference_free, seq_size, variants_reference_free, variants_size, Node,
};
use crate::regex::semantics::{
    advances, match_node, match_seq, match_variants, remaining, repeat_greedy, repeat_leaving_one,
    repeat_until, MatchState,
};
use vstd::prelude::*;

verus! {

/// Whether two outcomes are both failures, or both matches that end at the
/// same position.
pub open spec fn same_end(a: Option<MatchState>, b: Option<MatchState>) -> bool {
    match (a, b) {
        (Some(x), Some(y)) => x.pos == y.pos,
        (None, None) => true,
        _ => false,
    }
}

/// A node without references matches alike from any two states at the same
/// position, whatever numbers its groups have.
pub proof fn lemma_match_node_position(
    node: Node,
    next: Option<Node>,
    input: Seq<char>,
    st: MatchState,
    base: nat,
    other: MatchState,
    other_base: nat,
)
    requires
        reference_free(node),
        next_reference_free(next),
        st.pos == other.pos,
    ensures
        same_end(
            match_node(node, next, input, st, base),
            match_node(node, next, input, other, other_base),
        ),
    decreases node_size(node) + next_size(next), 0nat,
{
    match node {
        Node::StartOfString(inner) => {
            lemma_match_node_position(*inner, next, input, st, base, other, other_base);
        },
        Node::EndOfString(inner) => {
            lemma_match_node_position(*inner, next, input, st, base, other, other_base);
        },
        Node::OptionalQuantifier(inner) => {
            lemma_match_node_position(*inner, None, input, st, base, other, other_base);
        },
        Node::OneOrMoreQuantifier(inner) => {
            lemma_match_node_position(*inner, next, input, st, base, other, other_base);
            match (
                match_node(*inner, next, input, st, base),
                match_node(*inner, next, input, other, other_base),
            ) {
                (Some(first), Some(other_first)) => {
                    lemma_repeat_greedy_position(
                        *inner,
                        input,
                        first,
                        base,
                        other_first,
                        other_base,
                    );
                    lemma_repeat_leaving_one_position(
                        *inner,
                        input,
                        first,
                        base,
                        other_first,
                        other_base,
                    );
                    match next {
                        Some(following) => {
                            lemma_repeat_until_position(
                                *inner,
                                following,
                                input,
                                first,
                                base,
                                base + group_count(*inner),
                                other_first,
                                other_base,
                                other_base + group_count(*inner),
                            );
                        },
                        None => {},
                    }
                },
                _ => {},
            }
        },
        Node::Group(items) => {
            lemma_match_seq_position(items, next, input, st, base + 1, other, other_base + 1);
        },
        Node::Alternation(variants) => {
            lemma_match_variants_position(variants, input, st, base, other, other_base);
        },
        _ => {},
    }
}

/// A sequence without references matches alike from any two states at the
/// same position.
pub proof fn lemma_match_seq_position(
    items: Seq<Node>,
    outer_next: Option<Node>,
    input: Seq<char>,
    st: MatchState,
    base: nat,
    other: MatchState,
    other_base: nat,
)
    requires
        seq_reference_free(items),
        next_reference_free(outer_next),
        st.pos == other.pos,
    ensures
        same_end(
            match_seq(items, outer_next, input, st, base),
            match_seq(items, outer_next, input, other, other_base),
        ),
    decreases seq_size(items) + next_size(outer_next), 1 + items.len(),
{
    if items.len() > 0 {
        let rest = items.drop_first();
        let next = if rest.len() > 0 {
            Some(rest[0])
        } else {
            outer_next
        };
        if rest.len() > 0 {
            assert(seq_size(rest) == node_size(rest[0]) + seq_size(rest.drop_first()));
            assert(seq_reference_free(rest));
            assert(reference_free(rest[0]));
        }
        lemma_match_node_position(items[0], next, input, st, base, other, other_base);
        match (
            match_node(items[0], next, input, st, base),
            match_node(items[0], next, input, other, other_base),
        ) {
            (Some(mid), Some(other_mid)) => {
                lemma_match_seq_position(
                    rest,
                    outer_next,
                    input,
                    mid,
                    base + group_count(items[0]),
                    other_mid,
                    other_base + group_count(items[0]),
                );
            },
            _ => {},
        }
    }
}

/// An alternation without references matches alike from any two states at
/// the same position.
pub proof fn lemma_match_variants_position(
    variants: Seq<Seq<Node>>,
    input: Seq<char>,
    st: MatchState,
    base: nat,
    other: MatchState,
    other_base: nat,
)
    requires
        variants_reference_free(variants),
        st.pos == other.pos,
    ensures
        same_end(
            match_variants(variants, input, st, base),
            match_variants(variants, input, other, other_base),
        ),
    decreases variants_size(variants), 1 + variants.len(),
{
    if variants.len() > 0 {
        lemma_match_seq_position(variants[0], None, input, st, base, other, other_base);
        lemma_match_variants_position(
            variants.drop_first(),
            input,
            st,
            base + seq_group_count(variants[0]),
            other,
            other_base + seq_group_count(variants[0]),
        );
    }
}

/// A greedy repetition without references ends alike from any two states
/// at the same position.
pub proof fn lemma_repeat_greedy_position(
    inner: Node,
    input: Seq<char>,
    st: MatchState,
    base: nat,
    other: MatchState,
    other_base: nat,
)
    requires
        reference_free(inner),
        st.pos == other.pos,
    ensures
        repeat_greedy(inner, input, st, base).pos == repeat_greedy(
            inner,
            input,
            other,
            other_base,
        ).pos,
    decreases node_size(inner), 1 + remaining(input, st.pos),
{
    lemma_match_node_position(inner, None, input, st, base, other, other_base);
    match (
        match_node(inner, None, input, st, base),
        match_node(inner, None, input, other, other_base),
    ) {
        (Some(after), Some(other_after)) => {
            if advances(input, st, after) {
                lemma_repeat_greedy_position(inner, input, after, base, other_after, other_base);
            }
        },
        _ => {},
    }
}

/// A repetition without references that stops one short ends alike from any
/// two states at the same position.
pub proof fn lemma_repeat_leaving_one_position(
    inner: Node,
    input: Seq<char>,
    st: MatchState,
    base: nat,
    other: MatchState,
    other_base: nat,
)
    requires
        reference_free(inner),
        st.pos == other.pos,
    ensures
        repeat_leaving_one(inner, input, st, base).pos == repeat_leaving_one(
            inner,
            input,
            other,
            other_base,
        ).pos,
    decreases node_size(inner), 1 + remaining(input, st.pos),
{
    lemma_match_node_position(inner, None, input, st, base, other, other_base);
    match (
        match_node(inner, None, input, st, base),
        match_node(inner, None, input, other, other_base),
    ) {
        (Some(after), Some(other_after)) => {
            lemma_match_node_position(inner, None, input, after, base, other_after, other_base);
            if advances(input, st, after) && match_node(inner, None, input, after, base) is Some {
                lemma_repeat_leaving_one_position(
                    inner,
                    input,
                    after,
                    base,
                    other_after,
                    other_base,
                );
            }
        },
        _ => {},
    }
}

/// A repetition without references that yields to a following node without
/// references ends alike from any two states at the same position.
pub proof fn lemma_repeat_until_position(
    inner: Node,
    following: Node,
    input: Seq<char>,
    st: MatchState,
    base: nat,
    following_base: nat,
    other: MatchState,
    other_base: nat,
    other_following_base: nat,
)
    requires
        reference_free(inner),
        reference_free(following),
        st.pos == other.pos,
    ensures
        repeat_until(inner, following, input, st, base, following_base).pos == repeat_until(
            inner,
            following,
            input,
            other,
            other_base,
            other_following_base,
        ).pos,
    decreases node_size(inner) + node_size(following), 1 + remaining(input, st.pos),
{
    lemma_match_node_position(
        following,
        None,
        input,
        st,
        following_base,
        other,
        other_following_base,
    );
    if match_node(following, None, input, st, following_base) is None {
        lemma_match_node_position(inner, None, input, st, base, other, other_base);
        match (
            match_node(inner, None, input, st, base),
            match_node(inner, None, input, other, other_base),
        ) {
            (Some(after), Some(other_after)) => {
                if advances(input, st, after) {
                    lemma_repeat_until_position(
                        inner,
                        following,
                        input,
                        after,
                        base,
                        following_base,
                        other_after,
                        other_base,
                        other_following_base,
                    );
                }
            },
            _ => {},
        }
    }
}

} // verus!
