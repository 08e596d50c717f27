//! A node that holds no reference to a group takes no account of what that
//! group has captured.

use crate::regex::frame::slot;
use crate::regex::node::{
    group_count, next_refers_to, next_size, node_size, refers_to, seq_group_count, seq_refers_to,
    seq_size, variants_refers_to, variants_size, Node,
};
use crate::regex::semantics::{
    advances, match_node, match_seq, match_variants, remaining, repeat_greedy, repeat_leaving_one,
    repeat_until, MatchState,
};
use vstd::prelude::*;

verus! {

/// Whether two capture tables say the same of every slot but slot `k`.
pub open spec fn agree_except(a: Map<nat, Seq<char>>, b: Map<nat, Seq<char>>, k: nat) -> bool {
    forall|j: nat| #![trigger slot(a, j)] #![trigger slot(b, j)] j != k ==> slot(a, j) == slot(b, j)
}

/// Whether two states stand at the same position with the same captures but
/// for slot `k`.
pub open spec fn alike(st: MatchState, other: MatchState, k: nat) -> bool {
    st.pos == other.pos && agree_except(st.captures, other.captures, k)
}

/// Whether two outcomes are both failures, or both matches that end in
/// states that are alike but for slot `k`.
pub open spec fn same_outcome(a: Option<MatchState>, b: Option<MatchState>, k: nat) -> bool {
    match (a, b) {
        (Some(x), Some(y)) => alike(x, y, k),
        (None, None) => true,
        _ => false,
    }
}

/// Filling the same slot with the same text in two tables that agree but for
/// slot `k` leaves them so.
pub proof fn lemma_agree_except_insert(
    a: Map<nat, Seq<char>>,
    b: Map<nat, Seq<char>>,
    k: nat,
    n: nat,
    text: Seq<char>,
)
    requires
        agree_except(a, b, k),
    ensures
        agree_except(a.insert(n, text), b.insert(n, text), k),
{
    assert forall|j: nat| j != k implies slot(a.insert(n, text), j) == slot(
        b.insert(n, text),
        j,
    ) by {
        if j != n {
            assert(slot(a, j) == slot(b, j));
        }
    }
}

/// A node that does not refer to group `k` matches alike from two states
/// that are alike but for slot `k`.
pub proof fn lemma_match_node_slot(
    node: Node,
    next: Option<Node>,
    input: Seq<char>,
    st: MatchState,
    other: MatchState,
    base: nat,
    k: nat,
)
    requires
        !refers_to(node, k),
        !next_refers_to(next, k),
        alike(st, other, k),
    ensures
        same_outcome(
            match_node(node, next, input, st, base),
            match_node(node, next, input, other, base),
            k,
        ),
    decreases node_size(node) + next_size(next), 0nat,
{
    match node {
        Node::StartOfString(inner) => {
            lemma_match_node_slot(*inner, next, input, st, other, base, k);
        },
        Node::EndOfString(inner) => {
            lemma_match_node_slot(*inner, next, input, st, other, base, k);
        },
        Node::OptionalQuantifier(inner) => {
            lemma_match_node_slot(*inner, None, input, st, other, base, k);
        },
        Node::OneOrMoreQuantifier(inner) => {
            lemma_match_node_slot(*inner, next, input, st, other, base, k);
            match (
                match_node(*inner, next, input, st, base),
                match_node(*inner, next, input, other, base),
            ) {
                (Some(first), Some(other_first)) => {
                    lemma_repeat_greedy_slot(*inner, input, first, other_first, base, k);
                    lemma_repeat_leaving_one_slot(*inner, input, first, other_first, base, k);
                    match next {
                        Some(following) => {
                            lemma_repeat_until_slot(
                                *inner,
                                following,
                                input,
                                first,
                                other_first,
                                base,
                                base + group_count(*inner),
                                k,
                            );
                        },
                        None => {},
                    }
                },
                _ => {},
            }
        },
        Node::Group(items) => {
            lemma_match_seq_slot(items, next, input, st, other, base + 1, k);
            match (
                match_seq(items, next, input, st, base + 1),
                match_seq(items, next, input, other, base + 1),
            ) {
                (Some(end), Some(other_end)) => {
                    lemma_agree_except_insert(
                        end.captures,
                        other_end.captures,
                        k,
                        base + 1,
                        input.subrange(st.pos, end.pos),
                    );
                },
                _ => {},
            }
        },
        Node::Alternation(variants) => {
            lemma_match_variants_slot(variants, input, st, other, base, k);
        },
        Node::Backreference(n) => {
            assert(slot(st.captures, n) == slot(other.captures, n));
        },
        _ => {},
    }
}

/// A sequence that does not refer to group `k` matches alike from two states
/// that are alike but for slot `k`.
pub proof fn lemma_match_seq_slot(
    items: Seq<Node>,
    outer_next: Option<Node>,
    input: Seq<char>,
    st: MatchState,
    other: MatchState,
    base: nat,
    k: nat,
)
    requires
        !seq_refers_to(items, k),
        !next_refers_to(outer_next, k),
        alike(st, other, k),
    ensures
        same_outcome(
            match_seq(items, outer_next, input, st, base),
            match_seq(items, outer_next, input, other, base),
            k,
        ),
    decreases seq_size(items) + next_size(outer_next), 1 + items.len(),
{
    if items.len() > 0 {
        let rest = items.drop_first();
        let next = if rest.len() > 0 {
            Some(rest[0])
        } else {
            outer_next
        };
        if rest.len() > 0 {
            assert(seq_size(rest) == node_size(rest[0]) + seq_size(rest.drop_first()));
            assert(!seq_refers_to(rest, k));
            assert(!refers_to(rest[0], k));
        }
        lemma_match_node_slot(items[0], next, input, st, other, base, k);
        match (
            match_node(items[0], next, input, st, base),
            match_node(items[0], next, input, other, base),
        ) {
            (Some(mid), Some(other_mid)) => {
                lemma_match_seq_slot(
                    rest,
                    outer_next,
                    input,
                    mid,
                    other_mid,
                    base + group_count(items[0]),
                    k,
                );
            },
            _ => {},
        }
    }
}

/// An alternation that does not refer to group `k` matches alike from two
/// states that are alike but for slot `k`.
pub proof fn lemma_match_variants_slot(
    variants: Seq<Seq<Node>>,
    input: Seq<char>,
    st: MatchState,
    other: MatchState,
    base: nat,
    k: nat,
)
    requires
        !variants_refers_to(variants, k),
        alike(st, other, k),
    ensures
        same_outcome(
            match_variants(variants, input, st, base),
            match_variants(variants, input, other, base),
            k,
        ),
    decreases variants_size(variants), 1 + variants.len(),
{
    if variants.len() > 0 {
        lemma_match_seq_slot(variants[0], None, input, st, other, base, k);
        lemma_match_variants_slot(
            variants.drop_first(),
            input,
            st,
            other,
            base + seq_group_count(variants[0]),
            k,
        );
    }
}

/// A greedy repetition that does not refer to group `k` ends alike from two
/// states that are alike but for slot `k`.
pub proof fn lemma_repeat_greedy_slot(
    inner: Node,
    input: Seq<char>,
    st: MatchState,
    other: MatchState,
    base: nat,
    k: nat,
)
    requires
        !refers_to(inner, k),
        alike(st, other, k),
    ensures
        alike(
            repeat_greedy(inner, input, st, base),
            repeat_greedy(inner, input, other, base),
            k,
        ),
    decreases node_size(inner), 1 + remaining(input, st.pos),
{
    lemma_match_node_slot(inner, None, input, st, other, base, k);
    match (
        match_node(inner, None, input, st, base),
        match_node(inner, None, input, other, base),
    ) {
        (Some(after), Some(other_after)) => {
            if advances(input, st, after) {
                lemma_repeat_greedy_slot(inner, input, after, other_after, base, k);
            }
        },
        _ => {},
    }
}

/// A repetition that stops one short and does not refer to group `k` ends
/// alike from two states that are alike but for slot `k`.
pub proof fn lemma_repeat_leaving_one_slot(
    inner: Node,
    input: Seq<char>,
    st: MatchState,
    other: MatchState,
    base: nat,
    k: nat,
)
    requires
        !refers_to(inner, k),
        alike(st, other, k),
    ensures
        alike(
            repeat_leaving_one(inner, input, st, base),
            repeat_leaving_one(inner, input, other, base),
            k,
        ),
    decreases node_size(inner), 1 + remaining(input, st.pos),
{
    lemma_match_node_slot(inner, None, input, st, other, base, k);
    match (
        match_node(inner, None, input, st, base),
        match_node(inner, None, input, other, base),
    ) {
        (Some(after), Some(other_after)) => {
            lemma_match_node_slot(inner, None, input, after, other_after, base, k);
            if advances(input, st, after) && match_node(inner, None, input, after, base) is Some {
                lemma_repeat_leaving_one_slot(inner, input, after, other_after, base, k);
            }
        },
        _ => {},
    }
}

/// A repetition that yields to a following node, neither of which refers to
/// group `k`, ends alike from two states that are alike but for slot `k`.
pub proof fn lemma_repeat_until_slot(
    inner: Node,
    following: Node,
    input: Seq<char>,
    st: MatchState,
    other: MatchState,
    base: nat,
    following_base: nat,
    k: nat,
)
    requires
        !refers_to(inner, k),
        !refers_to(following, k),
        alike(st, other, k),
    ensures
        alike(
            repeat_until(inner, following, input, st, base, following_base),
            repeat_until(inner, following, input, other, base, following_base),
            k,
        ),
    decreases node_size(inner) + node_size(following), 1 + remaining(input, st.pos),
{
    lemma_match_node_slot(following, None, input, st, other, following_base, k);
    if match_node(following, None, input, st, following_base) is None {
        lemma_match_node_slot(inner, None, input, st, other, base, k);
        match (
            match_node(inner, None, input, st, base),
            match_node(inner, None, input, other, base),
        ) {
            (Some(after), Some(other_after)) => {
                if advances(input, st, after) {
                    lemma_repeat_until_slot(
                        inner,
                        following,
                        input,
                        after,
                        other_after,
                        base,
                        following_base,
                        k,
                    );
                }
            },
            _ => {},
        }
    }
}

} // verus!
