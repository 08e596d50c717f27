//! General facts about the course of a match: which capture slots a node can
//! touch, how the match of a sequence falls into the matches of its parts,
//! and which nodes take no account of what follows them.

use crate::regex::node::{
    group_count, next_size, node_size, seq_group_count, seq_size, variants_size, Node,
};
use crate::regex::semantics::{
    advances, match_node, match_seq, match_variants, remaining, repeat_greedy, repeat_leaving_one,
    repeat_until, MatchState,
};
use vstd::prelude::*;

verus! {

/// What a capture table holds in slot `k`, if anything.
pub open spec fn slot(captures: Map<nat, Seq<char>>, k: nat) -> Option<Seq<char>> {
    if captures.contains_key(k) {
        Some(captures[k])
    } else {
        None
    }
}

/// Whether two capture tables say the same of every slot up to `n`.
pub open spec fn agree_up_to(a: Map<nat, Seq<char>>, b: Map<nat, Seq<char>>, n: nat) -> bool {
    forall|k: nat| #![trigger slot(a, k)] #![trigger slot(b, k)] k <= n ==> slot(a, k) == slot(b, k)
}

/// Whether `end` is no outcome at all, or one that left every slot up to `n`
/// as `st` had it.
pub open spec fn keeps_up_to(st: MatchState, end: Option<MatchState>, n: nat) -> bool {
    end matches Some(e) ==> agree_up_to(st.captures, e.captures, n)
}

/// A node touches no slot but those of its own groups: every slot up to
/// `base` is after the match as it was before.
pub proof fn lemma_match_node_frame(
    node: Node,
    next: Option<Node>,
    input: Seq<char>,
    st: MatchState,
    base: nat,
)
    ensures
        keeps_up_to(st, match_node(node, next, input, st, base), base),
    decreases node_size(node) + next_size(next), 0nat,
{
    match node {
        Node::StartOfString(inner) => {
            lemma_match_node_frame(*inner, next, input, st, base);
        },
        Node::EndOfString(inner) => {
            lemma_match_node_frame(*inner, next, input, st, base);
        },
        Node::OptionalQuantifier(inner) => {
            lemma_match_node_frame(*inner, None, input, st, base);
        },
        Node::OneOrMoreQuantifier(inner) => {
            lemma_match_node_frame(*inner, next, input, st, base);
            match match_node(*inner, next, input, st, base) {
                Some(first) => {
                    lemma_repeat_greedy_frame(*inner, input, first, base);
                    lemma_repeat_leaving_one_frame(*inner, input, first, base);
                    match next {
                        Some(following) => {
                            lemma_repeat_until_frame(
                                *inner,
                                following,
                                input,
                                first,
                                base,
                                base + group_count(*inner),
                            );
                        },
                        None => {},
                    }
                },
                None => {},
            }
        },
        Node::Group(items) => {
            lemma_match_seq_frame(items, next, input, st, base + 1);
        },
        Node::Alternation(variants) => {
            lemma_match_variants_frame(variants, input, st, base);
        },
        _ => {},
    }
}

/// A sequence touches no slot up to `base`.
pub proof fn lemma_match_seq_frame(
    items: Seq<Node>,
    outer_next: Option<Node>,
    input: Seq<char>,
    st: MatchState,
    base: nat,
)
    ensures
        keeps_up_to(st, match_seq(items, outer_next, input, st, base), base),
    decreases seq_size(items) + next_size(outer_next), 1 + items.len(),
{
    if items.len() > 0 {
        let rest = items.drop_first();
        let next = if rest.len() > 0 {
            Some(rest[0])
        } else {
            outer_next
        };
        if rest.len() > 0 {
            assert(seq_size(rest) == node_size(rest[0]) + seq_size(rest.drop_first()));
        }
        lemma_match_node_frame(items[0], next, input, st, base);
        match match_node(items[0], next, input, st, base) {
            Some(mid) => {
                lemma_match_seq_frame(rest, outer_next, input, mid, base + group_count(items[0]));
            },
            None => {},
        }
    }
}

/// An alternation touches no slot up to `base`.
pub proof fn lemma_match_variants_frame(
    variants: Seq<Seq<Node>>,
    input: Seq<char>,
    st: MatchState,
    base: nat,
)
    ensures
        keeps_up_to(st, match_variants(variants, input, st, base), base),
    decreases variants_size(variants), 1 + variants.len(),
{
    if variants.len() > 0 {
        lemma_match_seq_frame(variants[0], None, input, st, base);
        lemma_match_variants_frame(
            variants.drop_first(),
            input,
            st,
            base + seq_group_count(variants[0]),
        );
    }
}

/// A greedy repetition touches no slot up to `base`.
pub proof fn lemma_repeat_greedy_frame(inner: Node, input: Seq<char>, st: MatchState, base: nat)
    ensures
        agree_up_to(st.captures, repeat_greedy(inner, input, st, base).captures, base),
    decreases node_size(inner), 1 + remaining(input, st.pos),
{
    lemma_match_node_frame(inner, None, input, st, base);
    match match_node(inner, None, input, st, base) {
        Some(after) => {
            if advances(input, st, after) {
                lemma_repeat_greedy_frame(inner, input, after, base);
            }
        },
        None => {},
    }
}

/// A repetition that stops one short touches no slot up to `base`.
pub proof fn lemma_repeat_leaving_one_frame(
    inner: Node,
    input: Seq<char>,
    st: MatchState,
    base: nat,
)
    ensures
        agree_up_to(st.captures, repeat_leaving_one(inner, input, st, base).captures, base),
    decreases node_size(inner), 1 + remaining(input, st.pos),
{
    lemma_match_node_frame(inner, None, input, st, base);
    match match_node(inner, None, input, st, base) {
        Some(after) => {
            if advances(input, st, after) && match_node(inner, None, input, after, base) is Some {
                lemma_repeat_leaving_one_frame(inner, input, after, base);
            }
        },
        None => {},
    }
}

/// A repetition that yields to the following node touches no slot up to
/// `base`.
pub proof fn lemma_repeat_until_frame(
    inner: Node,
    following: Node,
    input: Seq<char>,
    st: MatchState,
    base: nat,
    following_base: nat,
)
    ensures
        agree_up_to(
            st.captures,
            repeat_until(inner, following, input, st, base, following_base).captures,
            base,
        ),
    decreases node_size(inner) + node_size(following), 1 + remaining(input, st.pos),
{
    if match_node(following, None, input, st, following_base) is None {
        lemma_match_node_frame(inner, None, input, st, base);
        match match_node(inner, None, input, st, base) {
            Some(after) => {
                if advances(input, st, after) {
                    lemma_repeat_until_frame(inner, following, input, after, base, following_base);
                }
            },
            None => {},
        }
    }
}

/// The match of a sequence made of two parts is the match of the first part,
/// which sees the second as what follows, and then of the second.
pub proof fn lemma_match_seq_concat(
    a: Seq<Node>,
    b: Seq<Node>,
    outer_next: Option<Node>,
    input: Seq<char>,
    st: MatchState,
    base: nat,
)
    ensures
        match_seq(a + b, outer_next, input, st, base) == match match_seq(
            a,
            if b.len() > 0 {
                Some(b[0])
            } else {
                outer_next
            },
            input,
            st,
            base,
        ) {
            Some(mid) => match_seq(b, outer_next, input, mid, base + seq_group_count(a)),
            None => None,
        },
    decreases a.len(),
{
    let between = if b.len() > 0 {
        Some(b[0])
    } else {
        outer_next
    };
    if a.len() == 0 {
        assert(a + b =~= b);
    } else {
        let whole = a + b;
        assert(whole.drop_first() =~= a.drop_first() + b);
        assert(whole[0] == a[0]);
        let next = if a.len() > 1 {
            Some(a[1])
        } else {
            between
        };
        assert(next == if whole.drop_first().len() > 0 {
            Some(whole.drop_first()[0])
        } else {
            outer_next
        });
        match match_node(a[0], next, input, st, base) {
            Some(mid) => {
                lemma_match_seq_concat(
                    a.drop_first(),
                    b,
                    outer_next,
                    input,
                    mid,
                    base + group_count(a[0]),
                );
            },
            None => {},
        }
    }
}

/// A sequence of one node matches as that node does, and has its groups.
pub proof fn lemma_match_seq_single(
    node: Node,
    outer_next: Option<Node>,
    input: Seq<char>,
    st: MatchState,
    base: nat,
)
    ensures
        match_seq(seq![node], outer_next, input, st, base) == match_node(
            node,
            outer_next,
            input,
            st,
            base,
        ),
        seq_group_count(seq![node]) == group_count(node),
{
    let items = seq![node];
    assert(items.len() == 1 && items[0] == node);
    assert(items.drop_first() =~= Seq::<Node>::empty());
    assert(seq_group_count(items.drop_first()) == 0);
    match match_node(node, outer_next, input, st, base) {
        Some(mid) => {
            assert(match_seq(items.drop_first(), outer_next, input, mid, base + group_count(node))
                == Some(mid));
        },
        None => {},
    }
}

/// Whether a node matches in the same way whatever follows it: no `+` stands
/// where it would look at the node that follows.
pub open spec fn ignores_next(node: Node) -> bool
    decreases node,
{
    match node {
        Node::StartOfString(inner) => ignores_next(*inner),
        Node::EndOfString(inner) => ignores_next(*inner),
        Node::OneOrMoreQuantifier(_) => false,
        Node::Group(items) => items.len() == 0 || ignores_next(items.last()),
        _ => true,
    }
}

/// A node that ignores what follows matches alike before any two nodes.
pub proof fn lemma_ignores_next(
    node: Node,
    next: Option<Node>,
    other: Option<Node>,
    input: Seq<char>,
    st: MatchState,
    base: nat,
)
    requires
        ignores_next(node),
    ensures
        match_node(node, next, input, st, base) == match_node(node, other, input, st, base),
    decreases node,
{
    match node {
        Node::StartOfString(inner) => {
            lemma_ignores_next(*inner, next, other, input, st, base);
        },
        Node::EndOfString(inner) => {
            lemma_ignores_next(*inner, next, other, input, st, base);
        },
        Node::Group(items) => {
            lemma_seq_ignores_next(items, next, other, input, st, base + 1);
        },
        _ => {},
    }
}

/// A sequence whose last node ignores what follows matches alike before any
/// two nodes.
pub proof fn lemma_seq_ignores_next(
    items: Seq<Node>,
    next: Option<Node>,
    other: Option<Node>,
    input: Seq<char>,
    st: MatchState,
    base: nat,
)
    requires
        items.len() == 0 || ignores_next(items.last()),
    ensures
        match_seq(items, next, input, st, base) == match_seq(items, other, input, st, base),
    decreases items, items.len(),
{
    if items.len() > 0 {
        let rest = items.drop_first();
        if rest.len() == 0 {
            assert(items.last() == items[0]);
            assert(items =~= seq![items[0]]);
            lemma_ignores_next(items[0], next, other, input, st, base);
            lemma_match_seq_single(items[0], next, input, st, base);
            lemma_match_seq_single(items[0], other, input, st, base);
        } else {
            assert(rest.last() == items.last());
            match match_node(items[0], Some(rest[0]), input, st, base) {
                Some(mid) => {
                    lemma_seq_ignores_next(
                        rest,
                        next,
                        other,
                        input,
                        mid,
                        base + group_count(items[0]),
                    );
                },
                None => {},
            }
        }
    }
}

} // verus!
