//! The matcher: a walk over the tree of a compiled expression that follows
//! the input and fills the capture slots.

use crate::regex::captures::Captures;
use crate::regex::node::{
    group_count, lemma_seq_group_count_skip, lemma_seq_size_at, lemma_variants_group_count_skip,
    lemma_variants_size_at, next_group_count, next_size, node_size, seq_group_count, seq_size,
    variants_group_count, variants_size,
};
use crate::regex::pattern::{
    lemma_view_alternation, lemma_view_group, next_node, nodes_of, same_pattern, variants_of,
    Pattern,
};
use crate::regex::semantics::{
    match_node, match_seq, match_variants, occurs_at, repeat_greedy, repeat_leaving_one,
    repeat_until, MatchState,
};
use crate::text::{contains_char, is_char_alphanumeric, is_char_digit, lemma_seq_char_is_scalar};
use std::collections::VecDeque;
use vstd::prelude::*;

verus! {

broadcast use lemma_seq_char_is_scalar;

/// A sequence of patterns, in whichever collection holds it.
#[derive(Clone, Copy)]
pub enum Items<'a> {
    /// The items of a group or of a whole expression.
    Deque(&'a VecDeque<Pattern>),
    /// The items of one variant of an alternation.
    List(&'a Vec<Pattern>),
}

impl<'a> View for Items<'a> {
    type V = Seq<Pattern>;

    open spec fn view(&self) -> Seq<Pattern> {
        match self {
            Items::Deque(items) => items@,
            Items::List(items) => items@,
        }
    }
}

impl<'a> Items<'a> {
    /// The number of items.
    pub fn len(&self) -> (n: usize)
        ensures
            n == self@.len(),
    {
        match self {
            Items::Deque(items) => items.len(),
            Items::List(items) => items.len(),
        }
    }

    /// The item in place `i`.
    pub fn get(&self, i: usize) -> (item: &'a Pattern)
        requires
            i < self@.len(),
        ensures
            *item == self@[i as int],
    {
        match self {
            Items::Deque(items) => &items[i],
            Items::List(items) => &items[i],
        }
    }
}

/// The number of groups in `node`.
pub fn count_groups(node: &Pattern) -> (n: usize)
    requires
        group_count(node@) <= usize::MAX,
    ensures
        n == group_count(node@),
    decreases node_size(node@), 0nat,
{
    match node {
        Pattern::StartOfString(inner) => count_groups(inner),
        Pattern::EndOfString(inner) => count_groups(inner),
        Pattern::OneOrMoreQuantifier(inner) => count_groups(inner),
        Pattern::OptionalQuantifier(inner) => count_groups(inner),
        Pattern::Group(items) => {
            proof {
                lemma_view_group(*items);
            }
            1 + count_groups_in(Items::Deque(items))
        },
        Pattern::Alternation(variants) => {
            proof {
                lemma_view_alternation(*variants);
            }
            let ghost all = variants_of(variants@);
            let mut n: usize = 0;
            let mut k: usize = 0;
            assert(all.skip(0) =~= all);
            while k < variants.len()
                invariant
                    k <= variants.len(),
                    all == variants_of(variants@),
                    n + variants_group_count(all.skip(k as int)) == variants_group_count(all),
                    variants_group_count(all) <= usize::MAX,
                    variants_size(all) < node_size(node@),
                decreases variants.len() - k,
            {
                proof {
                    lemma_variants_group_count_skip(all, k as int);
                    lemma_variants_size_at(all, k as int);
                }
                n = n + count_groups_in(Items::List(&variants[k]));
                k += 1;
            }
            n
        },
        _ => 0,
    }
}

/// The number of groups in a sequence of patterns.
pub fn count_groups_in(items: Items) -> (n: usize)
    requires
        seq_group_count(nodes_of(items@)) <= usize::MAX,
    ensures
        n == seq_group_count(nodes_of(items@)),
    decreases seq_size(nodes_of(items@)), 1nat,
{
    let ghost all = nodes_of(items@);
    let mut n: usize = 0;
    let mut i: usize = 0;
    assert(all.skip(0) =~= all);
    while i < items.len()
        invariant
            i <= items@.len(),
            all == nodes_of(items@),
            n + seq_group_count(all.skip(i as int)) == seq_group_count(all),
            seq_group_count(all) <= usize::MAX,
        decreases items@.len() - i,
    {
        proof {
            lemma_seq_group_count_skip(all, i as int);
            lemma_seq_size_at(all, i as int);
        }
        n = n + count_groups(items.get(i));
        i += 1;
    }
    n
}

/// The state of an attempt that stands at `pos` with `captures`.
pub open spec fn state_at(pos: usize, captures: Captures) -> MatchState {
    MatchState { pos: pos as int, captures: captures@ }
}

/// Whether a result `r`, with `captures` as they are left, is the outcome
/// `expected`: the same end on a match, and `None` for `None`.
pub open spec fn is_outcome(r: Option<usize>, captures: Captures, expected: Option<MatchState>)
    -> bool {
    match expected {
        Some(end) => r matches Some(p) && p == end.pos && captures@ == end.captures,
        None => r is None,
    }
}

/// A copy of the code points of `input` from `from` up to `to`.
fn copy_range(input: &[char], from: usize, to: usize) -> (text: Vec<char>)
    requires
        from <= to <= input@.len(),
    ensures
        text@ == input@.subrange(from as int, to as int),
{
    let mut text: Vec<char> = Vec::new();
    let mut i: usize = from;
    while i < to
        invariant
            from <= i <= to <= input@.len(),
            text@ == input@.subrange(from as int, i as int),
        decreases to - i,
    {
        text.push(input[i]);
        i += 1;
        assert(text@ =~= input@.subrange(from as int, i as int));
    }
    text
}

/// Where `text` ends in `input` if it stands there at `pos`.
fn match_text(input: &[char], pos: usize, text: &Vec<char>) -> (r: Option<usize>)
    requires
        pos <= input@.len(),
    ensures
        match r {
            Some(end) => occurs_at(input@, pos as int, text@) && end == pos + text@.len(),
            None => !occurs_at(input@, pos as int, text@),
        },
{
    if text.len() > input.len() - pos {
        return None;
    }
    let mut k: usize = 0;
    while k < text.len()
        invariant
            k <= text@.len(),
            pos + text@.len() <= input@.len() <= usize::MAX,
            forall|j: int| 0 <= j < k ==> input@[pos + j] == text@[j],
        decreases text@.len() - k,
    {
        if input[pos + k] != text[k] {
            assert(input@.subrange(pos as int, pos + text@.len())[k as int] != text@[k as int]);
            return None;
        }
        k += 1;
    }
    assert(input@.subrange(pos as int, pos + text@.len()) =~= text@);
    Some(pos + text.len())
}

/// Matches `node` at `pos`.
///
/// On a match, gives the position after it and leaves in `captures` what the
/// groups inside `node` captured. Where `node` does not match, `captures` is
/// left in no particular state.
fn match_at(
    node: &Pattern,
    next: Option<&Pattern>,
    input: &[char],
    pos: usize,
    captures: &mut Captures,
    base: usize,
) -> (r: Option<usize>)
    requires
        pos <= input@.len(),
        base + group_count(node@) + next_group_count(next_node(next)) <= usize::MAX,
    ensures
        is_outcome(
            r,
            *final(captures),
            match_node(
                node@,
                next_node(next),
                input@,
                state_at(pos, *old(captures)),
                base as nat,
            ),
        ),
        r matches Some(p) ==> pos <= p <= input@.len(),
    decreases node_size(node@) + next_size(next_node(next)), 0nat,
{
    match node {
        Pattern::CharLiteral(c) => {
            if pos < input.len() && input[pos] == *c {
                Some(pos + 1)
            } else {
                None
            }
        },
        Pattern::DigitClass => {
            if pos < input.len() && is_char_digit(input[pos]) {
                Some(pos + 1)
            } else {
                None
            }
        },
        Pattern::AlphanumericClass => {
            if pos < input.len() && is_char_alphanumeric(input[pos]) {
                Some(pos + 1)
            } else {
                None
            }
        },
        Pattern::PositiveCharGroup(chars) => {
            if pos < input.len() && contains_char(chars, input[pos]) {
                Some(pos + 1)
            } else {
                None
            }
        },
        Pattern::NegativeCharGroup(chars) => {
            if pos < input.len() && !contains_char(chars, input[pos]) {
                Some(pos + 1)
            } else {
                None
            }
        },
        Pattern::Wildcard => {
            if pos < input.len() {
                Some(pos + 1)
            } else {
                None
            }
        },
        Pattern::StartOfString(inner) => match_at(inner, next, input, pos, captures, base),
        Pattern::EndOfString(inner) => {
            match match_at(inner, next, input, pos, captures, base) {
                Some(end) => if end == input.len() {
                    Some(end)
                } else {
                    None
                },
                None => None,
            }
        },
        Pattern::OptionalQuantifier(inner) => {
            let saved = captures.snapshot();
            match match_at(inner, None, input, pos, captures, base) {
                Some(end) => Some(end),
                None => {
                    *captures = saved;
                    Some(pos)
                },
            }
        },
        Pattern::OneOrMoreQuantifier(inner) => {
            match match_at(inner, next, input, pos, captures, base) {
                None => None,
                Some(first) => match next {
                    None => Some(repeat_greedy_from(inner, input, first, captures, base)),
                    Some(following) => if same_pattern(inner, following) {
                        Some(repeat_leaving_one_from(inner, input, first, captures, base))
                    } else {
                        let following_base: usize = base + count_groups(inner);
                        Some(
                            repeat_until_from(
                                inner,
                                following,
                                input,
                                first,
                                captures,
                                base,
                                following_base,
                            ),
                        )
                    },
                },
            }
        },
        Pattern::Group(items) => {
            proof {
                lemma_view_group(*items);
            }
            match match_sequence(Items::Deque(items), next, input, pos, captures, base + 1) {
                Some(end) => {
                    captures.set(base + 1, copy_range(input, pos, end));
                    Some(end)
                },
                None => None,
            }
        },
        Pattern::Alternation(variants) => {
            proof {
                lemma_view_alternation(*variants);
            }
            match_alternation(variants, input, pos, captures, base)
        },
        Pattern::Backreference(n) => match captures.get(*n) {
            Some(text) => match_text(input, pos, text),
            None => None,
        },
    }
}

/// Matches `items` one after the other from `pos` on.
pub(crate) fn match_sequence(
    items: Items,
    outer_next: Option<&Pattern>,
    input: &[char],
    pos: usize,
    captures: &mut Captures,
    base: usize,
) -> (r: Option<usize>)
    requires
        pos <= input@.len(),
        base + seq_group_count(nodes_of(items@)) + next_group_count(next_node(outer_next))
            <= usize::MAX,
    ensures
        is_outcome(
            r,
            *final(captures),
            match_seq(
                nodes_of(items@),
                next_node(outer_next),
                input@,
                state_at(pos, *old(captures)),
                base as nat,
            ),
        ),
        r matches Some(p) ==> pos <= p <= input@.len(),
    decreases seq_size(nodes_of(items@)) + next_size(next_node(outer_next)), 1 + items@.len(),
{
    let ghost all = nodes_of(items@);
    let ghost outer = next_node(outer_next);
    let ghost goal = match_seq(all, outer, input@, state_at(pos, *captures), base as nat);
    let mut p: usize = pos;
    let mut b: usize = base;
    let mut i: usize = 0;
    assert(all.skip(0) =~= all);
    while i < items.len()
        invariant
            i <= items@.len(),
            pos <= p <= input@.len(),
            all == nodes_of(items@),
            outer == next_node(outer_next),
            goal == match_seq(all, outer, input@, state_at(pos, *old(captures)), base as nat),
            goal == match_seq(all.skip(i as int), outer, input@, state_at(p, *captures), b as nat),
            b + seq_group_count(all.skip(i as int)) + next_group_count(outer) <= usize::MAX,
        decreases items@.len() - i,
    {
        let item = items.get(i);
        let next = if i + 1 < items.len() {
            Some(items.get(i + 1))
        } else {
            outer_next
        };
        proof {
            lemma_seq_group_count_skip(all, i as int);
            lemma_seq_size_at(all, i as int);
            assert(all.skip(i as int).drop_first() =~= all.skip(i + 1));
            if i + 1 < items@.len() {
                lemma_seq_group_count_skip(all, i + 1);
            }
        }
        match match_at(item, next, input, p, captures, b) {
            Some(q) => {
                p = q;
                b = b + count_groups(item);
                i += 1;
            },
            None => {
                return None;
            },
        }
    }
    Some(p)
}

/// Matches the first of `variants` that matches at `pos`.
fn match_alternation(
    variants: &Vec<Vec<Pattern>>,
    input: &[char],
    pos: usize,
    captures: &mut Captures,
    base: usize,
) -> (r: Option<usize>)
    requires
        pos <= input@.len(),
        base + variants_group_count(variants_of(variants@)) <= usize::MAX,
    ensures
        is_outcome(
            r,
            *final(captures),
            match_variants(
                variants_of(variants@),
                input@,
                state_at(pos, *old(captures)),
                base as nat,
            ),
        ),
        r matches Some(p) ==> pos <= p <= input@.len(),
    decreases variants_size(variants_of(variants@)), 1 + variants@.len(),
{
    let ghost all = variants_of(variants@);
    let ghost start = state_at(pos, *captures);
    let ghost goal = match_variants(all, input@, start, base as nat);
    let mut b: usize = base;
    let mut k: usize = 0;
    assert(all.skip(0) =~= all);
    while k < variants.len()
        invariant
            k <= variants@.len(),
            pos <= input@.len(),
            all == variants_of(variants@),
            start == state_at(pos, *captures),
            start == state_at(pos, *old(captures)),
            goal == match_variants(all, input@, start, base as nat),
            goal == match_variants(all.skip(k as int), input@, start, b as nat),
            b + variants_group_count(all.skip(k as int)) <= usize::MAX,
        decreases variants@.len() - k,
    {
        proof {
            lemma_variants_group_count_skip(all, k as int);
            lemma_variants_size_at(all, k as int);
            assert(all.skip(k as int).drop_first() =~= all.skip(k + 1));
        }
        let mut trial = captures.snapshot();
        match match_sequence(Items::List(&variants[k]), None, input, pos, &mut trial, b) {
            Some(end) => {
                *captures = trial;
                return Some(end);
            },
            None => {
                b = b + count_groups_in(Items::List(&variants[k]));
                k += 1;
            },
        }
    }
    None
}

/// Repeats `inner` from `pos` for as long as it matches and moves forward.
fn repeat_greedy_from(
    inner: &Pattern,
    input: &[char],
    pos: usize,
    captures: &mut Captures,
    base: usize,
) -> (end: usize)
    requires
        pos <= input@.len(),
        base + group_count(inner@) <= usize::MAX,
    ensures
        state_at(end, *final(captures)) == repeat_greedy(
            inner@,
            input@,
            state_at(pos, *old(captures)),
            base as nat,
        ),
        pos <= end <= input@.len(),
    decreases node_size(inner@), 1nat,
{
    let ghost goal = repeat_greedy(inner@, input@, state_at(pos, *captures), base as nat);
    let mut p: usize = pos;
    let mut going = true;
    while going
        invariant
            pos <= p <= input@.len(),
            base + group_count(inner@) <= usize::MAX,
            going ==> goal == repeat_greedy(inner@, input@, state_at(p, *captures), base as nat),
            !going ==> goal == state_at(p, *captures),
        decreases
                if going {
                    input@.len() - p + 1
                } else {
                    0
                },
    {
        let saved = captures.snapshot();
        match match_at(inner, None, input, p, captures, base) {
            Some(q) => if q > p {
                p = q;
            } else {
                *captures = saved;
                going = false;
            },
            None => {
                *captures = saved;
                going = false;
            },
        }
    }
    p
}

/// Repeats `inner` from `pos` as `repeat_greedy_from` does, but stops one
/// repetition early.
fn repeat_leaving_one_from(
    inner: &Pattern,
    input: &[char],
    pos: usize,
    captures: &mut Captures,
    base: usize,
) -> (end: usize)
    requires
        pos <= input@.len(),
        base + group_count(inner@) <= usize::MAX,
    ensures
        state_at(end, *final(captures)) == repeat_leaving_one(
            inner@,
            input@,
            state_at(pos, *old(captures)),
            base as nat,
        ),
        pos <= end <= input@.len(),
    decreases node_size(inner@), 1nat,
{
    let ghost goal = repeat_leaving_one(inner@, input@, state_at(pos, *captures), base as nat);
    let mut p: usize = pos;
    let mut going = true;
    while going
        invariant
            pos <= p <= input@.len(),
            base + group_count(inner@) <= usize::MAX,
            going ==> goal == repeat_leaving_one(
                inner@,
                input@,
                state_at(p, *captures),
                base as nat,
            ),
            !going ==> goal == state_at(p, *captures),
        decreases
                if going {
                    input@.len() - p + 1
                } else {
                    0
                },
    {
        let mut trial = captures.snapshot();
        match match_at(inner, None, input, p, &mut trial, base) {
            Some(q) => if q > p {
                let mut probe = trial.snapshot();
                match match_at(inner, None, input, q, &mut probe, base) {
                    Some(_) => {
                        p = q;
                        *captures = trial;
                    },
                    None => {
                        going = false;
                    },
                }
            } else {
                going = false;
            },
            None => {
                going = false;
            },
        }
    }
    p
}

/// Repeats `inner` from `pos` for as long as it matches and moves forward,
/// but stops as soon as `following` matches at the position reached.
fn repeat_until_from(
    inner: &Pattern,
    following: &Pattern,
    input: &[char],
    pos: usize,
    captures: &mut Captures,
    base: usize,
    following_base: usize,
) -> (end: usize)
    requires
        pos <= input@.len(),
        base + group_count(inner@) <= usize::MAX,
        following_base + group_count(following@) <= usize::MAX,
    ensures
        state_at(end, *final(captures)) == repeat_until(
            inner@,
            following@,
            input@,
            state_at(pos, *old(captures)),
            base as nat,
            following_base as nat,
        ),
        pos <= end <= input@.len(),
    decreases node_size(inner@) + node_size(following@), 1nat,
{
    let ghost goal = repeat_until(
        inner@,
        following@,
        input@,
        state_at(pos, *captures),
        base as nat,
        following_base as nat,
    );
    let mut p: usize = pos;
    let mut going = true;
    while going
        invariant
            pos <= p <= input@.len(),
            base + group_count(inner@) <= usize::MAX,
            following_base + group_count(following@) <= usize::MAX,
            going ==> goal == repeat_until(
                inner@,
                following@,
                input@,
                state_at(p, *captures),
                base as nat,
                following_base as nat,
            ),
            !going ==> goal == state_at(p, *captures),
        decreases
                if going {
                    input@.len() - p + 1
                } else {
                    0
                },
    {
        let mut probe = captures.snapshot();
        match match_at(following, None, input, p, &mut probe, following_base) {
            Some(_) => {
                going = false;
            },
            None => {
                let mut trial = captures.snapshot();
                match match_at(inner, None, input, p, &mut trial, base) {
                    Some(q) => if q > p {
                        p = q;
                        *captures = trial;
                    } else {
                        going = false;
                    },
                    None => {
                        going = false;
                    },
                }
            },
        }
    }
    p
}

impl Pattern {
    /// Matches this pattern at `*position` in `input`.
    ///
    /// `next_pattern` is the pattern that follows this one, if any, and
    /// `groups_before` the number of groups that open before this one in the
    /// whole expression. On a match the result is `true`, `*position` is the
    /// position after the match, and `captures` holds in addition what the
    /// groups inside captured. Otherwise the result is `false`, and both are
    /// as they were.
    pub fn matches(
        &self,
        input: &[char],
        position: &mut usize,
        next_pattern: Option<&Pattern>,
        captures: &mut Captures,
        groups_before: usize,
    ) -> (matched: bool)
        requires
            *old(position) <= input@.len(),
            groups_before + group_count(self@) + next_group_count(next_node(next_pattern))
                <= usize::MAX,
        ensures
            match match_node(
                self@,
                next_node(next_pattern),
                input@,
                state_at(*old(position), *old(captures)),
                groups_before as nat,
            ) {
                Some(end) => matched && *final(position) == end.pos && final(captures)@
                    == end.captures,
                None => !matched && *final(position) == *old(position) && final(captures)@ == old(
                    captures,
                )@,
            },
    {
        let mut trial = captures.snapshot();
        match match_at(self, next_pattern, input, *position, &mut trial, groups_before) {
            Some(end) => {
                *position = end;
                *captures = trial;
                true
            },
            None => false,
        }
    }
}

} // verus!
