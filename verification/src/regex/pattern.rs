//! The syntax tree of a compiled regular expression.

use crate::regex::node::Node;
use crate::text::copy_chars;
use std::collections::VecDeque;
use vstd::prelude::*;
use vstd::std_specs::cmp::PartialEqSpecImpl;
use vstd::std_specs::vecdeque::VecDequeAdditionalSpecFns;

verus! {

broadcast use {
    vstd::std_specs::vec::group_vec_axioms,
    vstd::std_specs::vecdeque::group_vec_dequeue_axioms,
};

/// One construct of a regular expression.
#[derive(Debug)]
pub enum Pattern {
    /// One given character.
    CharLiteral(char),
    /// Any decimal digit.
    DigitClass,
    /// Any ASCII letter or decimal digit.
    AlphanumericClass,
    /// Any character that is listed.
    PositiveCharGroup(Vec<char>),
    /// Any character that is not listed.
    NegativeCharGroup(Vec<char>),
    /// The inner pattern, tried at the start of the input only.
    StartOfString(Box<Pattern>),
    /// The inner pattern, followed by the end of the input.
    EndOfString(Box<Pattern>),
    /// The inner pattern, once or several times.
    OneOrMoreQuantifier(Box<Pattern>),
    /// The inner pattern, once or not at all.
    OptionalQuantifier(Box<Pattern>),
    /// Any character.
    Wildcard,
    /// A sequence treated as one unit, whose matched text is captured.
    Group(VecDeque<Pattern>),
    /// Alternative sequences; the first that matches is taken.
    Alternation(Vec<Vec<Pattern>>),
    /// The text captured by the group of the given number, counted from one.
    Backreference(usize),
}

impl Pattern {
    /// The tree that this pattern stands for.
    pub open spec fn node(&self) -> Node
        decreases self,
    {
        match self {
            Pattern::CharLiteral(c) => Node::CharLiteral(*c),
            Pattern::DigitClass => Node::DigitClass,
            Pattern::AlphanumericClass => Node::AlphanumericClass,
            Pattern::PositiveCharGroup(chars) => Node::PositiveCharGroup(chars@),
            Pattern::NegativeCharGroup(chars) => Node::NegativeCharGroup(chars@),
            Pattern::StartOfString(inner) => Node::StartOfString(Box::new(inner.node())),
            Pattern::EndOfString(inner) => Node::EndOfString(Box::new(inner.node())),
            Pattern::OneOrMoreQuantifier(inner) => Node::OneOrMoreQuantifier(
                Box::new(inner.node()),
            ),
            Pattern::OptionalQuantifier(inner) => Node::OptionalQuantifier(Box::new(inner.node())),
            Pattern::Wildcard => Node::Wildcard,
            Pattern::Group(items) => Node::Group(
                Seq::new(
                    items.len() as nat,
                    |i: int|
                        if 0 <= i < items.len() {
                            items[i].node()
                        } else {
                            Node::Wildcard
                        },
                ),
            ),
            Pattern::Alternation(variants) => Node::Alternation(
                Seq::new(
                    variants.len() as nat,
                    |i: int|
                        Seq::new(
                            if 0 <= i < variants.len() {
                                variants[i].len() as nat
                            } else {
                                0
                            },
                            |j: int|
                                if 0 <= i < variants.len() && 0 <= j < variants[i].len() {
                                    variants[i][j].node()
                                } else {
                                    Node::Wildcard
                                },
                        ),
                ),
            ),
            Pattern::Backreference(n) => Node::Backreference(*n as nat),
        }
    }
}

impl View for Pattern {
    type V = Node;

    open spec fn view(&self) -> Node {
        self.node()
    }
}

/// The trees of a sequence of patterns.
pub open spec fn nodes_of(items: Seq<Pattern>) -> Seq<Node> {
    Seq::new(items.len(), |i: int| items[i]@)
}

/// The trees of a list of alternatives.
pub open spec fn variants_of(variants: Seq<Vec<Pattern>>) -> Seq<Seq<Node>> {
    Seq::new(variants.len(), |i: int| nodes_of(variants[i]@))
}

/// The tree of the pattern that may follow, if there is one.
pub open spec fn next_node(next: Option<&Pattern>) -> Option<Node> {
    match next {
        Some(p) => Some(p@),
        None => None,
    }
}

/// The view of a group is the group of the views of its items.
pub proof fn lemma_view_group(items: VecDeque<Pattern>)
    ensures
        Pattern::Group(items)@ == Node::Group(nodes_of(items@)),
{
    assert(Pattern::Group(items)@->Group_0 =~= nodes_of(items@));
}

/// The view of an alternation is the alternation of the views of its variants.
pub proof fn lemma_view_alternation(variants: Vec<Vec<Pattern>>)
    ensures
        Pattern::Alternation(variants)@ == Node::Alternation(variants_of(variants@)),
{
    let a = Pattern::Alternation(variants)@->Alternation_0;
    let b = variants_of(variants@);
    assert(a.len() == b.len());
    assert forall|i: int| 0 <= i < a.len() implies a[i] =~= b[i] by {}
    assert(a =~= b);
}

/// Whether two lists hold the same characters in the same order.
fn same_chars(a: &Vec<char>, b: &Vec<char>) -> (same: bool)
    ensures
        same == (a@ == b@),
{
    if a.len() != b.len() {
        return false;
    }
    let mut i: usize = 0;
    while i < a.len()
        invariant
            a.len() == b.len(),
            i <= a.len(),
            forall|j: int| 0 <= j < i ==> a@[j] == b@[j],
        decreases a.len() - i,
    {
        if a[i] != b[i] {
            return false;
        }
        i += 1;
    }
    assert(a@ =~= b@);
    true
}

/// Whether two sequences of patterns stand for the same trees.
fn same_sequence(a: &Vec<Pattern>, b: &Vec<Pattern>) -> (same: bool)
    ensures
        same == (nodes_of(a@) == nodes_of(b@)),
    decreases a,
{
    if a.len() != b.len() {
        assert(nodes_of(a@).len() != nodes_of(b@).len());
        return false;
    }
    let mut i: usize = 0;
    while i < a.len()
        invariant
            a.len() == b.len(),
            i <= a.len(),
            forall|j: int| 0 <= j < i ==> a@[j]@ == b@[j]@,
        decreases a.len() - i,
    {
        if !same_pattern(&a[i], &b[i]) {
            assert(nodes_of(a@)[i as int] != nodes_of(b@)[i as int]);
            return false;
        }
        i += 1;
    }
    assert(nodes_of(a@) =~= nodes_of(b@));
    true
}

/// Whether the items of two groups stand for the same trees.
fn same_items(a: &VecDeque<Pattern>, b: &VecDeque<Pattern>) -> (same: bool)
    ensures
        same == (nodes_of(a@) == nodes_of(b@)),
    decreases a,
{
    if a.len() != b.len() {
        assert(nodes_of(a@).len() != nodes_of(b@).len());
        return false;
    }
    let mut i: usize = 0;
    while i < a.len()
        invariant
            a.len() == b.len(),
            i <= a.len(),
            forall|j: int| 0 <= j < i ==> a@[j]@ == b@[j]@,
        decreases a.len() - i,
    {
        if !same_pattern(&a[i], &b[i]) {
            assert(nodes_of(a@)[i as int] != nodes_of(b@)[i as int]);
            return false;
        }
        i += 1;
    }
    assert(nodes_of(a@) =~= nodes_of(b@));
    true
}

/// Whether two lists of alternatives stand for the same trees.
fn same_variants(a: &Vec<Vec<Pattern>>, b: &Vec<Vec<Pattern>>) -> (same: bool)
    ensures
        same == (variants_of(a@) == variants_of(b@)),
    decreases a,
{
    if a.len() != b.len() {
        assert(variants_of(a@).len() != variants_of(b@).len());
        return false;
    }
    let mut i: usize = 0;
    while i < a.len()
        invariant
            a.len() == b.len(),
            i <= a.len(),
            forall|j: int| 0 <= j < i ==> nodes_of(a@[j]@) == nodes_of(b@[j]@),
        decreases a.len() - i,
    {
        if !same_sequence(&a[i], &b[i]) {
            assert(variants_of(a@)[i as int] != variants_of(b@)[i as int]);
            return false;
        }
        i += 1;
    }
    assert(variants_of(a@) =~= variants_of(b@));
    true
}

/// Whether two patterns stand for the same tree: the same variant with the
/// same contents.
pub fn same_pattern(a: &Pattern, b: &Pattern) -> (same: bool)
    ensures
        same == (a@ == b@),
    decreases a,
{
    match (a, b) {
        (Pattern::CharLiteral(x), Pattern::CharLiteral(y)) => *x == *y,
        (Pattern::DigitClass, Pattern::DigitClass) => true,
        (Pattern::AlphanumericClass, Pattern::AlphanumericClass) => true,
        (Pattern::PositiveCharGroup(x), Pattern::PositiveCharGroup(y)) => same_chars(x, y),
        (Pattern::NegativeCharGroup(x), Pattern::NegativeCharGroup(y)) => same_chars(x, y),
        (Pattern::StartOfString(x), Pattern::StartOfString(y)) => same_pattern(x, y),
        (Pattern::EndOfString(x), Pattern::EndOfString(y)) => same_pattern(x, y),
        (Pattern::OneOrMoreQuantifier(x), Pattern::OneOrMoreQuantifier(y)) => same_pattern(x, y),
        (Pattern::OptionalQuantifier(x), Pattern::OptionalQuantifier(y)) => same_pattern(x, y),
        (Pattern::Wildcard, Pattern::Wildcard) => true,
        (Pattern::Group(x), Pattern::Group(y)) => {
            proof {
                lemma_view_group(*x);
                lemma_view_group(*y);
            }
            same_items(x, y)
        },
        (Pattern::Alternation(x), Pattern::Alternation(y)) => {
            proof {
                lemma_view_alternation(*x);
                lemma_view_alternation(*y);
            }
            same_variants(x, y)
        },
        (Pattern::Backreference(x), Pattern::Backreference(y)) => *x == *y,
        _ => false,
    }
}

/// A copy of a sequence of patterns.
fn copy_sequence(items: &Vec<Pattern>) -> (copy: Vec<Pattern>)
    ensures
        nodes_of(copy@) == nodes_of(items@),
    decreases items,
{
    let mut copy: Vec<Pattern> = Vec::new();
    let mut i: usize = 0;
    while i < items.len()
        invariant
            i <= items.len(),
            copy@.len() == i,
            forall|j: int| 0 <= j < i ==> copy@[j]@ == items@[j]@,
        decreases items.len() - i,
    {
        copy.push(copy_pattern(&items[i]));
        i += 1;
    }
    assert(nodes_of(copy@) =~= nodes_of(items@));
    copy
}

/// A copy of the items of a group.
fn copy_items(items: &VecDeque<Pattern>) -> (copy: VecDeque<Pattern>)
    ensures
        nodes_of(copy@) == nodes_of(items@),
    decreases items,
{
    let mut copy: VecDeque<Pattern> = VecDeque::new();
    let mut i: usize = 0;
    while i < items.len()
        invariant
            i <= items.len(),
            copy@.len() == i,
            forall|j: int| 0 <= j < i ==> copy@[j]@ == items@[j]@,
        decreases items.len() - i,
    {
        copy.push_back(copy_pattern(&items[i]));
        i += 1;
    }
    assert(nodes_of(copy@) =~= nodes_of(items@));
    copy
}

/// A copy of a list of alternatives.
fn copy_variants(variants: &Vec<Vec<Pattern>>) -> (copy: Vec<Vec<Pattern>>)
    ensures
        variants_of(copy@) == variants_of(variants@),
    decreases variants,
{
    let mut copy: Vec<Vec<Pattern>> = Vec::new();
    let mut i: usize = 0;
    while i < variants.len()
        invariant
            i <= variants.len(),
            copy@.len() == i,
            forall|j: int| 0 <= j < i ==> nodes_of(copy@[j]@) == nodes_of(variants@[j]@),
        decreases variants.len() - i,
    {
        copy.push(copy_sequence(&variants[i]));
        i += 1;
    }
    assert(variants_of(copy@) =~= variants_of(variants@));
    copy
}

/// A copy of a pattern: another pattern that stands for the same tree.
pub fn copy_pattern(pattern: &Pattern) -> (copy: Pattern)
    ensures
        copy@ == pattern@,
    decreases pattern,
{
    match pattern {
        Pattern::CharLiteral(c) => Pattern::CharLiteral(*c),
        Pattern::DigitClass => Pattern::DigitClass,
        Pattern::AlphanumericClass => Pattern::AlphanumericClass,
        Pattern::PositiveCharGroup(chars) => Pattern::PositiveCharGroup(copy_chars(chars)),
        Pattern::NegativeCharGroup(chars) => Pattern::NegativeCharGroup(copy_chars(chars)),
        Pattern::StartOfString(inner) => Pattern::StartOfString(Box::new(copy_pattern(inner))),
        Pattern::EndOfString(inner) => Pattern::EndOfString(Box::new(copy_pattern(inner))),
        Pattern::OneOrMoreQuantifier(inner) => Pattern::OneOrMoreQuantifier(
            Box::new(copy_pattern(inner)),
        ),
        Pattern::OptionalQuantifier(inner) => Pattern::OptionalQuantifier(
            Box::new(copy_pattern(inner)),
        ),
        Pattern::Wildcard => Pattern::Wildcard,
        Pattern::Group(items) => {
            let copy = copy_items(items);
            proof {
                lemma_view_group(*items);
                lemma_view_group(copy);
            }
            Pattern::Group(copy)
        },
        Pattern::Alternation(variants) => {
            let copy = copy_variants(variants);
            proof {
                lemma_view_alternation(*variants);
                lemma_view_alternation(copy);
            }
            Pattern::Alternation(copy)
        },
        Pattern::Backreference(n) => Pattern::Backreference(*n),
    }
}

impl Clone for Pattern {
    fn clone(&self) -> (copy: Self)
        ensures
            copy@ == self@,
    {
        copy_pattern(self)
    }
}

impl PartialEq for Pattern {
    fn eq(&self, other: &Self) -> (same: bool) {
        same_pattern(self, other)
    }
}

impl PartialEqSpecImpl for Pattern {
    open spec fn obeys_eq_spec() -> bool {
        true
    }

    open spec fn eq_spec(&self, other: &Self) -> bool {
        self@ == other@
    }
}

} // verus!
