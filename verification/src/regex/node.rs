//! The tree of a compiled regular expression as a mathematical value, and
//! its measures: the number of its nodes and the number of its groups.

use vstd::prelude::*;

verus! {

/// The tree of a compiled expression. A `Pattern` holds such a tree in
/// memory; its view is this.
pub enum Node {
    /// One given character.
    CharLiteral(char),
    /// Any decimal digit.
    DigitClass,
    /// Any ASCII letter or decimal digit.
    AlphanumericClass,
    /// Any character that is listed.
    PositiveCharGroup(Seq<char>),
    /// Any character that is not listed.
    NegativeCharGroup(Seq<char>),
    /// The inner node, tried at the start of the input only.
    StartOfString(Box<Node>),
    /// The inner node, followed by the end of the input.
    EndOfString(Box<Node>),
    /// The inner node, once or several times.
    OneOrMoreQuantifier(Box<Node>),
    /// The inner node, once or not at all.
    OptionalQuantifier(Box<Node>),
    /// Any character.
    Wildcard,
    /// A sequence treated as one unit, whose matched text is captured.
    Group(Seq<Node>),
    /// Alternative sequences; the first that matches is taken.
    Alternation(Seq<Seq<Node>>),
    /// The text captured by the group of the given number, counted from one.
    Backreference(nat),
}

/// The number of nodes in a tree; every variant of an alternation counts as
/// one node more.
pub open spec fn node_size(n: Node) -> nat
    decreases n,
{
    match n {
        Node::StartOfString(inner) => 1 + node_size(*inner),
        Node::EndOfString(inner) => 1 + node_size(*inner),
        Node::OneOrMoreQuantifier(inner) => 1 + node_size(*inner),
        Node::OptionalQuantifier(inner) => 1 + node_size(*inner),
        Node::Group(items) => 1 + seq_size(items),
        Node::Alternation(variants) => 1 + variants_size(variants),
        _ => 1,
    }
}

/// The number of nodes in a sequence of trees.
pub open spec fn seq_size(s: Seq<Node>) -> nat
    decreases s,
{
    if s.len() == 0 {
        0
    } else {
        node_size(s[0]) + seq_size(s.drop_first())
    }
}

/// The number of nodes in a list of alternatives.
pub open spec fn variants_size(s: Seq<Seq<Node>>) -> nat
    decreases s,
{
    if s.len() == 0 {
        0
    } else {
        1 + seq_size(s[0]) + variants_size(s.drop_first())
    }
}

/// The size of the node that may follow; nothing counts as zero.
pub open spec fn next_size(next: Option<Node>) -> nat {
    match next {
        Some(n) => node_size(n),
        None => 0,
    }
}

/// Whether no anchor to the start of the input stands anywhere in a tree.
pub open spec fn free_of_start(n: Node) -> bool
    decreases n,
{
    match n {
        Node::StartOfString(_) => false,
        Node::EndOfString(inner) => free_of_start(*inner),
        Node::OneOrMoreQuantifier(inner) => free_of_start(*inner),
        Node::OptionalQuantifier(inner) => free_of_start(*inner),
        Node::Group(items) => forall|i: int|
            0 <= i < items.len() ==> free_of_start(#[trigger] items[i]),
        Node::Alternation(variants) => forall|k: int, i: int|
            0 <= k < variants.len() && 0 <= i < variants[k].len() ==> free_of_start(
                #[trigger] variants[k][i],
            ),
        _ => true,
    }
}

/// The number of groups in a tree, which is the number of capture slots that
/// it can fill.
pub open spec fn group_count(n: Node) -> nat
    decreases n,
{
    match n {
        Node::StartOfString(inner) => group_count(*inner),
        Node::EndOfString(inner) => group_count(*inner),
        Node::OneOrMoreQuantifier(inner) => group_count(*inner),
        Node::OptionalQuantifier(inner) => group_count(*inner),
        Node::Group(items) => 1 + seq_group_count(items),
        Node::Alternation(variants) => variants_group_count(variants),
        _ => 0,
    }
}

/// The number of groups in a sequence of trees.
pub open spec fn seq_group_count(s: Seq<Node>) -> nat
    decreases s,
{
    if s.len() == 0 {
        0
    } else {
        group_count(s[0]) + seq_group_count(s.drop_first())
    }
}

/// The number of groups in a list of alternatives.
pub open spec fn variants_group_count(s: Seq<Seq<Node>>) -> nat
    decreases s,
{
    if s.len() == 0 {
        0
    } else {
        seq_group_count(s[0]) + variants_group_count(s.drop_first())
    }
}

/// The number of groups in the node that may follow.
pub open spec fn next_group_count(next: Option<Node>) -> nat {
    match next {
        Some(n) => group_count(n),
        None => 0,
    }
}

/// Adding a node at the end of a sequence adds its groups.
pub proof fn lemma_seq_group_count_push(s: Seq<Node>, n: Node)
    ensures
        seq_group_count(s.push(n)) == seq_group_count(s) + group_count(n),
    decreases s.len(),
{
    if s.len() == 0 {
        assert(s.push(n).drop_first() =~= s);
    } else {
        assert(s.push(n).drop_first() =~= s.drop_first().push(n));
        lemma_seq_group_count_push(s.drop_first(), n);
    }
    assert(s.push(n)[0] == if s.len() == 0 { n } else { s[0] });
}

/// Putting a node in place of the last one exchanges their groups.
pub proof fn lemma_seq_group_count_replace_last(s: Seq<Node>, n: Node)
    requires
        s.len() > 0,
    ensures
        seq_group_count(s.drop_last().push(n)) + group_count(s.last()) == seq_group_count(s)
            + group_count(n),
{
    assert(s =~= s.drop_last().push(s.last()));
    lemma_seq_group_count_push(s.drop_last(), s.last());
    lemma_seq_group_count_push(s.drop_last(), n);
}

/// Adding a variant at the end of a list of alternatives adds its groups.
pub proof fn lemma_variants_group_count_push(v: Seq<Seq<Node>>, s: Seq<Node>)
    ensures
        variants_group_count(v.push(s)) == variants_group_count(v) + seq_group_count(s),
    decreases v.len(),
{
    if v.len() == 0 {
        assert(v.push(s).drop_first() =~= v);
    } else {
        assert(v.push(s).drop_first() =~= v.drop_first().push(s));
        lemma_variants_group_count_push(v.drop_first(), s);
    }
    assert(v.push(s)[0] == if v.len() == 0 { s } else { v[0] });
}

/// A node of a sequence, together with the one after it, is no larger than
/// the sequence.
pub proof fn lemma_seq_size_at(s: Seq<Node>, i: int)
    requires
        0 <= i < s.len(),
    ensures
        node_size(s[i]) + (if i + 1 < s.len() {
            node_size(s[i + 1])
        } else {
            0
        }) <= seq_size(s),
    decreases i,
{
    let rest = s.drop_first();
    if i == 0 {
        if rest.len() > 0 {
            assert(seq_size(rest) == node_size(rest[0]) + seq_size(rest.drop_first()));
        }
    } else {
        lemma_seq_size_at(rest, i - 1);
    }
}

/// A variant is smaller than the list of alternatives that holds it.
pub proof fn lemma_variants_size_at(v: Seq<Seq<Node>>, k: int)
    requires
        0 <= k < v.len(),
    ensures
        seq_size(v[k]) < variants_size(v),
    decreases k,
{
    if k > 0 {
        lemma_variants_size_at(v.drop_first(), k - 1);
    }
}

/// The groups of a sequence from place `i` on are those of the node at `i`
/// and those after it.
pub proof fn lemma_seq_group_count_skip(s: Seq<Node>, i: int)
    requires
        0 <= i < s.len(),
    ensures
        seq_group_count(s.skip(i)) == group_count(s[i]) + seq_group_count(s.skip(i + 1)),
{
    assert(s.skip(i).drop_first() =~= s.skip(i + 1));
}

/// The groups of a list of alternatives from place `k` on are those of the
/// variant at `k` and those after it.
pub proof fn lemma_variants_group_count_skip(v: Seq<Seq<Node>>, k: int)
    requires
        0 <= k < v.len(),
    ensures
        variants_group_count(v.skip(k)) == seq_group_count(v[k]) + variants_group_count(
            v.skip(k + 1),
        ),
{
    assert(v.skip(k).drop_first() =~= v.skip(k + 1));
}

/// Whether no reference to a group stands anywhere in a tree.
pub open spec fn reference_free(n: Node) -> bool
    decreases n,
{
    match n {
        Node::Backreference(_) => false,
        Node::StartOfString(inner) => reference_free(*inner),
        Node::EndOfString(inner) => reference_free(*inner),
        Node::OneOrMoreQuantifier(inner) => reference_free(*inner),
        Node::OptionalQuantifier(inner) => reference_free(*inner),
        Node::Group(items) => seq_reference_free(items),
        Node::Alternation(variants) => variants_reference_free(variants),
        _ => true,
    }
}

/// Whether no reference to a group stands anywhere in a sequence of trees.
pub open spec fn seq_reference_free(s: Seq<Node>) -> bool
    decreases s,
{
    s.len() == 0 || (reference_free(s[0]) && seq_reference_free(s.drop_first()))
}

/// Whether no reference to a group stands anywhere in a list of
/// alternatives.
pub open spec fn variants_reference_free(s: Seq<Seq<Node>>) -> bool
    decreases s,
{
    s.len() == 0 || (seq_reference_free(s[0]) && variants_reference_free(s.drop_first()))
}

/// Whether no reference to a group stands in the node that may follow.
pub open spec fn next_reference_free(next: Option<Node>) -> bool {
    match next {
        Some(n) => reference_free(n),
        None => true,
    }
}

/// Whether a reference to the group of number `k` stands anywhere in a tree.
pub open spec fn refers_to(n: Node, k: nat) -> bool
    decreases n,
{
    match n {
        Node::Backreference(j) => j == k,
        Node::StartOfString(inner) => refers_to(*inner, k),
        Node::EndOfString(inner) => refers_to(*inner, k),
        Node::OneOrMoreQuantifier(inner) => refers_to(*inner, k),
        Node::OptionalQuantifier(inner) => refers_to(*inner, k),
        Node::Group(items) => seq_refers_to(items, k),
        Node::Alternation(variants) => variants_refers_to(variants, k),
        _ => false,
    }
}

/// Whether a reference to the group of number `k` stands anywhere in a
/// sequence of trees.
pub open spec fn seq_refers_to(s: Seq<Node>, k: nat) -> bool
    decreases s,
{
    s.len() > 0 && (refers_to(s[0], k) || seq_refers_to(s.drop_first(), k))
}

/// Whether a reference to the group of number `k` stands anywhere in a list
/// of alternatives.
pub open spec fn variants_refers_to(s: Seq<Seq<Node>>, k: nat) -> bool
    decreases s,
{
    s.len() > 0 && (seq_refers_to(s[0], k) || variants_refers_to(s.drop_first(), k))
}

/// Whether a reference to the group of number `k` stands in the node that
/// may follow.
pub open spec fn next_refers_to(next: Option<Node>, k: nat) -> bool {
    match next {
        Some(n) => refers_to(n, k),
        None => false,
    }
}

} // verus!
