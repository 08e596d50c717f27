//! A reference matches a repetition of what its group captured.

use crate::regex::composition::{lemma_scan_shift, lemma_scan_whole_extend, level_is_whole};
use crate::regex::error::RegexParsingError;
use crate::regex::frame::{
    lemma_match_seq_concat, lemma_match_seq_frame, lemma_match_seq_single, slot,
};
use crate::regex::laws::{is_unit, lemma_read_after, lemma_read_unit_then, nodes_read, read};
use crate::regex::node::{group_count, seq_group_count, Node};
use crate::regex::semantics::{attempt, initial_state, match_node, match_seq, occurs_at};
use crate::regex::syntax::{compile, digit_value, scan, Level};
use crate::text::is_digit;
use vstd::prelude::*;

verus! {

/// An expression that holds the group `group` somewhere at its top level,
/// after `pre`, and ends, after `mid`, in a reference to that group.
pub open spec fn group_then_reference(pre: Seq<Node>, group: Seq<Node>, mid: Seq<Node>) -> Seq<
    Node,
> {
    pre + seq![Node::Group(group)] + mid + seq![
        Node::Backreference(seq_group_count(pre) + 1),
    ]
}

/// The node that follows the group in `group_then_reference`.
pub open spec fn after_group(pre: Seq<Node>, mid: Seq<Node>) -> Node {
    if mid.len() > 0 {
        mid[0]
    } else {
        Node::Backreference(seq_group_count(pre) + 1)
    }
}

/// A reference matches only a repetition of what its group captured: where
/// an expression of the form `pre (group) mid \k` matches, with `k` the
/// number of the group, the text between the positions where the group
/// opened and closed is in slot `k`, and the match ends with that very text.
pub proof fn law_backreference(
    pre: Seq<Node>,
    group: Seq<Node>,
    mid: Seq<Node>,
    input: Seq<char>,
    start: int,
)
    ensures
        attempt(group_then_reference(pre, group, mid), input, start) matches Some(end) ==> {
            let k = seq_group_count(pre) + 1;
            &&& match_seq(pre, Some(Node::Group(group)), input, initial_state(start), 0)
                matches Some(opened)
            &&& match_node(
                Node::Group(group),
                Some(after_group(pre, mid)),
                input,
                opened,
                seq_group_count(pre),
            ) matches Some(closed)
            &&& end.captures.contains_key(k)
            &&& end.captures[k] == input.subrange(opened.pos, closed.pos)
            &&& occurs_at(input, end.pos - end.captures[k].len(), end.captures[k])
        },
{
    let k = seq_group_count(pre) + 1;
    let g = Node::Group(group);
    let back = Node::Backreference(k);
    let tail = mid + seq![back];
    let from_group = seq![g] + tail;
    let nodes = group_then_reference(pre, group, mid);
    let st = initial_state(start);
    assert(nodes =~= pre + from_group);
    assert(from_group[0] == g);
    assert(tail[0] == after_group(pre, mid));
    lemma_match_seq_concat(pre, from_group, None, input, st, 0);
    if attempt(nodes, input, start) is Some {
        let opened = match_seq(pre, Some(g), input, st, 0)->Some_0;
        let b1 = seq_group_count(pre);
        lemma_match_seq_concat(seq![g], tail, None, input, opened, b1);
        lemma_match_seq_single(g, Some(tail[0]), input, opened, b1);
        let closed = match_node(g, Some(tail[0]), input, opened, b1)->Some_0;
        let b2 = b1 + group_count(g);
        assert(slot(closed.captures, k) == Some(input.subrange(opened.pos, closed.pos)));
        lemma_match_seq_concat(mid, seq![back], None, input, closed, b2);
        let reached = match_seq(mid, Some(back), input, closed, b2)->Some_0;
        lemma_match_seq_frame(mid, Some(back), input, closed, b2);
        assert(slot(reached.captures, k) == slot(closed.captures, k));
        lemma_match_seq_single(back, None, input, reached, b2 + seq_group_count(mid));
    }
}

/// Whether `body` can stand between parentheses as the body of a group: it
/// can be read, and every bracket, escape and group in it is complete.
pub open spec fn is_group_body(body: Seq<char>) -> bool {
    level_is_whole(body, 0) && read(body) is Ok
}

/// The pattern `pre(body)mid\d`.
pub open spec fn group_then_reference_pattern(
    pre: Seq<char>,
    body: Seq<char>,
    mid: Seq<char>,
    d: char,
) -> Seq<char> {
    pre + seq!['('] + body + seq![')'] + mid + seq!['\\', d]
}

/// What `pre(body)mid\d` compiles to, where `pre` and `mid` are units, `body`
/// can stand in a group, and `d` is the digit that numbers the group.
pub proof fn lemma_compile_group_then_reference(
    pre: Seq<char>,
    body: Seq<char>,
    mid: Seq<char>,
    d: char,
)
    requires
        is_unit(pre),
        pre.len() > 0 ==> pre[0] != '^',
        is_group_body(body),
        is_unit(mid),
        is_digit(d),
        digit_value(d) == seq_group_count(nodes_read(pre)) + 1,
    ensures
        compile(group_then_reference_pattern(pre, body, mid, d)) == Ok::<
            Seq<Node>,
            RegexParsingError,
        >(group_then_reference(nodes_read(pre), read(body)->Ok_0.nodes(), nodes_read(mid))),
{
    let none = Seq::<Seq<Node>>::empty();
    let whole = group_then_reference_pattern(pre, body, mid, d);
    let inside = read(body)->Ok_0;
    let group = Node::Group(inside.nodes());
    let back = Node::Backreference(digit_value(d));
    let front = nodes_read(pre);
    // The reference after `mid`.
    let tail = mid + seq!['\\', d];
    let m = mid.len() as int;
    lemma_read_unit_then(mid, seq!['\\', d]);
    assert(tail[m] == '\\' && tail[m + 1] == d);
    assert(scan(tail, m, none, nodes_read(mid)) == scan(
        tail,
        m + 2,
        none,
        nodes_read(mid).push(back),
    ));
    assert(read(tail) == Ok::<Level, RegexParsingError>(
        Level { branches: none, current: nodes_read(mid).push(back), end: m + 2, closed: false },
    ));
    // The group, which its parenthesis closes.
    let closing = seq![')'] + tail;
    let b = body.len() as int;
    lemma_scan_whole_extend(body, closing, 0, none, Seq::empty());
    assert((body + closing)[b] == ')');
    let opened = pre + seq!['('];
    let p = pre.len() as int;
    assert(whole =~= opened + (body + closing));
    lemma_scan_shift(opened, body + closing, 0, none, Seq::empty());
    let inner = scan(whole, p + 1, none, Seq::empty())->Ok_0;
    assert(inner.nodes() == inside.nodes());
    assert(inner.end == p + 1 + b + 1);
    // The whole pattern.
    assert(whole =~= pre + (seq!['('] + body + closing));
    lemma_read_unit_then(pre, seq!['('] + body + closing);
    assert(whole[p] == '(');
    assert(read(whole) == scan(whole, inner.end, none, front.push(group)));
    let upto = pre + seq!['('] + body + seq![')'];
    assert(whole =~= upto + tail);
    lemma_read_after(upto, tail, front.push(group));
    assert(whole[0] != '^') by {
        if pre.len() > 0 {
            assert(whole[0] == pre[0]);
        } else {
            assert(whole[0] == '(');
        }
    }
    assert(front.push(group) + nodes_read(mid).push(back) =~= group_then_reference(
        front,
        inside.nodes(),
        nodes_read(mid),
    ));
}

/// In a pattern `pre(body)mid\d` whose reference names its group, a match
/// ends with a repetition of what the group captured: the text in the slot of
/// the group stands in the input just before the end of the match.
pub proof fn law_backreference_pattern(
    pre: Seq<char>,
    body: Seq<char>,
    mid: Seq<char>,
    d: char,
    input: Seq<char>,
    start: int,
)
    requires
        is_unit(pre),
        pre.len() > 0 ==> pre[0] != '^',
        is_group_body(body),
        is_unit(mid),
        is_digit(d),
        digit_value(d) == seq_group_count(nodes_read(pre)) + 1,
    ensures
        compile(group_then_reference_pattern(pre, body, mid, d)) matches Ok(nodes) && (attempt(
            nodes,
            input,
            start,
        ) matches Some(end) ==> end.captures.contains_key(digit_value(d)) && occurs_at(
            input,
            end.pos - end.captures[digit_value(d)].len(),
            end.captures[digit_value(d)],
        )),
{
    lemma_compile_group_then_reference(pre, body, mid, d);
    law_backreference(nodes_read(pre), read(body)->Ok_0.nodes(), nodes_read(mid), input, start);
}

} // verus!
