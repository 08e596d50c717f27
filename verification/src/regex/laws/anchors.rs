//! What the anchors `^` and `$` do to the inputs that a pattern matches.

use crate::regex::composition::{
    lemma_scan_closed_extend, lemma_scan_none_anchored, lemma_scan_whole_extend,
};
use crate::regex::error::RegexParsingError;
use crate::regex::frame::{lemma_match_seq_concat, lemma_match_seq_single};
use crate::regex::handover::{hands_over, lemma_hands_over};
use crate::regex::laws::{is_whole, pattern_body, pattern_matches, read};
use crate::regex::node::{free_of_start, group_count, seq_group_count, variants_group_count, Node};
use crate::regex::semantics::{
    attempt, initial_state, is_anchored, is_candidate, match_node, match_seq, match_variants,
    regex_matches, MatchState,
};
use crate::regex::syntax::{anchor_first, close_level, compile, replace_last, scan, Level};
use vstd::prelude::*;

verus! {

/// An attempt on an expression whose first node is anchored goes as the
/// attempt on the expression itself.
pub proof fn lemma_anchor_first_attempt(nodes: Seq<Node>, input: Seq<char>, start: int)
    requires
        nodes.len() > 0,
    ensures
        attempt(anchor_first(nodes), input, start) == attempt(nodes, input, start),
{
    let anchored = anchor_first(nodes);
    let st = initial_state(start);
    assert(anchored.len() == nodes.len());
    assert(anchored.drop_first() =~= nodes.drop_first());
    assert(anchored[0] == Node::StartOfString(Box::new(nodes[0])));
    assert(group_count(anchored[0]) == group_count(nodes[0]));
    let next = if nodes.len() > 1 {
        Some(nodes[1])
    } else {
        None
    };
    assert(match_node(anchored[0], next, input, st, 0) == match_node(nodes[0], next, input, st, 0));
}

/// `^pattern` matches exactly the inputs that `pattern` matches from their
/// start, where `pattern` does not itself start with `^`: those on which the
/// attempt of what `pattern` compiles to succeeds from position 0. This holds
/// of the empty input too, on which `pattern` is never tried by itself.
pub proof fn law_anchor_start_by_position(pattern: Seq<char>, input: Seq<char>)
    requires
        pattern.len() > 0 ==> pattern[0] != '^',
    ensures
        pattern_matches(seq!['^'] + pattern, input) <==> (compile(pattern) matches Ok(nodes)
            && nodes.len() > 0 && attempt(nodes, input, 0) is Some),
{
    let anchored = seq!['^'] + pattern;
    assert(anchored.drop_first() =~= pattern);
    assert(anchored[0] == '^');
    if pattern.len() > 0 {
        match read(pattern) {
            Ok(level) => {
                let nodes = level.nodes();
                if nodes.len() > 0 {
                    assert(compile(anchored) == Ok::<Seq<Node>, RegexParsingError>(
                        anchor_first(nodes),
                    ));
                    lemma_anchor_first_attempt(nodes, input, 0);
                    assert(is_anchored(anchor_first(nodes)));
                    if attempt(nodes, input, 0) is Some {
                        assert(is_candidate(anchor_first(nodes), input, 0));
                    }
                }
            },
            Err(_) => {},
        }
    }
}

/// Anchoring a pattern keeps only matches that it had already: an input
/// that `^pattern` matches is matched by `pattern` too.
///
/// This holds where the input is not empty and `pattern` does not itself
/// start with `^`. It does not hold of the empty input, which `^a?` matches
/// and `a?` does not, nor of the pattern `^x`: a second `^` is a literal, so
/// that `^^x` matches the input `^x`, which `^x` does not.
pub proof fn law_anchor_start(pattern: Seq<char>, input: Seq<char>)
    requires
        input.len() > 0,
        pattern.len() > 0 ==> pattern[0] != '^',
    ensures
        pattern_matches(seq!['^'] + pattern, input) ==> pattern_matches(pattern, input),
{
    let anchored = seq!['^'] + pattern;
    assert(anchored.drop_first() =~= pattern);
    if pattern.len() > 0 && pattern_matches(anchored, input) {
        let level = scan(pattern, 0, Seq::empty(), Seq::empty())->Ok_0;
        let nodes = level.nodes();
        assert(compile(anchored) == Ok::<Seq<Node>, RegexParsingError>(
            anchor_first(nodes),
        ));
        assert(compile(pattern) == Ok::<Seq<Node>, RegexParsingError>(nodes));
        lemma_anchor_first_attempt(nodes, input, 0);
        assert(is_anchored(anchor_first(nodes)));
        assert(attempt(anchor_first(nodes), input, 0) is Some);
        assert(is_candidate(nodes, input, 0));
    }
}

/// A sequence of two nodes matches as the first and then the second.
pub proof fn lemma_match_seq_pair(
    first: Node,
    second: Node,
    input: Seq<char>,
    st: MatchState,
    base: nat,
)
    ensures
        match_seq(seq![first, second], None, input, st, base) == match match_node(
            first,
            Some(second),
            input,
            st,
            base,
        ) {
            Some(mid) => match_node(second, None, input, mid, base + group_count(first)),
            None => None,
        },
{
    let pair = seq![first, second];
    assert(pair.drop_first() =~= seq![second]);
    assert(pair[0] == first && pair.drop_first()[0] == second);
    match match_node(first, Some(second), input, st, base) {
        Some(mid) => {
            lemma_match_seq_single(second, None, input, mid, base + group_count(first));
        },
        None => {},
    }
}

/// `nodes` with its last node anchored to the end of the input.
pub open spec fn wrap_last(nodes: Seq<Node>) -> Seq<Node>
    recommends
        nodes.len() > 0,
{
    replace_last(nodes, Node::EndOfString(Box::new(nodes.last())))
}

/// Whether the node before the last of `nodes`, if there is one, hands over
/// to the last, where `base` groups open before `nodes`.
pub open spec fn hands_over_to_last(nodes: Seq<Node>, base: nat) -> bool {
    nodes.len() >= 2 ==> hands_over(
        nodes[nodes.len() - 2],
        nodes.last(),
        base + seq_group_count(nodes.subrange(0, nodes.len() - 2)),
    )
}

/// A sequence whose last node is anchored to the end matches only where the
/// sequence itself does.
pub proof fn lemma_wrap_last_seq(nodes: Seq<Node>, input: Seq<char>, st: MatchState, base: nat)
    requires
        nodes.len() > 0,
        hands_over_to_last(nodes, base),
    ensures
        match_seq(wrap_last(nodes), None, input, st, base) is Some ==> match_seq(
            nodes,
            None,
            input,
            st,
            base,
        ) is Some,
{
    let last = nodes.last();
    let wrapped = Node::EndOfString(Box::new(last));
    if nodes.len() == 1 {
        assert(nodes =~= seq![last]);
        assert(wrap_last(nodes) =~= seq![wrapped]);
        lemma_match_seq_single(last, None, input, st, base);
        lemma_match_seq_single(wrapped, None, input, st, base);
    } else {
        let front = nodes.subrange(0, nodes.len() - 2);
        let before = nodes[nodes.len() - 2];
        assert(nodes =~= front + seq![before, last]);
        assert(wrap_last(nodes) =~= front + seq![before, wrapped]);
        lemma_match_seq_concat(front, seq![before, last], None, input, st, base);
        lemma_match_seq_concat(front, seq![before, wrapped], None, input, st, base);
        match match_seq(front, Some(before), input, st, base) {
            Some(mid) => {
                let b = base + seq_group_count(front);
                lemma_match_seq_pair(before, last, input, mid, b);
                lemma_match_seq_pair(before, wrapped, input, mid, b);
                if match_seq(wrap_last(nodes), None, input, st, base) is Some {
                    lemma_hands_over(before, last, input, mid, b);
                    let other = match_node(before, Some(wrapped), input, mid, b)->Some_0;
                    assert(match_node(last, None, input, other, b + group_count(before))
                        is Some);
                }
            },
            None => {},
        }
    }
}

/// An alternation in whose last variant the last node is anchored to the end
/// matches only where the alternation itself does.
pub proof fn lemma_wrap_last_variants(
    branches: Seq<Seq<Node>>,
    current: Seq<Node>,
    input: Seq<char>,
    st: MatchState,
    base: nat,
)
    requires
        current.len() > 0,
        hands_over_to_last(current, base + variants_group_count(branches)),
    ensures
        match_variants(branches.push(wrap_last(current)), input, st, base) is Some
            ==> match_variants(branches.push(current), input, st, base) is Some,
    decreases branches.len(),
{
    let with = branches.push(current);
    let wrapped = branches.push(wrap_last(current));
    if branches.len() == 0 {
        assert(with.drop_first() =~= Seq::<Seq<Node>>::empty());
        assert(wrapped.drop_first() =~= Seq::<Seq<Node>>::empty());
        assert(with[0] == current && wrapped[0] == wrap_last(current));
        lemma_wrap_last_seq(current, input, st, base);
        assert(match_variants(wrapped.drop_first(), input, st, base + seq_group_count(wrapped[0]))
            is None);
    } else {
        assert(with.drop_first() =~= branches.drop_first().push(current));
        assert(wrapped.drop_first() =~= branches.drop_first().push(wrap_last(current)));
        assert(with[0] == branches[0] && wrapped[0] == branches[0]);
        lemma_wrap_last_variants(
            branches.drop_first(),
            current,
            input,
            st,
            base + seq_group_count(branches[0]),
        );
    }
}

/// The expression that a pattern compiles to whose body is read as the
/// `branches` and, last, `current`: the level that these make, with its first
/// node anchored where the pattern starts with `^`.
pub open spec fn expression(anchored: bool, branches: Seq<Seq<Node>>, current: Seq<Node>) -> Seq<
    Node,
> {
    if anchored {
        anchor_first(close_level(branches, current))
    } else {
        close_level(branches, current)
    }
}

/// An attempt on an expression in whose last branch the last node is
/// anchored to the end succeeds only where the attempt on the expression
/// itself does; and the two are tried at the same positions.
pub proof fn lemma_wrap_last_attempt(
    anchored: bool,
    branches: Seq<Seq<Node>>,
    current: Seq<Node>,
    input: Seq<char>,
    start: int,
)
    requires
        current.len() > 0,
        hands_over_to_last(current, variants_group_count(branches)),
        !anchored ==> !(current[0] is StartOfString),
    ensures
        attempt(expression(anchored, branches, wrap_last(current)), input, start) is Some
            ==> attempt(expression(anchored, branches, current), input, start) is Some,
        is_anchored(expression(anchored, branches, wrap_last(current))) == is_anchored(
            expression(anchored, branches, current),
        ),
{
    let st = initial_state(start);
    let plain = close_level(branches, current);
    let wrapped = close_level(branches, wrap_last(current));
    assert(plain.len() > 0 && wrapped.len() > 0);
    if branches.len() == 0 {
        lemma_wrap_last_seq(current, input, st, 0);
        if current.len() > 1 {
            assert(wrapped[0] == plain[0]);
        } else {
            assert(wrapped[0] == Node::EndOfString(Box::new(current[0])));
        }
    } else {
        let with = Node::Alternation(branches.push(current));
        let ended = Node::Alternation(branches.push(wrap_last(current)));
        lemma_match_seq_single(with, None, input, st, 0);
        lemma_match_seq_single(ended, None, input, st, 0);
        lemma_wrap_last_variants(branches, current, input, st, 0);
        assert(plain[0] == with && wrapped[0] == ended);
    }
    if anchored {
        lemma_anchor_first_attempt(plain, input, start);
        lemma_anchor_first_attempt(wrapped, input, start);
        assert(anchor_first(plain)[0] is StartOfString);
        assert(anchor_first(wrapped)[0] is StartOfString);
    }
}

/// Anchoring the end of an expression keeps only matches that it had
/// already: where the last node of the last branch is anchored to the end,
/// the expression matches no input that it did not match before, provided
/// that the node before that one hands over to it. `hands_over` names the
/// nodes that do not, each with an input on which the law fails.
pub proof fn law_anchor_end(
    anchored: bool,
    branches: Seq<Seq<Node>>,
    current: Seq<Node>,
    input: Seq<char>,
)
    requires
        current.len() > 0,
        hands_over_to_last(current, variants_group_count(branches)),
        !anchored ==> !(current[0] is StartOfString),
    ensures
        regex_matches(expression(anchored, branches, wrap_last(current)), input)
            ==> regex_matches(expression(anchored, branches, current), input),
{
    let ended = expression(anchored, branches, wrap_last(current));
    if regex_matches(ended, input) {
        let start = choose|start: int|
            is_candidate(ended, input, start) && attempt(ended, input, start) is Some;
        lemma_wrap_last_attempt(anchored, branches, current, input, start);
        assert(is_candidate(expression(anchored, branches, current), input, start));
    }
}

/// Whether the law of the end anchor holds of `body`: a `)` has ended the
/// reading before the `$` is reached; or `body` is whole, and in its last
/// branch the node before the last hands over to the last.
pub open spec fn end_can_be_anchored(body: Seq<char>) -> bool {
    match read(body) {
        Ok(level) => level.closed || (is_whole(body) && hands_over_to_last(
            level.current,
            variants_group_count(level.branches),
        )),
        Err(_) => is_whole(body),
    }
}

/// Anchoring the end of a pattern keeps only matches that it had already:
/// an input that `pattern$` matches is matched by `pattern`.
///
/// This holds of the patterns that `end_can_be_anchored` admits. It does not
/// hold of every pattern:
/// - where the pattern ends inside a bracket, the `$` is one more character
///   of the list: `[a$` matches `$`, and `[a` does not;
/// - where the pattern ends inside a group that is not closed, the `$`
///   anchors a node inside the group, and what stands before the group looks
///   ahead for another group: `^(.+)(\1?a$` matches `aaba`, and `^(.+)(\1?a`
///   does not;
/// - where the node before the last does not hand over to the last, it may
///   stop at another place: `^a+$b?$` matches `aa`, and `^a+$b?` does not;
///   `^((.)\2)+((.)\2)$` matches `aabbab`, and `^((.)\2)+((.)\2)` does not;
///   `^(.+)(\1?a)$` matches `aaba`, and `^(.+)(\1?a)` does not.
pub proof fn law_anchor_end_pattern(pattern: Seq<char>, input: Seq<char>)
    requires
        end_can_be_anchored(pattern_body(pattern)),
    ensures
        pattern_matches(pattern + seq!['$'], input) ==> pattern_matches(pattern, input),
{
    let body = pattern_body(pattern);
    let ended = pattern + seq!['$'];
    let none = Seq::<Seq<Node>>::empty();
    let n = body.len() as int;
    let long = body + seq!['$'];
    let anchored = pattern.len() > 0 && pattern[0] == '^';
    if anchored {
        assert(ended.drop_first() =~= long);
        assert(ended[0] == '^');
    } else {
        assert(ended =~= long);
    }
    if read(body) matches Ok(level) && level.closed {
        lemma_scan_closed_extend(body, seq!['$'], 0, none, Seq::empty());
        if !anchored {
            assert(ended[0] == pattern[0]);
        }
    } else {
        lemma_end_anchor_of_whole(pattern, input);
    }
}

/// The law of the end anchor for a pattern that is whole.
proof fn lemma_end_anchor_of_whole(pattern: Seq<char>, input: Seq<char>)
    requires
        is_whole(pattern_body(pattern)),
        read(pattern_body(pattern)) matches Ok(level) ==> hands_over_to_last(
            level.current,
            variants_group_count(level.branches),
        ),
    ensures
        pattern_matches(pattern + seq!['$'], input) ==> pattern_matches(pattern, input),
{
    let body = pattern_body(pattern);
    let ended = pattern + seq!['$'];
    let none = Seq::<Seq<Node>>::empty();
    let n = body.len() as int;
    let long = body + seq!['$'];
    let anchored = pattern.len() > 0 && pattern[0] == '^';
    if anchored {
        assert(ended.drop_first() =~= long);
        assert(ended[0] == '^');
    } else {
        assert(ended =~= long);
    }
    lemma_scan_whole_extend(body, seq!['$'], 0, none, Seq::empty());
    assert(long[n] == '$');
    match read(body) {
        Ok(level) => {
            let nodes = level.current;
            if nodes.len() > 0 {
                assert(scan(long, n, level.branches, nodes) == scan(
                    long,
                    n + 1,
                    level.branches,
                    wrap_last(nodes),
                ));
                assert(read(long) == Ok::<Level, RegexParsingError>(
                    Level {
                        branches: level.branches,
                        current: wrap_last(nodes),
                        end: n + 1,
                        closed: false,
                    },
                ));
                lemma_scan_none_anchored(body, 0, none, Seq::empty());
                assert(!(nodes[0] is StartOfString)) by {
                    assert(free_of_start(nodes[0]));
                }
                assert(close_level(level.branches, nodes).len() > 0);
                assert(close_level(level.branches, wrap_last(nodes)).len() > 0);
                if !anchored {
                    assert(ended[0] == if pattern.len() > 0 { pattern[0] } else { '$' });
                }
                assert(compile(pattern) == Ok::<Seq<Node>, RegexParsingError>(
                    expression(anchored, level.branches, nodes),
                ));
                assert(compile(ended) == Ok::<Seq<Node>, RegexParsingError>(
                    expression(anchored, level.branches, wrap_last(nodes)),
                ));
                law_anchor_end(anchored, level.branches, nodes, input);
            } else {
                assert(scan(long, n, level.branches, nodes) == Err::<Level, RegexParsingError>(
                    RegexParsingError::InvalidEnd,
                ));
            }
        },
        Err(_) => {},
    }
}

/// An anchor to the start stands nowhere in a compiled expression but around
/// its first node, and there exactly where the pattern starts with `^`.
pub proof fn law_start_anchor_in_front(pattern: Seq<char>)
    ensures
        compile(pattern) matches Ok(nodes) ==> {
            &&& nodes.len() > 0 ==> match nodes[0] {
                Node::StartOfString(inner) => pattern[0] == '^' && free_of_start(*inner),
                _ => pattern[0] != '^' && free_of_start(nodes[0]),
            }
            &&& forall|i: int| 1 <= i < nodes.len() ==> free_of_start(#[trigger] nodes[i])
        },
{
    let body = pattern_body(pattern);
    lemma_scan_none_anchored(body, 0, Seq::empty(), Seq::empty());
    if compile(pattern) is Ok {
        let read = read(body)->Ok_0.nodes();
        if pattern[0] == '^' {
            let nodes = anchor_first(read);
            assert(nodes[0] == Node::StartOfString(Box::new(read[0])));
            assert forall|i: int| 1 <= i < nodes.len() implies free_of_start(
                #[trigger] nodes[i],
            ) by {
                assert(nodes[i] == read[i]);
            }
        }
    }
}

} // verus!
