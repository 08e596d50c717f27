//! A pattern of one literal character.

use crate::regex::error::RegexParsingError;
use crate::regex::laws::pattern_matches;
use crate::regex::node::Node;
use crate::regex::semantics::{
    attempt, initial_state, is_anchored, is_candidate, match_node, match_seq, regex_matches,
    MatchState,
};
use crate::regex::syntax::{compile, scan, Level};
use crate::text::lemma_char_is_scalar;
use vstd::prelude::*;

verus! {

/// Whether `c` stands for itself wherever it occurs in a pattern.
pub open spec fn is_literal_char(c: char) -> bool {
    c != '^' && c != '$' && c != '.' && c != '\\' && c != '?' && c != '+' && c != '[' && c != '('
        && c != ')' && c != '|'
}

/// A pattern of one literal character compiles to that literal alone.
pub proof fn lemma_compile_single_literal(c: char)
    requires
        is_literal_char(c),
    ensures
        compile(seq![c]) == Ok::<Seq<Node>, RegexParsingError>(
            seq![Node::CharLiteral(c)],
        ),
{
    let s = seq![c];
    let none = Seq::<Seq<Node>>::empty();
    let one = Seq::<Node>::empty().push(Node::CharLiteral(c));
    assert(scan(s, 1, none, one) == Ok::<Level, RegexParsingError>(
        Level { branches: none, current: one, end: 1, closed: false },
    ));
    assert(scan(s, 0, none, Seq::empty()) == scan(s, 1, none, one));
    assert(one =~= seq![Node::CharLiteral(c)]);
}

/// A pattern that is one literal character matches exactly the inputs in
/// which that character occurs.
pub proof fn law_single_literal(c: char, input: Seq<char>)
    requires
        is_literal_char(c),
    ensures
        pattern_matches(seq![c], input) <==> input.contains(c),
{
    lemma_compile_single_literal(c);
    lemma_char_is_scalar(c);
    let nodes = seq![Node::CharLiteral(c)];
    assert(!is_anchored(nodes));
    assert forall|start: int| 0 <= start < input.len() implies (attempt(nodes, input, start)
        is Some <==> input[start] == c) by {
        let st = initial_state(start);
        let after = MatchState { pos: start + 1, captures: st.captures };
        assert(nodes.len() == 1);
        assert(nodes.drop_first() =~= Seq::<Node>::empty());
        assert(match_seq(nodes.drop_first(), None, input, after, 0) == Some(after));
        assert(match_node(nodes[0], None, input, st, 0) == if input[start] == c {
            Some(after)
        } else {
            None
        });
    }
    if input.contains(c) {
        let i = choose|i: int| 0 <= i < input.len() && input[i] == c;
        assert(is_candidate(nodes, input, i) && attempt(nodes, input, i) is Some);
    }
    if regex_matches(nodes, input) {
        let start = choose|start: int|
            is_candidate(nodes, input, start) && attempt(nodes, input, start) is Some;
        assert(input[start] == c);
    }
}

} // verus!
