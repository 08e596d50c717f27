//! An optional node is its node or nothing.

use crate::regex::composition::{lemma_scan_none_anchored, prefixed_branches};
use crate::regex::error::RegexParsingError;
use crate::regex::frame::{
    ignores_next, lemma_ignores_next, lemma_match_seq_concat, lemma_match_seq_single,
};
use crate::regex::laws::{
    after_prefix, is_unit, lemma_read_after, lemma_read_unit_then, nodes_read, pattern_matches,
    read,
};
use crate::regex::node::{
    free_of_start, group_count, seq_group_count, seq_reference_free, variants_reference_free, Node,
};
use crate::regex::position::{lemma_match_seq_position, lemma_match_variants_position, same_end};
use crate::regex::semantics::{
    attempt, initial_state, is_anchored, is_candidate, match_node, match_seq, match_variants,
    regex_matches, MatchState,
};
use crate::regex::syntax::{close_level, compile, replace_last, scan};
use vstd::prelude::*;

verus! {

/// The expression `x? rest`, where `rest` is the level of `branches` and
/// `current`.
pub open spec fn optional_then(x: Node, branches: Seq<Seq<Node>>, current: Seq<Node>) -> Seq<
    Node,
> {
    after_prefix(seq![Node::OptionalQuantifier(Box::new(x))], branches, current)
}

/// The expression `x rest`, where `rest` is the level of `branches` and
/// `current`.
pub open spec fn present_then(x: Node, branches: Seq<Seq<Node>>, current: Seq<Node>) -> Seq<
    Node,
> {
    after_prefix(seq![x], branches, current)
}

/// Whether `x` matches at `start` in `input`, by itself and with nothing
/// captured before.
pub open spec fn matches_at(x: Node, input: Seq<char>, start: int) -> bool {
    match_node(x, None, input, initial_state(start), 0) is Some
}

/// Whether the numbers of the groups do not matter to an optional `x` and
/// what follows it: `x` holds no group, so that it moves no number; or what
/// follows holds no reference, so that no number is ever looked up.
pub open spec fn numbers_do_not_matter(x: Node, branches: Seq<Seq<Node>>, current: Seq<Node>)
    -> bool {
    group_count(x) == 0 || (variants_reference_free(branches) && seq_reference_free(current))
}

/// The matches of `x? rest` and of `x rest` from one state, where `rest` is a
/// sequence: where `x` matches there, the first goes as the second; else the
/// first ends where `rest` ends, and the second fails.
pub proof fn lemma_optional_seq(
    x: Node,
    rest: Seq<Node>,
    input: Seq<char>,
    st: MatchState,
    base: nat,
)
    requires
        ignores_next(x),
        group_count(x) == 0 || seq_reference_free(rest),
    ensures
        match_node(x, None, input, st, base) is Some ==> match_seq(
            seq![Node::OptionalQuantifier(Box::new(x))] + rest,
            None,
            input,
            st,
            base,
        ) == match_seq(seq![x] + rest, None, input, st, base),
        match_node(x, None, input, st, base) is None ==> match_seq(
            seq![x] + rest,
            None,
            input,
            st,
            base,
        ) is None && same_end(
            match_seq(
                seq![Node::OptionalQuantifier(Box::new(x))] + rest,
                None,
                input,
                st,
                base,
            ),
            match_seq(rest, None, input, st, base),
        ),
        seq_group_count(seq![Node::OptionalQuantifier(Box::new(x))] + rest) == group_count(x)
            + seq_group_count(rest),
        seq_group_count(seq![x] + rest) == group_count(x) + seq_group_count(rest),
{
    let opt = Node::OptionalQuantifier(Box::new(x));
    let next = if rest.len() > 0 {
        Some(rest[0])
    } else {
        None
    };
    lemma_match_seq_concat(seq![opt], rest, None, input, st, base);
    lemma_match_seq_concat(seq![x], rest, None, input, st, base);
    lemma_match_seq_single(opt, next, input, st, base);
    lemma_match_seq_single(x, next, input, st, base);
    lemma_ignores_next(x, next, None, input, st, base);
    assert(group_count(opt) == group_count(x));
    assert((seq![opt] + rest).drop_first() =~= rest);
    assert((seq![x] + rest).drop_first() =~= rest);
    if group_count(x) > 0 {
        lemma_match_seq_position(rest, None, input, st, base + group_count(x), st, base);
    }
}

/// Adding a branch without references to branches without references
/// leaves them without references.
pub proof fn lemma_variants_reference_free_push(branches: Seq<Seq<Node>>, current: Seq<Node>)
    requires
        variants_reference_free(branches),
        seq_reference_free(current),
    ensures
        variants_reference_free(branches.push(current)),
    decreases branches.len(),
{
    let all = branches.push(current);
    if branches.len() == 0 {
        assert(all.drop_first() =~= branches);
        assert(all[0] == current);
    } else {
        assert(all.drop_first() =~= branches.drop_first().push(current));
        assert(all[0] == branches[0]);
        lemma_variants_reference_free_push(branches.drop_first(), current);
    }
}

/// The attempts on `x? rest`, on `x rest` and on `rest` from one position:
/// where `x` matches there, the first goes as the second; else the first
/// ends where the third ends, and the second succeeds only where the third
/// does.
pub proof fn lemma_optional_attempt(
    x: Node,
    branches: Seq<Seq<Node>>,
    current: Seq<Node>,
    input: Seq<char>,
    start: int,
)
    requires
        ignores_next(x),
        numbers_do_not_matter(x, branches, current),
    ensures
        matches_at(x, input, start) ==> attempt(optional_then(x, branches, current), input, start)
            == attempt(present_then(x, branches, current), input, start),
        !matches_at(x, input, start) ==> same_end(
            attempt(optional_then(x, branches, current), input, start),
            attempt(close_level(branches, current), input, start),
        ),
        !matches_at(x, input, start) && attempt(present_then(x, branches, current), input, start)
            is Some ==> attempt(close_level(branches, current), input, start) is Some,
{
    let st = initial_state(start);
    let opt = Node::OptionalQuantifier(Box::new(x));
    if branches.len() == 0 {
        lemma_optional_seq(x, current, input, st, 0);
        assert(optional_then(x, branches, current) == seq![opt] + current);
        assert(present_then(x, branches, current) == seq![x] + current);
    } else {
        let first = branches[0];
        let others = branches.push(current).drop_first();
        let alone = branches.push(current);
        let optional = prefixed_branches(seq![opt], branches, current).push(current);
        let present = prefixed_branches(seq![x], branches, current).push(current);
        assert(optional.drop_first() =~= others);
        assert(present.drop_first() =~= others);
        assert(optional[0] == seq![opt] + first);
        assert(present[0] == seq![x] + first);
        assert(alone[0] == first);
        if group_count(x) > 0 {
            lemma_variants_reference_free_push(branches, current);
            assert(seq_reference_free(first));
            assert(variants_reference_free(others));
        }
        lemma_optional_seq(x, first, input, st, 0);
        let b = seq_group_count(first);
        let later = match_variants(others, input, st, b);
        let shifted = match_variants(others, input, st, group_count(x) + b);
        if group_count(x) > 0 {
            lemma_match_variants_position(others, input, st, group_count(x) + b, st, b);
        }
        assert(match_variants(optional, input, st, 0) == match match_seq(
            optional[0],
            None,
            input,
            st,
            0,
        ) {
            Some(end) => Some(end),
            None => shifted,
        });
        assert(match_variants(present, input, st, 0) == match match_seq(
            present[0],
            None,
            input,
            st,
            0,
        ) {
            Some(end) => Some(end),
            None => shifted,
        });
        assert(match_variants(alone, input, st, 0) == match match_seq(first, None, input, st, 0) {
            Some(end) => Some(end),
            None => later,
        });
        assert(optional_then(x, branches, current) == seq![Node::Alternation(optional)]);
        assert(present_then(x, branches, current) == seq![Node::Alternation(present)]);
        lemma_match_seq_single(Node::Alternation(optional), None, input, st, 0);
        lemma_match_seq_single(Node::Alternation(present), None, input, st, 0);
        lemma_match_seq_single(Node::Alternation(alone), None, input, st, 0);
    }
}

/// Whether `x` and the level of `branches` and `current` can follow the start
/// of an expression as they stand: neither begins with an anchor to the
/// start.
pub open spec fn unanchored(x: Node, branches: Seq<Seq<Node>>, current: Seq<Node>) -> bool {
    !(x is StartOfString) && !is_anchored(close_level(branches, current))
}

/// The three expressions are tried at the same positions.
pub proof fn lemma_optional_candidates(
    x: Node,
    branches: Seq<Seq<Node>>,
    current: Seq<Node>,
    input: Seq<char>,
    start: int,
)
    requires
        unanchored(x, branches, current),
    ensures
        is_candidate(optional_then(x, branches, current), input, start) == (0 <= start
            < input.len()),
        is_candidate(present_then(x, branches, current), input, start) == (0 <= start
            < input.len()),
        is_candidate(close_level(branches, current), input, start) == (0 <= start < input.len()),
{
    let opt = Node::OptionalQuantifier(Box::new(x));
    if branches.len() == 0 {
        assert((seq![opt] + current)[0] == opt);
        assert((seq![x] + current)[0] == x);
    }
}

/// Where `x? rest` matches, `x rest` or `rest` matches.
pub proof fn law_optional_taken_or_skipped(
    x: Node,
    branches: Seq<Seq<Node>>,
    current: Seq<Node>,
    input: Seq<char>,
)
    requires
        ignores_next(x),
        numbers_do_not_matter(x, branches, current),
        unanchored(x, branches, current),
    ensures
        regex_matches(optional_then(x, branches, current), input) ==> regex_matches(
            present_then(x, branches, current),
            input,
        ) || regex_matches(close_level(branches, current), input),
{
    let optional = optional_then(x, branches, current);
    if regex_matches(optional, input) {
        let start = choose|start: int|
            is_candidate(optional, input, start) && attempt(optional, input, start) is Some;
        lemma_optional_attempt(x, branches, current, input, start);
        lemma_optional_candidates(x, branches, current, input, start);
    }
}

/// Where `x rest` matches, `x? rest` matches.
pub proof fn law_optional_present(
    x: Node,
    branches: Seq<Seq<Node>>,
    current: Seq<Node>,
    input: Seq<char>,
)
    requires
        ignores_next(x),
        numbers_do_not_matter(x, branches, current),
        unanchored(x, branches, current),
    ensures
        regex_matches(present_then(x, branches, current), input) ==> regex_matches(
            optional_then(x, branches, current),
            input,
        ),
{
    let present = present_then(x, branches, current);
    if regex_matches(present, input) {
        let start = choose|start: int|
            is_candidate(present, input, start) && attempt(present, input, start) is Some;
        lemma_optional_attempt(x, branches, current, input, start);
        lemma_optional_candidates(x, branches, current, input, start);
    }
}

/// Whether `x? rest` matches from `start`, told by the other two
/// expressions: `x rest` matches from there if `x` matches there, else `rest`
/// does.
pub open spec fn present_or_else_rest(
    x: Node,
    branches: Seq<Seq<Node>>,
    current: Seq<Node>,
    input: Seq<char>,
    start: int,
) -> bool {
    if matches_at(x, input, start) {
        attempt(present_then(x, branches, current), input, start) is Some
    } else {
        attempt(close_level(branches, current), input, start) is Some
    }
}

/// `x? rest` matches exactly where, from some position, `x rest` matches
/// with `x` matching there, or `rest` matches with `x` not matching there.
/// This holds of every input.
pub proof fn law_optional_by_position(
    x: Node,
    branches: Seq<Seq<Node>>,
    current: Seq<Node>,
    input: Seq<char>,
)
    requires
        ignores_next(x),
        numbers_do_not_matter(x, branches, current),
        unanchored(x, branches, current),
    ensures
        regex_matches(optional_then(x, branches, current), input) <==> exists|start: int|
            0 <= start < input.len() && #[trigger] present_or_else_rest(
                x,
                branches,
                current,
                input,
                start,
            ),
{
    let optional = optional_then(x, branches, current);
    if regex_matches(optional, input) {
        let start = choose|start: int|
            is_candidate(optional, input, start) && attempt(optional, input, start) is Some;
        lemma_optional_attempt(x, branches, current, input, start);
        lemma_optional_candidates(x, branches, current, input, start);
        assert(present_or_else_rest(x, branches, current, input, start));
    }
    if exists|start: int|
        0 <= start < input.len() && #[trigger] present_or_else_rest(
            x,
            branches,
            current,
            input,
            start,
        ) {
        let start = choose|start: int|
            0 <= start < input.len() && #[trigger] present_or_else_rest(
                x,
                branches,
                current,
                input,
                start,
            );
        lemma_optional_attempt(x, branches, current, input, start);
        lemma_optional_candidates(x, branches, current, input, start);
        assert(is_candidate(optional, input, start) && attempt(optional, input, start) is Some);
    }
}

/// Whether `x` matches nowhere in `input` where `rest` matches: an optional
/// `x` before `rest` then never takes a character that `rest` needed.
pub open spec fn never_shadows(x: Node, rest: Seq<Node>, input: Seq<char>) -> bool {
    forall|start: int|
        0 <= start < input.len() && (#[trigger] attempt(rest, input, start)) is Some
            ==> !matches_at(x, input, start)
}

/// `x? rest` matches exactly where `x rest` or `rest` matches, provided that
/// `x` matches nowhere where `rest` does. Without that proviso `rest` may
/// match where `x? rest` does not: the optional node takes what it can and
/// never gives it back.
pub proof fn law_optional(
    x: Node,
    branches: Seq<Seq<Node>>,
    current: Seq<Node>,
    input: Seq<char>,
)
    requires
        ignores_next(x),
        numbers_do_not_matter(x, branches, current),
        unanchored(x, branches, current),
        never_shadows(x, close_level(branches, current), input),
    ensures
        regex_matches(optional_then(x, branches, current), input) == (regex_matches(
            present_then(x, branches, current),
            input,
        ) || regex_matches(close_level(branches, current), input)),
{
    let rest = close_level(branches, current);
    law_optional_taken_or_skipped(x, branches, current, input);
    law_optional_present(x, branches, current, input);
    if regex_matches(rest, input) {
        let start = choose|start: int|
            is_candidate(rest, input, start) && attempt(rest, input, start) is Some;
        lemma_optional_attempt(x, branches, current, input, start);
        lemma_optional_candidates(x, branches, current, input, start);
    }
}

/// Whether `atom` is read as a single node: a unit of one node that does not
/// start with `^`.
pub open spec fn is_atom(atom: Seq<char>) -> bool {
    atom.len() > 0 && atom[0] != '^' && is_unit(atom) && nodes_read(atom).len() == 1
}

/// The node that an atom is read as.
pub open spec fn atom_node(atom: Seq<char>) -> Node {
    nodes_read(atom)[0]
}

/// Whether `rest` compiles by itself as it does after other nodes: it can be
/// read and does not start with `^`.
pub open spec fn is_rest(rest: Seq<char>) -> bool {
    rest.len() > 0 && rest[0] != '^' && read(rest) is Ok
}

/// What `atom?rest`, `atom rest` and `rest` compile to.
pub proof fn lemma_compile_optional(atom: Seq<char>, rest: Seq<char>)
    requires
        is_atom(atom),
        is_rest(rest),
    ensures
        compile(atom + seq!['?'] + rest) == Ok::<Seq<Node>, RegexParsingError>(
            optional_then(atom_node(atom), read(rest)->Ok_0.branches, read(rest)->Ok_0.current),
        ),
        compile(atom + rest) == Ok::<Seq<Node>, RegexParsingError>(
            present_then(atom_node(atom), read(rest)->Ok_0.branches, read(rest)->Ok_0.current),
        ),
        compile(rest) == Ok::<Seq<Node>, RegexParsingError>(read(rest)->Ok_0.nodes()),
        unanchored(atom_node(atom), read(rest)->Ok_0.branches, read(rest)->Ok_0.current),
{
    let x = atom_node(atom);
    let opt = Node::OptionalQuantifier(Box::new(x));
    let none = Seq::<Seq<Node>>::empty();
    let n = atom.len() as int;
    assert(nodes_read(atom) =~= seq![x]);
    // atom? rest
    let tail = seq!['?'] + rest;
    let whole = atom + seq!['?'] + rest;
    assert(whole =~= atom + tail);
    lemma_read_unit_then(atom, tail);
    assert(whole[n] == '?');
    assert(replace_last(seq![x], opt) =~= seq![opt]);
    assert(scan(whole, n, none, seq![x]) == scan(whole, n + 1, none, seq![opt]));
    assert(whole =~= (atom + seq!['?']) + rest);
    lemma_read_after(atom + seq!['?'], rest, seq![opt]);
    assert(whole[0] == atom[0]);
    // atom rest
    let joined = atom + rest;
    lemma_read_unit_then(atom, rest);
    lemma_read_after(atom, rest, seq![x]);
    assert(joined[0] == atom[0]);
    // rest
    lemma_scan_none_anchored(atom, 0, none, Seq::empty());
    lemma_scan_none_anchored(rest, 0, none, Seq::empty());
    assert(free_of_start(nodes_read(atom)[0]));
    let level = read(rest)->Ok_0;
    if level.nodes().len() > 0 {
        assert(free_of_start(level.nodes()[0]));
    }
}

/// Whether the law of the optional node covers the pattern `atom?rest`.
///
/// `atom` is read as one node, which takes no account of what follows it: it
/// has no `+` at its end. `rest` compiles by itself as it does after `atom`.
/// And the numbers of the groups do not matter: `atom` holds no group, or
/// `rest` no reference.
pub open spec fn optional_is_plain(atom: Seq<char>, rest: Seq<char>) -> bool {
    &&& is_atom(atom)
    &&& ignores_next(atom_node(atom))
    &&& is_rest(rest)
    &&& numbers_do_not_matter(
        atom_node(atom),
        read(rest)->Ok_0.branches,
        read(rest)->Ok_0.current,
    )
}

/// `atom?rest` matches exactly where `atom rest` or `rest` matches, provided
/// that `atom` matches nowhere in `input` where `rest` does.
///
/// Without that proviso the law does not hold: `a?ab` does not match `ab`,
/// which `ab` matches. Nor does it hold of every atom and rest: `b+?b` does
/// not match `bb`, which `b+b` matches, and `(a)?(b)\1` does not match `bb`,
/// which `(b)\1` matches.
pub proof fn law_optional_pattern(atom: Seq<char>, rest: Seq<char>, input: Seq<char>)
    requires
        optional_is_plain(atom, rest),
        never_shadows(atom_node(atom), read(rest)->Ok_0.nodes(), input),
    ensures
        pattern_matches(atom + seq!['?'] + rest, input) == (pattern_matches(atom + rest, input)
            || pattern_matches(rest, input)),
{
    let level = read(rest)->Ok_0;
    lemma_compile_optional(atom, rest);
    law_optional(atom_node(atom), level.branches, level.current, input);
}

/// Where `atom?rest` matches, `atom rest` or `rest` matches; and where
/// `atom rest` matches, `atom?rest` matches. This holds of every input.
pub proof fn law_optional_pattern_present_or_absent(
    atom: Seq<char>,
    rest: Seq<char>,
    input: Seq<char>,
)
    requires
        optional_is_plain(atom, rest),
    ensures
        pattern_matches(atom + seq!['?'] + rest, input) ==> pattern_matches(atom + rest, input)
            || pattern_matches(rest, input),
        pattern_matches(atom + rest, input) ==> pattern_matches(atom + seq!['?'] + rest, input),
{
    let level = read(rest)->Ok_0;
    lemma_compile_optional(atom, rest);
    law_optional_taken_or_skipped(atom_node(atom), level.branches, level.current, input);
    law_optional_present(atom_node(atom), level.branches, level.current, input);
}

/// `atom?rest` matches exactly where, from some position, `atom rest` matches
/// with `atom` matching there, or `rest` matches with `atom` not matching
/// there. This holds of every input.
pub proof fn law_optional_pattern_by_position(
    atom: Seq<char>,
    rest: Seq<char>,
    input: Seq<char>,
)
    requires
        optional_is_plain(atom, rest),
    ensures
        pattern_matches(atom + seq!['?'] + rest, input) <==> exists|start: int|
            0 <= start < input.len() && #[trigger] present_or_else_rest(
                atom_node(atom),
                read(rest)->Ok_0.branches,
                read(rest)->Ok_0.current,
                input,
                start,
            ),
        compile(atom + rest) == Ok::<Seq<Node>, RegexParsingError>(
            present_then(atom_node(atom), read(rest)->Ok_0.branches, read(rest)->Ok_0.current),
        ),
        compile(rest) == Ok::<Seq<Node>, RegexParsingError>(read(rest)->Ok_0.nodes()),
{
    let level = read(rest)->Ok_0;
    lemma_compile_optional(atom, rest);
    law_optional_by_position(atom_node(atom), level.branches, level.current, input);
}

} // verus!
