//! How the reading of a pattern depends on its parts: what lies before the
//! place where reading starts does not matter, and neither does what lies
//! after a part in which every bracket and group is closed.

use crate::regex::error::RegexParsingError;
use crate::regex::node::{free_of_start, Node};
use crate::regex::syntax::{
    bracket_close, bracket_end, bracket_negated, bracket_node, bracket_start, close_level,
    escape_node, lemma_bracket_bounds, lemma_scan_bounds, replace_last, scan, Level,
};
use crate::text::lemma_seq_char_is_scalar;
use vstd::prelude::*;

verus! {

broadcast use lemma_seq_char_is_scalar;

/// The outcome `r` with its end moved on by `by`.
pub open spec fn shifted(r: Result<Level, RegexParsingError>, by: int) -> Result<
    Level,
    RegexParsingError,
> {
    match r {
        Ok(level) => Ok(
            Level {
                branches: level.branches,
                current: level.current,
                end: level.end + by,
                closed: level.closed,
            },
        ),
        Err(e) => Err(e),
    }
}

/// A bracket closes at the same character whatever stands before the
/// pattern.
pub proof fn lemma_bracket_close_shift(u: Seq<char>, v: Seq<char>, from: int)
    requires
        0 <= from <= v.len(),
    ensures
        bracket_close(u + v, u.len() + from) == u.len() + bracket_close(v, from),
    decreases v.len() - from,
{
    if from < v.len() {
        assert((u + v)[u.len() + from] == v[from]);
        if v[from] != ']' {
            lemma_bracket_close_shift(u, v, from + 1);
        }
    }
}

/// A bracket reads the same whatever stands before the pattern.
pub proof fn lemma_bracket_shift(u: Seq<char>, v: Seq<char>, from: int)
    requires
        0 <= from <= v.len(),
    ensures
        bracket_node(u + v, u.len() + from) == bracket_node(v, from),
        bracket_end(u + v, u.len() + from) == u.len() + bracket_end(v, from),
{
    let w = u + v;
    if from < v.len() {
        assert(w[u.len() + from] == v[from]);
    }
    assert(bracket_negated(w, u.len() + from) == bracket_negated(v, from));
    let start = bracket_start(v, from);
    lemma_bracket_bounds(v, from);
    lemma_bracket_close_shift(u, v, start);
    let close = bracket_close(v, start);
    assert(w.subrange(u.len() + start, u.len() + close) =~= v.subrange(start, close));
}

/// Reading depends on nothing before the place where it starts: a level of
/// `u + v` read from a position in `v` is the level of `v` read from there,
/// moved on by the length of `u`.
pub proof fn lemma_scan_shift(
    u: Seq<char>,
    v: Seq<char>,
    pos: int,
    branches: Seq<Seq<Node>>,
    current: Seq<Node>,
)
    requires
        0 <= pos <= v.len(),
    ensures
        scan(u + v, u.len() + pos, branches, current) == shifted(
            scan(v, pos, branches, current),
            u.len() as int,
        ),
    decreases v.len() - pos,
{
    let w = u + v;
    let n = u.len() as int;
    if pos < v.len() {
        let c = v[pos];
        assert(w[n + pos] == c);
        if c == ')' {
        } else if c == '|' {
            lemma_scan_shift(u, v, pos + 1, branches.push(current), Seq::empty());
        } else if c == '$' {
            if current.len() > 0 {
                lemma_scan_shift(
                    u,
                    v,
                    pos + 1,
                    branches,
                    replace_last(current, Node::EndOfString(Box::new(current.last()))),
                );
            }
        } else if c == '?' {
            if current.len() > 0 {
                lemma_scan_shift(
                    u,
                    v,
                    pos + 1,
                    branches,
                    replace_last(current, Node::OptionalQuantifier(Box::new(current.last()))),
                );
            }
        } else if c == '+' {
            if current.len() > 0 {
                lemma_scan_shift(
                    u,
                    v,
                    pos + 1,
                    branches,
                    replace_last(current, Node::OneOrMoreQuantifier(Box::new(current.last()))),
                );
            }
        } else if c == '.' {
            lemma_scan_shift(u, v, pos + 1, branches, current.push(Node::Wildcard));
        } else if c == '\\' {
            if pos + 1 < v.len() {
                assert(w[n + pos + 1] == v[pos + 1]);
                match escape_node(v[pos + 1]) {
                    Some(node) => {
                        lemma_scan_shift(u, v, pos + 2, branches, current.push(node));
                    },
                    None => {},
                }
            }
        } else if c == '[' {
            lemma_bracket_shift(u, v, pos + 1);
            lemma_bracket_bounds(v, pos + 1);
            lemma_scan_shift(
                u,
                v,
                bracket_end(v, pos + 1),
                branches,
                current.push(bracket_node(v, pos + 1)),
            );
        } else if c == '(' {
            lemma_scan_shift(u, v, pos + 1, Seq::empty(), Seq::empty());
            match scan(v, pos + 1, Seq::empty(), Seq::empty()) {
                Ok(inner) => {
                    if pos < inner.end <= v.len() {
                        lemma_scan_shift(
                            u,
                            v,
                            inner.end,
                            branches,
                            current.push(Node::Group(inner.nodes())),
                        );
                    }
                },
                Err(_) => {},
            }
        } else {
            lemma_scan_shift(u, v, pos + 1, branches, current.push(Node::CharLiteral(c)));
        }
    }
}

/// A bracket that is closed closes at the same character whatever is added
/// after the pattern.
pub proof fn lemma_bracket_close_extend(s: Seq<char>, t: Seq<char>, from: int)
    requires
        0 <= from <= s.len(),
        bracket_close(s, from) < s.len(),
    ensures
        bracket_close(s + t, from) == bracket_close(s, from),
    decreases s.len() - from,
{
    if from < s.len() {
        assert((s + t)[from] == s[from]);
        if s[from] != ']' {
            lemma_bracket_close_extend(s, t, from + 1);
        }
    }
}

/// A bracket that is closed reads the same whatever is added after the
/// pattern.
pub proof fn lemma_bracket_extend(s: Seq<char>, t: Seq<char>, from: int)
    requires
        0 <= from <= s.len(),
        bracket_close(s, bracket_start(s, from)) < s.len(),
    ensures
        bracket_node(s + t, from) == bracket_node(s, from),
        bracket_end(s + t, from) == bracket_end(s, from),
{
    let w = s + t;
    lemma_bracket_bounds(s, from);
    assert(from < s.len());
    assert(w[from] == s[from]);
    let start = bracket_start(s, from);
    lemma_bracket_close_extend(s, t, start);
    let close = bracket_close(s, start);
    assert(w.subrange(start, close) =~= s.subrange(start, close));
}

/// A level that a `)` ends reads the same whatever is added after the
/// pattern.
pub proof fn lemma_scan_closed_extend(
    s: Seq<char>,
    t: Seq<char>,
    pos: int,
    branches: Seq<Seq<Node>>,
    current: Seq<Node>,
)
    requires
        0 <= pos <= s.len(),
        scan(s, pos, branches, current) matches Ok(level) && level.closed,
    ensures
        scan(s + t, pos, branches, current) == scan(s, pos, branches, current),
    decreases s.len() - pos,
{
    let w = s + t;
    let c = s[pos];
    assert(w[pos] == c);
    if c == ')' {
    } else if c == '|' {
        lemma_scan_closed_extend(s, t, pos + 1, branches.push(current), Seq::empty());
    } else if c == '$' {
        lemma_scan_closed_extend(
            s,
            t,
            pos + 1,
            branches,
            replace_last(current, Node::EndOfString(Box::new(current.last()))),
        );
    } else if c == '?' {
        lemma_scan_closed_extend(
            s,
            t,
            pos + 1,
            branches,
            replace_last(current, Node::OptionalQuantifier(Box::new(current.last()))),
        );
    } else if c == '+' {
        lemma_scan_closed_extend(
            s,
            t,
            pos + 1,
            branches,
            replace_last(current, Node::OneOrMoreQuantifier(Box::new(current.last()))),
        );
    } else if c == '.' {
        lemma_scan_closed_extend(s, t, pos + 1, branches, current.push(Node::Wildcard));
    } else if c == '\\' {
        assert(w[pos + 1] == s[pos + 1]);
        lemma_scan_closed_extend(
            s,
            t,
            pos + 2,
            branches,
            current.push(escape_node(s[pos + 1])->Some_0),
        );
    } else if c == '[' {
        lemma_bracket_bounds(s, pos + 1);
        let end = bracket_end(s, pos + 1);
        lemma_scan_bounds(s, end, branches, current.push(bracket_node(s, pos + 1)));
        lemma_bracket_extend(s, t, pos + 1);
        lemma_scan_closed_extend(s, t, end, branches, current.push(bracket_node(s, pos + 1)));
    } else if c == '(' {
        let inner = scan(s, pos + 1, Seq::empty(), Seq::empty())->Ok_0;
        lemma_scan_bounds(s, pos + 1, Seq::empty(), Seq::empty());
        let node = Node::Group(inner.nodes());
        lemma_scan_bounds(s, inner.end, branches, current.push(node));
        lemma_scan_closed_extend(s, t, pos + 1, Seq::empty(), Seq::empty());
        lemma_scan_closed_extend(s, t, inner.end, branches, current.push(node));
    } else {
        lemma_scan_closed_extend(s, t, pos + 1, branches, current.push(Node::CharLiteral(c)));
    }
}

/// Whether the level read from `pos` reaches the end of the pattern with
/// every bracket, escape and group in it complete.
pub open spec fn level_is_whole(s: Seq<char>, pos: int) -> bool
    decreases s.len() - pos,
{
    if pos < 0 || pos >= s.len() {
        true
    } else if s[pos] == ')' {
        false
    } else if s[pos] == '\\' {
        pos + 1 < s.len() && level_is_whole(s, pos + 2)
    } else if s[pos] == '[' {
        let end = bracket_end(s, pos + 1);
        bracket_close(s, bracket_start(s, pos + 1)) < s.len() && pos < end <= s.len()
            && level_is_whole(s, end)
    } else if s[pos] == '(' {
        match scan(s, pos + 1, Seq::empty(), Seq::empty()) {
            Ok(inner) => inner.closed && pos < inner.end <= s.len() && level_is_whole(
                s,
                inner.end,
            ),
            Err(_) => false,
        }
    } else {
        level_is_whole(s, pos + 1)
    }
}

/// A whole level is read first, whatever is added after the pattern: reading
/// `s + t` from `pos` comes to the end of `s` with the branches and nodes that
/// reading `s` alone ends with, and goes on from there; or it fails as
/// reading `s` alone does.
pub proof fn lemma_scan_whole_extend(
    s: Seq<char>,
    t: Seq<char>,
    pos: int,
    branches: Seq<Seq<Node>>,
    current: Seq<Node>,
)
    requires
        0 <= pos <= s.len(),
        level_is_whole(s, pos),
    ensures
        match scan(s, pos, branches, current) {
            Ok(level) => level.end == s.len() && !level.closed && scan(
                s + t,
                pos,
                branches,
                current,
            ) == scan(s + t, s.len() as int, level.branches, level.current),
            Err(e) => scan(s + t, pos, branches, current) == Err::<Level, RegexParsingError>(e),
        },
    decreases s.len() - pos,
{
    let w = s + t;
    if pos < s.len() {
        let c = s[pos];
        assert(w[pos] == c);
        if c == '|' {
            lemma_scan_whole_extend(s, t, pos + 1, branches.push(current), Seq::empty());
        } else if c == '$' {
            if current.len() > 0 {
                lemma_scan_whole_extend(
                    s,
                    t,
                    pos + 1,
                    branches,
                    replace_last(current, Node::EndOfString(Box::new(current.last()))),
                );
            }
        } else if c == '?' {
            if current.len() > 0 {
                lemma_scan_whole_extend(
                    s,
                    t,
                    pos + 1,
                    branches,
                    replace_last(current, Node::OptionalQuantifier(Box::new(current.last()))),
                );
            }
        } else if c == '+' {
            if current.len() > 0 {
                lemma_scan_whole_extend(
                    s,
                    t,
                    pos + 1,
                    branches,
                    replace_last(current, Node::OneOrMoreQuantifier(Box::new(current.last()))),
                );
            }
        } else if c == '.' {
            lemma_scan_whole_extend(s, t, pos + 1, branches, current.push(Node::Wildcard));
        } else if c == '\\' {
            assert(w[pos + 1] == s[pos + 1]);
            match escape_node(s[pos + 1]) {
                Some(node) => {
                    lemma_scan_whole_extend(s, t, pos + 2, branches, current.push(node));
                },
                None => {},
            }
        } else if c == '[' {
            lemma_bracket_bounds(s, pos + 1);
            lemma_bracket_extend(s, t, pos + 1);
            lemma_scan_whole_extend(
                s,
                t,
                bracket_end(s, pos + 1),
                branches,
                current.push(bracket_node(s, pos + 1)),
            );
        } else if c == '(' {
            let inner = scan(s, pos + 1, Seq::empty(), Seq::empty())->Ok_0;
            lemma_scan_closed_extend(s, t, pos + 1, Seq::empty(), Seq::empty());
            lemma_scan_whole_extend(
                s,
                t,
                inner.end,
                branches,
                current.push(Node::Group(inner.nodes())),
            );
        } else {
            lemma_scan_whole_extend(s, t, pos + 1, branches, current.push(Node::CharLiteral(c)));
        }
    }
}

/// The branches of a level before whose first node `prefix` was read.
pub open spec fn prefixed_branches(
    prefix: Seq<Node>,
    branches: Seq<Seq<Node>>,
    current: Seq<Node>,
) -> Seq<Seq<Node>> {
    if branches.len() == 0 {
        branches
    } else {
        branches.update(0, prefix + branches[0])
    }
}

/// The current branch of a level before whose first node `prefix` was read.
pub open spec fn prefixed_current(
    prefix: Seq<Node>,
    branches: Seq<Seq<Node>>,
    current: Seq<Node>,
) -> Seq<Node> {
    if branches.len() == 0 {
        prefix + current
    } else {
        current
    }
}

/// Nodes that were read before stay in front: where a level can be read by
/// itself, reading it after `prefix` gives the same level with `prefix`
/// before the nodes of its first branch.
pub proof fn lemma_scan_prefix(
    s: Seq<char>,
    pos: int,
    branches: Seq<Seq<Node>>,
    current: Seq<Node>,
    prefix: Seq<Node>,
)
    requires
        0 <= pos <= s.len(),
        scan(s, pos, branches, current) is Ok,
    ensures
        scan(s, pos, branches, current) matches Ok(level) && scan(
            s,
            pos,
            prefixed_branches(prefix, branches, current),
            prefixed_current(prefix, branches, current),
        ) == Ok::<Level, RegexParsingError>(
            Level {
                branches: prefixed_branches(prefix, level.branches, level.current),
                current: prefixed_current(prefix, level.branches, level.current),
                end: level.end,
                closed: level.closed,
            },
        ),
    decreases s.len() - pos,
{
    let pb = prefixed_branches(prefix, branches, current);
    let pc = prefixed_current(prefix, branches, current);
    if pos < s.len() {
        let c = s[pos];
        if c == ')' {
        } else if c == '|' {
            let closed = branches.push(current);
            let none = Seq::<Node>::empty();
            assert(prefixed_branches(prefix, closed, none) =~= pb.push(pc));
            assert(prefixed_current(prefix, closed, none) =~= none);
            lemma_scan_prefix(s, pos + 1, closed, none, prefix);
        } else if c == '$' {
            let node = Node::EndOfString(Box::new(current.last()));
            lemma_prefixed_replace_last(prefix, branches, current, node);
            lemma_scan_prefix(s, pos + 1, branches, replace_last(current, node), prefix);
        } else if c == '?' {
            let node = Node::OptionalQuantifier(Box::new(current.last()));
            lemma_prefixed_replace_last(prefix, branches, current, node);
            lemma_scan_prefix(s, pos + 1, branches, replace_last(current, node), prefix);
        } else if c == '+' {
            let node = Node::OneOrMoreQuantifier(Box::new(current.last()));
            lemma_prefixed_replace_last(prefix, branches, current, node);
            lemma_scan_prefix(s, pos + 1, branches, replace_last(current, node), prefix);
        } else if c == '.' {
            lemma_prefixed_push(prefix, branches, current, Node::Wildcard);
            lemma_scan_prefix(s, pos + 1, branches, current.push(Node::Wildcard), prefix);
        } else if c == '\\' {
            let node = escape_node(s[pos + 1])->Some_0;
            lemma_prefixed_push(prefix, branches, current, node);
            lemma_scan_prefix(s, pos + 2, branches, current.push(node), prefix);
        } else if c == '[' {
            lemma_bracket_bounds(s, pos + 1);
            let node = bracket_node(s, pos + 1);
            lemma_prefixed_push(prefix, branches, current, node);
            lemma_scan_prefix(s, bracket_end(s, pos + 1), branches, current.push(node), prefix);
        } else if c == '(' {
            let inner = scan(s, pos + 1, Seq::empty(), Seq::empty())->Ok_0;
            let node = Node::Group(inner.nodes());
            lemma_prefixed_push(prefix, branches, current, node);
            lemma_scan_prefix(s, inner.end, branches, current.push(node), prefix);
        } else {
            lemma_prefixed_push(prefix, branches, current, Node::CharLiteral(c));
            lemma_scan_prefix(s, pos + 1, branches, current.push(Node::CharLiteral(c)), prefix);
        }
    }
}

/// Adding a node to the current branch leaves the prefix where it is.
pub proof fn lemma_prefixed_push(
    prefix: Seq<Node>,
    branches: Seq<Seq<Node>>,
    current: Seq<Node>,
    node: Node,
)
    ensures
        prefixed_branches(prefix, branches, current.push(node)) == prefixed_branches(
            prefix,
            branches,
            current,
        ),
        prefixed_current(prefix, branches, current.push(node)) == prefixed_current(
            prefix,
            branches,
            current,
        ).push(node),
{
    assert(prefixed_current(prefix, branches, current.push(node)) =~= prefixed_current(
        prefix,
        branches,
        current,
    ).push(node));
}

/// Replacing the last node of the current branch leaves the prefix where it
/// is.
pub proof fn lemma_prefixed_replace_last(
    prefix: Seq<Node>,
    branches: Seq<Seq<Node>>,
    current: Seq<Node>,
    node: Node,
)
    requires
        current.len() > 0,
    ensures
        prefixed_branches(prefix, branches, replace_last(current, node)) == prefixed_branches(
            prefix,
            branches,
            current,
        ),
        prefixed_current(prefix, branches, replace_last(current, node)) == replace_last(
            prefixed_current(prefix, branches, current),
            node,
        ),
        prefixed_current(prefix, branches, current).len() > 0,
        prefixed_current(prefix, branches, current).last() == current.last(),
{
    assert(prefixed_current(prefix, branches, replace_last(current, node)) =~= replace_last(
        prefixed_current(prefix, branches, current),
        node,
    ));
}

/// Whether no anchor to the start stands anywhere in `nodes`.
pub open spec fn none_anchored(nodes: Seq<Node>) -> bool {
    forall|i: int| 0 <= i < nodes.len() ==> free_of_start(#[trigger] nodes[i])
}

/// Whether no anchor to the start stands anywhere in `branches`.
pub open spec fn no_branch_anchored(branches: Seq<Seq<Node>>) -> bool {
    forall|k: int, i: int|
        0 <= k < branches.len() && 0 <= i < branches[k].len() ==> free_of_start(
            #[trigger] branches[k][i],
        )
}

/// A level made of branches and nodes without an anchor to the start holds
/// none.
pub proof fn lemma_close_level_none_anchored(branches: Seq<Seq<Node>>, current: Seq<Node>)
    requires
        none_anchored(current),
        no_branch_anchored(branches),
    ensures
        none_anchored(close_level(branches, current)),
        no_branch_anchored(branches.push(current)),
{
    let all = branches.push(current);
    assert forall|k: int, i: int| 0 <= k < all.len() && 0 <= i < all[k].len() implies free_of_start(
        #[trigger] all[k][i],
    ) by {
        if k < branches.len() {
            assert(all[k] == branches[k]);
        }
    }
}

/// Reading makes no anchor to the start: where there was none among the
/// nodes read before, there is none in the level.
pub proof fn lemma_scan_none_anchored(
    s: Seq<char>,
    pos: int,
    branches: Seq<Seq<Node>>,
    current: Seq<Node>,
)
    requires
        0 <= pos <= s.len(),
        none_anchored(current),
        no_branch_anchored(branches),
    ensures
        scan(s, pos, branches, current) matches Ok(level) ==> none_anchored(level.current)
            && no_branch_anchored(level.branches) && none_anchored(level.nodes()),
    decreases s.len() - pos,
{
    lemma_close_level_none_anchored(branches, current);
    if pos < s.len() {
        let c = s[pos];
        if c == ')' {
        } else if c == '|' {
            lemma_scan_none_anchored(s, pos + 1, branches.push(current), Seq::empty());
        } else if c == '$' {
            if current.len() > 0 {
                lemma_scan_none_anchored(
                    s,
                    pos + 1,
                    branches,
                    replace_last(current, Node::EndOfString(Box::new(current.last()))),
                );
            }
        } else if c == '?' {
            if current.len() > 0 {
                lemma_scan_none_anchored(
                    s,
                    pos + 1,
                    branches,
                    replace_last(current, Node::OptionalQuantifier(Box::new(current.last()))),
                );
            }
        } else if c == '+' {
            if current.len() > 0 {
                lemma_scan_none_anchored(
                    s,
                    pos + 1,
                    branches,
                    replace_last(current, Node::OneOrMoreQuantifier(Box::new(current.last()))),
                );
            }
        } else if c == '.' {
            lemma_scan_none_anchored(s, pos + 1, branches, current.push(Node::Wildcard));
        } else if c == '\\' {
            if pos + 1 < s.len() {
                match escape_node(s[pos + 1]) {
                    Some(node) => {
                        lemma_scan_none_anchored(s, pos + 2, branches, current.push(node));
                    },
                    None => {},
                }
            }
        } else if c == '[' {
            lemma_bracket_bounds(s, pos + 1);
            lemma_scan_none_anchored(
                s,
                bracket_end(s, pos + 1),
                branches,
                current.push(bracket_node(s, pos + 1)),
            );
        } else if c == '(' {
            lemma_scan_none_anchored(s, pos + 1, Seq::empty(), Seq::empty());
            match scan(s, pos + 1, Seq::empty(), Seq::empty()) {
                Ok(inner) => {
                    if pos < inner.end <= s.len() {
                        lemma_scan_none_anchored(
                            s,
                            inner.end,
                            branches,
                            current.push(Node::Group(inner.nodes())),
                        );
                    }
                },
                Err(_) => {},
            }
        } else {
            lemma_scan_none_anchored(s, pos + 1, branches, current.push(Node::CharLiteral(c)));
        }
    }
}

} // verus!
