//! Laws that relate patterns to each other and to the inputs they match.
//!
//! The laws are stated of patterns where that can be done, and of compiled
//! expressions in general. What they share is defined here: what it means
//! for a pattern to match, and how a pattern falls into parts that are read
//! one after the other.

use crate::regex::composition::{
    lemma_scan_prefix, lemma_scan_shift, lemma_scan_whole_extend, level_is_whole, prefixed_branches,
    prefixed_current,
};
use crate::regex::error::RegexParsingError;
use crate::regex::node::Node;
use crate::regex::semantics::regex_matches;
use crate::regex::syntax::{close_level, compile, scan, Level};
use vstd::prelude::*;

pub mod anchors;
pub mod backreference;
pub mod literal;
pub mod optional;
pub mod rejection;

verus! {

/// Whether the pattern `pattern` compiles and matches somewhere in `input`.
pub open spec fn pattern_matches(pattern: Seq<char>, input: Seq<char>) -> bool {
    match compile(pattern) {
        Ok(nodes) => regex_matches(nodes, input),
        Err(_) => false,
    }
}

/// The outcome of reading `part` as one level, with nothing read before.
pub open spec fn read(part: Seq<char>) -> Result<Level, RegexParsingError> {
    scan(part, 0, Seq::empty(), Seq::empty())
}

/// Whether `part` can be read, has every bracket, escape and group in it
/// complete, and holds no `|` or `)` outside its groups.
pub open spec fn is_unit(part: Seq<char>) -> bool {
    &&& level_is_whole(part, 0)
    &&& read(part) matches Ok(level)
    &&& level.branches.len() == 0
}

/// The nodes that `part` is read as.
pub open spec fn nodes_read(part: Seq<char>) -> Seq<Node> {
    read(part)->Ok_0.current
}

/// The pattern without the `^` that may anchor it.
pub open spec fn pattern_body(pattern: Seq<char>) -> Seq<char> {
    if pattern.len() > 0 && pattern[0] == '^' {
        pattern.drop_first()
    } else {
        pattern
    }
}

/// Whether `part` has every bracket, escape and group in it complete, and
/// no `)` outside its groups.
pub open spec fn is_whole(part: Seq<char>) -> bool {
    level_is_whole(part, 0)
}

/// A unit is read first: reading `part + rest` comes to the end of `part`
/// with the nodes of `part` alone, and goes on from there.
pub proof fn lemma_read_unit_then(part: Seq<char>, rest: Seq<char>)
    requires
        is_unit(part),
    ensures
        read(part + rest) == scan(part + rest, part.len() as int, Seq::empty(), nodes_read(part)),
{
    lemma_scan_whole_extend(part, rest, 0, Seq::empty(), Seq::empty());
    let level = read(part)->Ok_0;
    assert(level.branches =~= Seq::empty());
}

/// What is read after `before` where what follows can be read by itself:
/// the level of what follows, with the nodes read before in front.
pub proof fn lemma_read_after(before: Seq<char>, rest: Seq<char>, prefix: Seq<Node>)
    requires
        read(rest) is Ok,
    ensures
        scan(before + rest, before.len() as int, Seq::empty(), prefix) matches Ok(level)
            && level.nodes() == after_prefix(
            prefix,
            read(rest)->Ok_0.branches,
            read(rest)->Ok_0.current,
        ),
{
    let none = Seq::<Seq<Node>>::empty();
    lemma_scan_shift(before, rest, 0, none, prefix);
    lemma_scan_prefix(rest, 0, none, Seq::empty(), prefix);
    assert(prefixed_current(prefix, none, Seq::empty()) =~= prefix);
}

/// The level of `branches` and `current` with `prefix` read before it.
pub open spec fn after_prefix(prefix: Seq<Node>, branches: Seq<Seq<Node>>, current: Seq<Node>)
    -> Seq<Node> {
    close_level(
        prefixed_branches(prefix, branches, current),
        prefixed_current(prefix, branches, current),
    )
}

} // verus!
