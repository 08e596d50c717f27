//! Patterns that are rejected whatever else they hold.

use crate::regex::composition::lemma_scan_whole_extend;
use crate::regex::error::RegexParsingError;
use crate::regex::laws::{is_whole, pattern_body, read};
use crate::regex::node::Node;
use crate::regex::syntax::{compile, scan, Level};
use vstd::prelude::*;

verus! {

/// A quantifier or `$` that stands first in a pattern, or first after the `^`
/// that anchors it, has nothing to apply to, and the pattern is rejected for
/// it.
pub proof fn law_nothing_to_apply_to(pattern: Seq<char>)
    requires
        pattern_body(pattern).len() > 0,
    ensures
        pattern_body(pattern)[0] == '?' ==> compile(pattern) == Err::<
            Seq<Node>,
            RegexParsingError,
        >(RegexParsingError::InvalidOptionalQuantifier),
        pattern_body(pattern)[0] == '+' ==> compile(pattern) == Err::<
            Seq<Node>,
            RegexParsingError,
        >(RegexParsingError::InvalidOneOrMoreQuantifier),
        pattern_body(pattern)[0] == '$' ==> compile(pattern) == Err::<
            Seq<Node>,
            RegexParsingError,
        >(RegexParsingError::InvalidEnd),
{
    let body = pattern_body(pattern);
    let first = body[0];
    if first == '?' || first == '+' || first == '$' {
        assert(read(body) is Err);
        if pattern[0] == '^' {
            assert(pattern.len() > 1);
        }
    }
}

/// A backslash that ends a pattern is rejected, unless the pattern is
/// rejected for something before it: this holds where the pattern before the
/// backslash, but for the `^` that may anchor it, is whole.
pub proof fn law_trailing_backslash(pattern: Seq<char>)
    requires
        is_whole(pattern_body(pattern)),
    ensures
        compile(pattern + seq!['\\']) == Err::<Seq<Node>, RegexParsingError>(
            match read(pattern_body(pattern)) {
                Ok(_) => RegexParsingError::InvalidCharClass,
                Err(e) => e,
            },
        ),
{
    let body = pattern_body(pattern);
    let ended = pattern + seq!['\\'];
    let long = body + seq!['\\'];
    let n = body.len() as int;
    lemma_scan_whole_extend(body, seq!['\\'], 0, Seq::empty(), Seq::empty());
    assert(long[n] == '\\');
    match read(body) {
        Ok(level) => {
            assert(scan(long, n, level.branches, level.current) == Err::<Level, RegexParsingError>(
                RegexParsingError::InvalidCharClass,
            ));
        },
        Err(_) => {},
    }
    if pattern.len() > 0 && pattern[0] == '^' {
        assert(ended.drop_first() =~= long);
        assert(ended[0] == '^');
    } else {
        assert(ended =~= long);
        assert(ended[0] == if pattern.len() > 0 { pattern[0] } else { '\\' });
    }
}

} // verus!
