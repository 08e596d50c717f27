//! The ways in which a pattern can fail to compile.

use vstd::prelude::*;

verus! {

/// Why a pattern was rejected.
#[derive(Debug, Clone, Copy, PartialEq, Eq, Structural)]
pub enum RegexParsingError {
    /// The pattern is the empty string.
    EmptyRegex,
    /// A backslash ends the pattern, or what follows it is neither `d`, `w`,
    /// a backslash nor a decimal digit.
    InvalidCharClass,
    /// The pattern starts with `^` and gives nothing to anchor.
    InvalidStart,
    /// A `$` has nothing before it to anchor.
    InvalidEnd,
    /// A `?` has nothing before it to make optional.
    InvalidOptionalQuantifier,
    /// A `+` has nothing before it to repeat.
    InvalidOneOrMoreQuantifier,
    /// A reference to a group that cannot exist. Every decimal digit after a
    /// backslash names a group, so compilation does not report this.
    InvalidBackreference,
}

} // verus!
