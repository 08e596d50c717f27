//! Regular expressions with groups, alternations, quantifiers, anchors and
//! references to groups.
//!
//! `regex` holds the compiled expression with its two operations, compiling
//! and matching, `pattern` the tree that it is made of, `matcher` the walk
//! over that tree, and `captures` and `error` what the names say. The other
//! modules are mathematics: `node`, `syntax` and `semantics` define what a
//! pattern compiles to and what a compiled expression matches, `laws` states
//! what follows from that for the users of the library, and `frame`,
//! `position`, `slots`, `handover` and `composition` hold the facts that the laws rest
//! on.

pub mod captures;
pub mod composition;
pub mod error;
pub mod frame;
pub mod handover;
pub mod laws;
pub mod matcher;
pub mod node;
pub mod pattern;
pub mod position;
pub mod regex;
pub mod semantics;
pub mod slots;
pub mod syntax;
