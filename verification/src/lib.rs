//! A small regular-expression engine: a compiler from patterns to syntax
//! trees, and a matcher that walks such a tree along an input.

pub mod pattern;
pub mod regex;
pub mod text;

pub use crate::pattern::match_pattern;
pub use crate::regex::captures::Captures;
pub use crate::regex::error::RegexParsingError;
pub use crate::regex::pattern::Pattern;
pub use crate::regex::regex::Regex;
