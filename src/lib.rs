//! Matching one line of text against a small regular-expression language:
//! literals, `\d`, `\w`, classes, `.`, anchors, `?`, `+`, groups, alternation
//! and backreferences. A pattern string is compiled into nodes, which a
//! backtracking matcher runs against the text.
use vstd::prelude::*;

pub mod grammar;
pub mod laws;
pub mod matcher;
pub mod parse;
pub mod pattern;
pub mod semantics;
pub mod text;

pub use matcher::{is_match, match_pattern};
pub use parse::parse_pattern;
pub use pattern::{Pattern, PatternError};

verus! {

} // verus!
