//! Compiles string patterns with one capture region, such as `"abc{x}ghi"`,
//! into byte-level match logic, and rewrites the arms of a `match` on a
//! string accordingly.
//!
//! A pattern string is literal text in which `{{` stands for `{` and `}}`
//! for `}`, with at most one capture group `{name}` or `{_}`.
//! [`parse_str_pattern`] compiles one such string into a
//! [`PatternDescriptor`]; [`convert_pat`] rewrites a whole pattern tree and
//! collects the captured names; [`compile_arm`] and [`str_match_impl`] do
//! so for an arm and for all arms of a statement. What each of them
//! returns is stated over the grammar in [`grammar`], and [`laws`] and
//! [`text`] hold what follows from it.

pub mod any;
pub mod arm;
pub mod captures;
pub mod descriptor;
pub mod diagnostics;
pub mod grammar;
pub mod laws;
pub mod matcher;
pub mod parser;
pub mod reading;
pub mod rewrite;
pub mod text;
pub mod tree;
pub mod vecs;

pub use crate::any::str_matches;
pub use crate::arm::compile_arm;
pub use crate::arm::str_match_impl;
pub use crate::arm::CompiledArm;
pub use crate::arm::CompiledMatch;
pub use crate::arm::MatchArm;
pub use crate::arm::MatchStatement;
pub use crate::captures::CaptureSet;
pub use crate::descriptor::Capture;
pub use crate::descriptor::PatternDescriptor;
pub use crate::grammar::PatternError;
pub use crate::parser::parse_str_pattern;
pub use crate::rewrite::convert_pat;
pub use crate::tree::BytePattern;
pub use crate::tree::CompileError;
pub use crate::tree::ErrorKind;
pub use crate::tree::PatternTree;
