//! The pattern grammar, as mathematics over the UTF-8 bytes of a pattern.
//!
//! A pattern is literal text in which `{{` stands for `{` and `}}` for `}`,
//! with at most one capture group `{name}` or `{_}`. Both braces are ASCII,
//! so no byte of a longer UTF-8 sequence is ever taken for one.

use vstd::prelude::*;
use vstd::utf8::decode_utf8;
use vstd::utf8::encode_utf8;
use crate::descriptor::CaptureView;
use crate::descriptor::DescriptorView;

verus! {

/// The byte `{`.
pub const OPEN_BRACE: u8 = 0x7b;

/// The byte `}`.
pub const CLOSE_BRACE: u8 = 0x7d;

/// The byte `_`.
pub const UNDERSCORE: u8 = 0x5f;

/// Why a pattern string is not a pattern.
#[derive(Debug, Clone, Copy, PartialEq, Eq, Structural)]
pub enum PatternError {
    /// A `}` that neither closes the capture nor is doubled.
    UnmatchedClose,
    /// A capture group without a name: `{}`.
    EmptyCapture,
    /// A `{` that opens a capture which the string never closes.
    Unterminated,
    /// A second capture group.
    DuplicateCapture,
}

pub open spec fn is_brace(b: u8) -> bool {
    b == OPEN_BRACE || b == CLOSE_BRACE
}

/// How many bytes at the start of `s` read as literal text: everything up
/// to the first brace that is not doubled, or all of `s`.
pub open spec fn literal_run(s: Seq<u8>) -> nat
    decreases s.len(),
{
    if s.len() == 0 {
        0
    } else if !is_brace(s[0]) {
        1 + literal_run(s.skip(1))
    } else if s.len() >= 2 && s[1] == s[0] {
        2 + literal_run(s.skip(2))
    } else {
        0
    }
}

/// Literal text is a string all of whose braces are doubled.
pub open spec fn is_literal(s: Seq<u8>) -> bool {
    literal_run(s) == s.len()
}

/// The bytes that literal text stands for: each doubled brace becomes one.
pub open spec fn unescape(s: Seq<u8>) -> Seq<u8>
    decreases s.len(),
{
    if s.len() == 0 {
        Seq::empty()
    } else if is_brace(s[0]) && s.len() >= 2 && s[1] == s[0] {
        seq![s[0]] + unescape(s.skip(2))
    } else {
        seq![s[0]] + unescape(s.skip(1))
    }
}

/// Index of the first `}` in `s`, or `s.len()` if there is none.
pub open spec fn find_close(s: Seq<u8>) -> nat
    decreases s.len(),
{
    if s.len() == 0 || s[0] == CLOSE_BRACE {
        0
    } else {
        1 + find_close(s.skip(1))
    }
}

/// What the text between the braces of a capture group asks for.
pub open spec fn capture_of(name: Seq<u8>) -> CaptureView {
    if name == seq![UNDERSCORE] {
        CaptureView::Wild
    } else {
        CaptureView::Named(decode_utf8(name))
    }
}

/// What remains to be decided once the capture group `{name}` has been
/// read: `tail` has to be literal text, and a brace that is not doubled is
/// an error, a second group if it opens, an unmatched `}` if it closes.
pub open spec fn parse_after_capture(prefix: Seq<u8>, name: Seq<u8>, tail: Seq<u8>) -> Result<
    DescriptorView,
    PatternError,
> {
    let k = literal_run(tail) as int;
    if k == tail.len() {
        Ok(DescriptorView::Triple(unescape(prefix), capture_of(name), unescape(tail)))
    } else if tail[k] == CLOSE_BRACE {
        Err(PatternError::UnmatchedClose)
    } else {
        Err(PatternError::DuplicateCapture)
    }
}

/// The meaning of the pattern whose UTF-8 bytes are `s`.
pub open spec fn parse_spec(s: Seq<u8>) -> Result<DescriptorView, PatternError> {
    let i = literal_run(s) as int;
    if i == s.len() {
        Ok(DescriptorView::Single(unescape(s)))
    } else if s[i] == CLOSE_BRACE {
        Err(PatternError::UnmatchedClose)
    } else {
        let rest = s.skip(i + 1);
        let j = find_close(rest) as int;
        if j == rest.len() {
            Err(PatternError::Unterminated)
        } else if j == 0 {
            Err(PatternError::EmptyCapture)
        } else {
            parse_after_capture(s.take(i), rest.take(j), rest.skip(j + 1))
        }
    }
}

/// The meaning of a pattern given as text.
pub open spec fn pattern_of(text: Seq<char>) -> Result<DescriptorView, PatternError> {
    parse_spec(encode_utf8(text))
}

/// Reading literal text stops inside the string, and only at a brace.
pub proof fn lemma_literal_run_bound(s: Seq<u8>)
    ensures
        literal_run(s) <= s.len(),
        literal_run(s) < s.len() ==> is_brace(s[literal_run(s) as int]),
    decreases s.len(),
{
    if s.len() == 0 {
    } else if !is_brace(s[0]) {
        lemma_literal_run_bound(s.skip(1));
    } else if s.len() >= 2 && s[1] == s[0] {
        lemma_literal_run_bound(s.skip(2));
    }
}

/// The search for `}` stops inside the string, and only at a `}`.
pub proof fn lemma_find_close_bound(s: Seq<u8>)
    ensures
        find_close(s) <= s.len(),
        find_close(s) < s.len() ==> s[find_close(s) as int] == CLOSE_BRACE,
    decreases s.len(),
{
    if s.len() == 0 || s[0] == CLOSE_BRACE {
    } else {
        lemma_find_close_bound(s.skip(1));
    }
}

} // verus!
