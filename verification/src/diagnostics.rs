//! The fixed texts that report an error to the author of a pattern.

use vstd::prelude::*;
use crate::grammar::PatternError;
use crate::tree::ErrorKind;

verus! {

impl PatternError {
    /// The text that reports this error.
    pub open spec fn message_text(self) -> Seq<char> {
        match self {
            PatternError::UnmatchedClose => "str-match: invalid format string: unmatched `}` found\nif you intended to match `}`, you can escape it using `}}`"@,
            PatternError::EmptyCapture => "str-match: invalid format string: expected identity but `}` found\nif you intended to match `{}`, you can escape it using `{{}}`"@,
            PatternError::Unterminated => "str-match: invalid format string: expected `'}'` but string was terminated\nif you intended to match `{`, you can escape it using `{{`"@,
            PatternError::DuplicateCapture => "`{}` can only be used once per str pattern"@,
        }
    }

    /// The text that reports this error.
    pub fn message(&self) -> (r: &'static str)
        ensures
            r@ == self.message_text(),
    {
        match self {
            PatternError::UnmatchedClose => "str-match: invalid format string: unmatched `}` found\nif you intended to match `}`, you can escape it using `}}`",
            PatternError::EmptyCapture => "str-match: invalid format string: expected identity but `}` found\nif you intended to match `{}`, you can escape it using `{{}}`",
            PatternError::Unterminated => "str-match: invalid format string: expected `'}'` but string was terminated\nif you intended to match `{`, you can escape it using `{{`",
            PatternError::DuplicateCapture => "`{}` can only be used once per str pattern",
        }
    }
}

impl ErrorKind {
    /// The text that reports this error.
    pub open spec fn message_text(self) -> Seq<char> {
        match self {
            ErrorKind::Pattern(e) => e.message_text(),
            ErrorKind::ComplexPattern => "str-match: complex pattern is currently unsupported"@,
        }
    }

    /// The text that reports this error.
    pub fn message(&self) -> (r: &'static str)
        ensures
            r@ == self.message_text(),
    {
        match self {
            ErrorKind::Pattern(e) => e.message(),
            ErrorKind::ComplexPattern => "str-match: complex pattern is currently unsupported",
        }
    }
}

} // verus!
