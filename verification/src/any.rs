//! Matching one subject against several patterns at once.

use vstd::prelude::*;
use vstd::utf8::encode_utf8;
use crate::grammar::pattern_of;
use crate::grammar::PatternError;
use crate::parser::parse_str_pattern;

verus! {

/// The texts of a list of pattern strings.
pub open spec fn texts_of(patterns: Seq<&str>) -> Seq<Seq<char>> {
    Seq::new(patterns.len(), |i: int| patterns[i]@)
}

/// Whether the subject matches one of the first `k` patterns; the first
/// pattern among them that does not compile makes the whole an error.
pub open spec fn any_matches(subject: Seq<u8>, patterns: Seq<Seq<char>>, k: nat) -> Result<
    bool,
    PatternError,
>
    decreases k,
{
    if k == 0 || k > patterns.len() {
        Ok(false)
    } else {
        match any_matches(subject, patterns, (k - 1) as nat) {
            Err(e) => Err(e),
            Ok(found) => match pattern_of(patterns[k - 1]) {
                Err(e) => Err(e),
                Ok(descriptor) => Ok(found || descriptor.matches(subject)),
            },
        }
    }
}

/// Once a pattern has failed, the patterns behind it change nothing.
pub proof fn lemma_any_error_is_final(
    subject: Seq<u8>,
    patterns: Seq<Seq<char>>,
    k: nat,
    m: nat,
)
    requires
        k <= m <= patterns.len(),
        any_matches(subject, patterns, k) is Err,
    ensures
        any_matches(subject, patterns, m) == any_matches(subject, patterns, k),
    decreases m,
{
    if m > k {
        lemma_any_error_is_final(subject, patterns, k, (m - 1) as nat);
    }
}

/// Whether `subject` matches at least one of `patterns`. Every pattern is
/// compiled, also behind one that matches; the first that is no pattern is
/// the error. Captured text is not handed out.
pub fn str_matches(subject: &str, patterns: &[&str]) -> (r: Result<bool, PatternError>)
    ensures
        r == any_matches(encode_utf8(subject@), texts_of(patterns@), patterns@.len()),
{
    let bytes = subject.as_bytes();
    let ghost texts = texts_of(patterns@);
    let mut found = false;
    let mut i: usize = 0;
    while i < patterns.len()
        invariant
            0 <= i <= patterns@.len(),
            texts == texts_of(patterns@),
            bytes@ == encode_utf8(subject@),
            any_matches(bytes@, texts, i as nat) == Ok::<bool, PatternError>(found),
        decreases patterns@.len() - i,
    {
        assert(texts[i as int] == patterns@[i as int]@);
        match parse_str_pattern(patterns[i]) {
            Err(e) => {
                proof {
                    assert(any_matches(bytes@, texts, (i + 1) as nat) is Err);
                    lemma_any_error_is_final(bytes@, texts, (i + 1) as nat, patterns@.len());
                }
                return Err(e);
            },
            Ok(descriptor) => {
                let here = descriptor.matches(bytes);
                found = found || here;
            },
        }
        i += 1;
    }
    Ok(found)
}

} // verus!
