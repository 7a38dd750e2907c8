//! Matching a subject against a compiled pattern.

use vstd::prelude::*;
use vstd::utf8::encode_utf8;
use vstd::utf8::is_char_boundary;
use crate::descriptor::PatternDescriptor;
use crate::text::captured_bytes_are_text;

verus! {

/// Whether the bytes of `needle` stand in `hay` from index `at` on.
fn has_bytes_at(hay: &[u8], at: usize, needle: &Vec<u8>) -> (r: bool)
    requires
        at + needle@.len() <= hay@.len(),
    ensures
        r == (hay@.subrange(at as int, at + needle@.len()) == needle@),
{
    let n = hay.len();
    let m = needle.len();
    let ghost window = hay@.subrange(at as int, at + m);
    let mut i: usize = 0;
    while i < m
        invariant
            m == needle@.len(),
            n == hay@.len(),
            at + m <= n,
            window == hay@.subrange(at as int, at + m),
            0 <= i <= m,
            forall|j: int| 0 <= j < i ==> window[j] == needle@[j],
        decreases m - i,
    {
        if hay[at + i] != needle[i] {
            assert(window[i as int] != needle@[i as int]);
            return false;
        }
        i += 1;
    }
    assert(window =~= needle@);
    true
}

impl PatternDescriptor {
    /// Whether `subject` matches this pattern.
    pub fn matches(&self, subject: &[u8]) -> (r: bool)
        ensures
            r == self@.matches(subject@),
    {
        match self {
            PatternDescriptor::Single(bytes) => {
                if subject.len() != bytes.len() {
                    return false;
                }
                assert(subject@.subrange(0, subject@.len() as int) =~= subject@);
                has_bytes_at(subject, 0, bytes)
            },
            PatternDescriptor::Triple(prefix, _, suffix) => {
                let n = subject.len();
                if prefix.len() > n || suffix.len() > n - prefix.len() {
                    return false;
                }
                assert(subject@.take(prefix@.len() as int) =~= subject@.subrange(
                    0int,
                    0int + prefix@.len(),
                ));
                assert(subject@.skip(n - suffix@.len()) =~= subject@.subrange(
                    n - suffix@.len(),
                    n - suffix@.len() + suffix@.len(),
                ));
                has_bytes_at(subject, 0, prefix) && has_bytes_at(subject, n - suffix.len(), suffix)
            },
        }
    }

    /// Where in a matching `subject` the capture region lies: the index of
    /// its first byte and the index after its last. `None` if the pattern
    /// has no capture or the subject does not match.
    pub fn capture_range(&self, subject: &[u8]) -> (r: Option<(usize, usize)>)
        ensures
            r is Some <==> self@ is Triple && self@.matches(subject@),
            r matches Some((start, end)) ==> {
                &&& start == self@.prefix().len()
                &&& end == subject@.len() - self@.suffix().len()
                &&& start <= end <= subject@.len()
                &&& subject@.subrange(start as int, end as int) == self@.captured(subject@)
            },
    {
        match self {
            PatternDescriptor::Single(_) => None,
            PatternDescriptor::Triple(prefix, _, suffix) => {
                if self.matches(subject) {
                    Some((prefix.len(), subject.len() - suffix.len()))
                } else {
                    None
                }
            },
        }
    }

    /// The text of `subject` that the capture covers.
    ///
    /// `None` if the pattern has no capture or the subject does not match.
    /// The capture of a pattern whose fixed parts are text always lies
    /// between two characters; for other descriptors a capture that would
    /// cut a character in two is `None` as well.
    pub fn capture<'a>(&self, subject: &'a str) -> (r: Option<&'a str>)
        ensures
            r is Some <==> {
                &&& self@ is Triple
                &&& self@.matches(encode_utf8(subject@))
                &&& is_char_boundary(encode_utf8(subject@), self@.prefix().len() as int)
                &&& is_char_boundary(
                    encode_utf8(subject@),
                    encode_utf8(subject@).len() - self@.suffix().len(),
                )
            },
            r matches Some(text) ==> encode_utf8(text@) == self@.captured(encode_utf8(subject@)),
            self@.is_text() ==> (r is Some <==> self@ is Triple && self@.matches(
                encode_utf8(subject@),
            )),
    {
        broadcast use vstd::utf8::group_utf8_lib;

        let ghost x = encode_utf8(subject@);
        proof {
            if self@.is_text() && self@.matches(x) {
                captured_bytes_are_text(self@, x);
            }
        }
        match self.capture_range(subject.as_bytes()) {
            None => None,
            Some((start, end)) => {
                if !subject.is_char_boundary(end) {
                    return None;
                }
                let (head, _) = subject.split_at(end);
                proof {
                    let h = encode_utf8(head@);
                    assert(h =~= x.subrange(0, end as int));
                    if start < end {
                        vstd::utf8::is_char_boundary_iff_not_is_continuation_byte(x, start as int);
                        assert(h[start as int] == x[start as int]);
                        vstd::utf8::is_char_boundary_iff_not_is_continuation_byte(h, start as int);
                    } else {
                        vstd::utf8::is_char_boundary_start_end_of_seq(h);
                    }
                }
                if !head.is_char_boundary(start) {
                    return None;
                }
                let (_, text) = head.split_at(start);
                assert(encode_utf8(text@) =~= x.subrange(start as int, end as int));
                Some(text)
            },
        }
    }
}

} // verus!
