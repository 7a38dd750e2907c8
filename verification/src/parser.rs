//! The pattern parser: one pass over the bytes of a pattern string.

use vstd::prelude::*;
use vstd::string::StringSliceAdditionalSpecFns;
use vstd::utf8::decode_utf8;
use vstd::utf8::encode_utf8;
use vstd::utf8::is_char_boundary;
use crate::descriptor::Capture;
use crate::descriptor::DescriptorView;
use crate::descriptor::PatternDescriptor;
use crate::grammar::find_close;
use crate::grammar::lemma_find_close_bound;
use crate::grammar::lemma_literal_run_bound;
use crate::grammar::literal_run;
use crate::grammar::pattern_of;
use crate::grammar::unescape;
use crate::grammar::PatternError;
use crate::grammar::CLOSE_BRACE;
use crate::grammar::OPEN_BRACE;
use crate::grammar::UNDERSCORE;
use crate::text::compiled_pattern_is_text;
use crate::text::lemma_boundary_after_ascii;

verus! {

/// The model of what the parser returns.
pub open spec fn parsed_view(r: Result<PatternDescriptor, PatternError>) -> Result<
    DescriptorView,
    PatternError,
> {
    match r {
        Ok(d) => Ok(d@),
        Err(e) => Err(e),
    }
}

/// Reads literal text from `from` on, up to the first brace that is not
/// doubled. Returns the bytes that the text stands for and where it stopped.
fn scan_literal(bytes: &[u8], from: usize) -> (r: (Vec<u8>, usize))
    requires
        from <= bytes@.len(),
    ensures
        r.1 == from + literal_run(bytes@.skip(from as int)),
        from <= r.1 <= bytes@.len(),
        r.0@ == unescape(bytes@.subrange(from as int, r.1 as int)),
{
    let n = bytes.len();
    let mut out: Vec<u8> = Vec::new();
    let mut i: usize = from;
    let ghost stop: int = from + literal_run(bytes@.skip(from as int));
    proof {
        lemma_literal_run_bound(bytes@.skip(from as int));
    }
    while i < n
        invariant
            n == bytes@.len(),
            from <= i <= stop <= n,
            stop == i + literal_run(bytes@.skip(i as int)),
            out@ + unescape(bytes@.subrange(i as int, stop)) == unescape(
                bytes@.subrange(from as int, stop),
            ),
        ensures
            i == stop,
        decreases n - i,
    {
        let b = bytes[i];
        let ghost here = bytes@.skip(i as int);
        let ghost window = bytes@.subrange(i as int, stop);
        assert(here[0] == b);
        if b == OPEN_BRACE || b == CLOSE_BRACE {
            if i + 1 < n && bytes[i + 1] == b {
                proof {
                    assert(here[1] == b);
                    assert(here.skip(2) =~= bytes@.skip(i + 2));
                    assert(window[0] == b && window[1] == b);
                    assert(window.skip(2) =~= bytes@.subrange(i + 2, stop));
                    assert(out@.push(b) + unescape(bytes@.subrange(i + 2, stop)) =~= out@
                        + unescape(window));
                }
                out.push(b);
                i += 2;
            } else {
                proof {
                    if i + 1 < n {
                        assert(here[1] == bytes@[i + 1]);
                    }
                }
                break ;
            }
        } else {
            proof {
                assert(here.skip(1) =~= bytes@.skip(i + 1));
                assert(window[0] == b);
                assert(window.skip(1) =~= bytes@.subrange(i + 1, stop));
                assert(out@.push(b) + unescape(bytes@.subrange(i + 1, stop)) =~= out@ + unescape(
                    window,
                ));
            }
            out.push(b);
            i += 1;
        }
    }
    proof {
        assert(bytes@.subrange(i as int, stop) =~= Seq::<u8>::empty());
        assert(out@ + Seq::<u8>::empty() =~= out@);
    }
    (out, i)
}

/// Finds the first `}` at or after `from`; the length of `bytes` if there
/// is none.
fn scan_name(bytes: &[u8], from: usize) -> (end: usize)
    requires
        from <= bytes@.len(),
    ensures
        end == from + find_close(bytes@.skip(from as int)),
        from <= end <= bytes@.len(),
{
    let n = bytes.len();
    let mut i: usize = from;
    let ghost stop: int = from + find_close(bytes@.skip(from as int));
    proof {
        lemma_find_close_bound(bytes@.skip(from as int));
    }
    while i < n
        invariant
            n == bytes@.len(),
            from <= i <= stop <= n,
            stop == i + find_close(bytes@.skip(i as int)),
        ensures
            i == stop,
        decreases n - i,
    {
        assert(bytes@.skip(i as int)[0] == bytes@[i as int]);
        if bytes[i] == CLOSE_BRACE {
            break ;
        }
        assert(bytes@.skip(i as int).skip(1) =~= bytes@.skip(i + 1));
        i += 1;
    }
    i
}

/// Copies the text between two character boundaries of `s`.
fn substring(s: &str, start: usize, end: usize) -> (r: String)
    requires
        start <= end <= s.spec_bytes().len(),
        is_char_boundary(s.spec_bytes(), start as int),
        is_char_boundary(s.spec_bytes(), end as int),
    ensures
        r@ == decode_utf8(s.spec_bytes().subrange(start as int, end as int)),
{
    broadcast use vstd::utf8::group_utf8_lib;

    let ghost all = s.spec_bytes();
    let (head, _) = s.split_at(end);
    proof {
        let h = head.spec_bytes();
        assert(h =~= all.subrange(0, end as int));
        if start < end {
            vstd::utf8::is_char_boundary_iff_not_is_continuation_byte(all, start as int);
            assert(h[start as int] == all[start as int]);
            vstd::utf8::is_char_boundary_iff_not_is_continuation_byte(h, start as int);
        } else {
            vstd::utf8::is_char_boundary_start_end_of_seq(h);
        }
    }
    let (_, piece) = head.split_at(start);
    proof {
        assert(piece.spec_bytes() =~= all.subrange(start as int, end as int));
        assert(decode_utf8(encode_utf8(piece@)) == piece@);
    }
    piece.to_owned()
}

/// Compiles one pattern string.
///
/// The result is the descriptor that the grammar gives to the pattern, or
/// the first error met when reading it from left to right. The fixed parts
/// of the descriptor are UTF-8 text, as the pattern is.
pub fn parse_str_pattern(s: &str) -> (r: Result<PatternDescriptor, PatternError>)
    ensures
        parsed_view(r) == pattern_of(s@),
        r matches Ok(d) ==> d@.is_text(),
{
    broadcast use vstd::utf8::group_utf8_lib;

    proof {
        compiled_pattern_is_text(encode_utf8(s@));
    }

    let bytes = s.as_bytes();
    let n = bytes.len();
    let ghost all = bytes@;
    assert(all.skip(0) =~= all);
    let (prefix, open) = scan_literal(bytes, 0);
    assert(all.subrange(0, open as int) =~= all.take(open as int));
    if open == n {
        assert(all.take(open as int) =~= all);
        return Ok(PatternDescriptor::Single(prefix));
    }
    proof {
        lemma_literal_run_bound(all);
    }
    if bytes[open] == CLOSE_BRACE {
        return Err(PatternError::UnmatchedClose);
    }
    let start = open + 1;
    let end = scan_name(bytes, start);
    let ghost rest = all.skip(start as int);
    if end == n {
        return Err(PatternError::Unterminated);
    }
    if end == start {
        return Err(PatternError::EmptyCapture);
    }
    proof {
        lemma_find_close_bound(rest);
        assert(rest[end - start] == all[end as int]);
        assert(rest.take(end - start) =~= all.subrange(start as int, end as int));
        assert(rest.skip(end - start + 1) =~= all.skip(end + 1));
    }
    let (suffix, stop) = scan_literal(bytes, end + 1);
    let ghost tail = all.skip(end + 1);
    proof {
        lemma_literal_run_bound(tail);
        assert(all.subrange(end + 1, stop as int) =~= tail.take(stop - (end + 1)));
    }
    if stop < n {
        assert(tail[stop - (end + 1)] == all[stop as int]);
        if bytes[stop] == CLOSE_BRACE {
            return Err(PatternError::UnmatchedClose);
        }
        return Err(PatternError::DuplicateCapture);
    }
    assert(tail.take(stop - (end + 1)) =~= tail);
    let capture = if end - start == 1 && bytes[start] == UNDERSCORE {
        assert(all.subrange(start as int, end as int) =~= seq![UNDERSCORE]);
        Capture::Wild
    } else {
        proof {
            assert(all.subrange(start as int, end as int) != seq![UNDERSCORE]) by {
                if all.subrange(start as int, end as int) == seq![UNDERSCORE] {
                    assert(all.subrange(start as int, end as int).len() == 1);
                    assert(all.subrange(start as int, end as int)[0] == UNDERSCORE);
                }
            }
            lemma_boundary_after_ascii(all, open as int);
            lemma_boundary_after_ascii(all, end as int);
        }
        Capture::Named(substring(s, start, end))
    };
    Ok(PatternDescriptor::Triple(prefix, capture, suffix))
}

} // verus!
