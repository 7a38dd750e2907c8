//! Why a capture never cuts a character in two.
//!
//! The subject of a match is text, its pattern came from text, and both
//! are compared as UTF-8 bytes. The facts below show that the bytes a
//! capture covers are text again.

use vstd::prelude::*;
use vstd::utf8::is_char_boundary;
use vstd::utf8::is_continuation_byte;
use vstd::utf8::length_of_first_scalar;
use vstd::utf8::pop_first_scalar;
use vstd::utf8::take_first_scalar;
use vstd::utf8::valid_first_scalar;
use vstd::utf8::valid_utf8;
use crate::descriptor::DescriptorView;
use crate::grammar::find_close;
use crate::grammar::lemma_find_close_bound;
use crate::grammar::lemma_literal_run_bound;
use crate::grammar::is_brace;
use crate::grammar::literal_run;
use crate::grammar::parse_spec;
use crate::grammar::unescape;

verus! {

impl DescriptorView {
    /// Whether the fixed parts of the pattern are UTF-8 text.
    pub open spec fn is_text(self) -> bool {
        valid_utf8(self.prefix()) && valid_utf8(self.suffix())
    }
}

/// In UTF-8 text the byte after an ASCII byte starts a character.
pub proof fn lemma_boundary_after_ascii(b: Seq<u8>, i: int)
    requires
        valid_utf8(b),
        0 <= i < b.len(),
        b[i] < 0x80,
    ensures
        is_char_boundary(b, i),
        is_char_boundary(b, i + 1),
{
    vstd::utf8::is_char_boundary_iff_not_is_continuation_byte(b, i);
    vstd::utf8::valid_utf8_split(b, i);
    let t = b.subrange(i, b.len() as int);
    assert(t[0] == b[i]);
    assert(valid_first_scalar(t) && valid_utf8(pop_first_scalar(t)));
    assert(pop_first_scalar(t) =~= b.subrange(i + 1, b.len() as int));
    if i + 1 == b.len() {
        vstd::utf8::is_char_boundary_start_end_of_seq(b);
    } else {
        let u = pop_first_scalar(t);
        assert(valid_first_scalar(u));
        assert(u[0] == b[i + 1]);
        assert(!is_continuation_byte(b[i + 1]));
        vstd::utf8::is_char_boundary_iff_not_is_continuation_byte(b, i + 1);
    }
}

/// Text that starts with other text has a character boundary where that
/// other text ends.
pub proof fn lemma_prefix_ends_on_boundary(x: Seq<u8>, p: Seq<u8>)
    requires
        valid_utf8(x),
        valid_utf8(p),
        p.is_prefix_of(x),
    ensures
        is_char_boundary(x, p.len() as int),
    decreases p.len(),
{
    if p.len() > 0 {
        assert(x[0] == p[0]);
        let l = length_of_first_scalar(p);
        assert(length_of_first_scalar(x) == l);
        assert(valid_first_scalar(p) && valid_first_scalar(x));
        assert(1 <= l <= p.len());
        let px = pop_first_scalar(x);
        let pp = pop_first_scalar(p);
        assert(pp =~= px.subrange(0, pp.len() as int));
        lemma_prefix_ends_on_boundary(px, pp);
        assert(pp.len() == p.len() - l);
    }
}

/// Text that ends with other text has a character boundary where that
/// other text starts.
pub proof fn lemma_suffix_starts_on_boundary(x: Seq<u8>, q: Seq<u8>)
    requires
        valid_utf8(x),
        valid_utf8(q),
        q.is_suffix_of(x),
    ensures
        is_char_boundary(x, x.len() - q.len()),
{
    if q.len() == 0 {
        vstd::utf8::is_char_boundary_start_end_of_seq(x);
    } else {
        let e = x.len() - q.len();
        assert(x[e] == q[0]);
        assert(valid_first_scalar(q));
        assert(!is_continuation_byte(q[0]));
        vstd::utf8::is_char_boundary_iff_not_is_continuation_byte(x, e);
    }
}

/// Bytes without a brace are copied as they are.
pub proof fn lemma_unescape_plain(c: Seq<u8>, rest: Seq<u8>)
    requires
        forall|i: int| 0 <= i < c.len() ==> !is_brace(c[i]),
    ensures
        unescape(c + rest) == c + unescape(rest),
    decreases c.len(),
{
    if c.len() == 0 {
        assert(c + rest =~= rest);
        assert(c + unescape(rest) =~= unescape(rest));
    } else {
        let s = c + rest;
        assert(s[0] == c[0]);
        assert(s.skip(1) =~= c.skip(1) + rest);
        lemma_unescape_plain(c.skip(1), rest);
        assert(seq![c[0]] + (c.skip(1) + unescape(rest)) =~= c + unescape(rest));
    }
}

/// Unescaping text gives text.
pub proof fn lemma_unescape_keeps_text(b: Seq<u8>)
    requires
        valid_utf8(b),
    ensures
        valid_utf8(unescape(b)),
    decreases b.len(),
{
    if b.len() > 0 {
        let l = length_of_first_scalar(b);
        let head = take_first_scalar(b);
        let tail = pop_first_scalar(b);
        assert(valid_first_scalar(b) && valid_utf8(tail));
        assert(valid_utf8(head)) by {
            reveal_with_fuel(valid_utf8, 2);
            assert(valid_first_scalar(head));
            assert(pop_first_scalar(head) =~= Seq::<u8>::empty());
        }
        if l == 1 {
            assert(head =~= seq![b[0]]);
            assert(tail =~= b.skip(1));
            if is_brace(b[0]) && b.len() >= 2 && b[1] == b[0] {
                assert(tail[0] == b[1]);
                assert(valid_first_scalar(tail) && valid_utf8(pop_first_scalar(tail)));
                assert(pop_first_scalar(tail) =~= b.skip(2));
                lemma_unescape_keeps_text(b.skip(2));
                vstd::utf8::valid_utf8_concat(head, unescape(b.skip(2)));
            } else {
                lemma_unescape_keeps_text(tail);
                vstd::utf8::valid_utf8_concat(head, unescape(tail));
            }
        } else {
            assert(!is_brace(b[0]));
            let c = b.subrange(1, l);
            assert forall|i: int| 0 <= i < c.len() implies !is_brace(c[i]) by {
                assert(c[i] == b[i + 1]);
                assert(is_continuation_byte(b[i + 1]));
            }
            assert(b.skip(1) =~= c + tail);
            lemma_unescape_plain(c, tail);
            assert(unescape(b) =~= head + unescape(tail)) by {
                assert(head =~= seq![b[0]] + c);
            }
            lemma_unescape_keeps_text(tail);
            vstd::utf8::valid_utf8_concat(head, unescape(tail));
        }
    }
}

/// The fixed parts of a pattern that was written as text are text.
pub proof fn compiled_pattern_is_text(s: Seq<u8>)
    requires
        valid_utf8(s),
    ensures
        parse_spec(s) matches Ok(d) ==> d.is_text(),
{
    let i = literal_run(s) as int;
    lemma_literal_run_bound(s);
    if i == s.len() {
        lemma_unescape_keeps_text(s);
        assert(valid_utf8(Seq::<u8>::empty()));
    } else if parse_spec(s) is Ok {
        let rest = s.skip(i + 1);
        let j = find_close(rest) as int;
        lemma_find_close_bound(rest);
        let tail = rest.skip(j + 1);
        let k = i + 1 + j;
        assert(rest[j] == s[k]);
        lemma_boundary_after_ascii(s, i);
        lemma_boundary_after_ascii(s, k);
        vstd::utf8::valid_utf8_split(s, i);
        vstd::utf8::valid_utf8_split(s, k + 1);
        assert(s.take(i) =~= s.subrange(0, i));
        assert(tail =~= s.subrange(k + 1, s.len() as int));
        lemma_unescape_keeps_text(s.take(i));
        lemma_unescape_keeps_text(tail);
    }
}

/// What the generated code relies on when it takes captured bytes for
/// text: if the subject is text and matches a pattern whose fixed parts
/// are text, the capture begins and ends on character boundaries, and the
/// bytes it covers are text.
pub proof fn captured_bytes_are_text(d: DescriptorView, x: Seq<u8>)
    requires
        d.is_text(),
        valid_utf8(x),
        d.matches(x),
    ensures
        is_char_boundary(x, d.prefix().len() as int),
        is_char_boundary(x, x.len() - d.suffix().len()),
        d is Triple ==> valid_utf8(d.captured(x)),
{
    match d {
        DescriptorView::Single(bytes) => {
            vstd::utf8::is_char_boundary_start_end_of_seq(x);
        },
        DescriptorView::Triple(p, _, q) => {
            let start = p.len() as int;
            let end = x.len() - q.len();
            assert(p.is_prefix_of(x)) by {
                assert(x.take(start) =~= x.subrange(0, start));
            }
            assert(q.is_suffix_of(x)) by {
                assert(x.skip(end) =~= x.subrange(end, x.len() as int));
            }
            lemma_prefix_ends_on_boundary(x, p);
            lemma_suffix_starts_on_boundary(x, q);
            vstd::utf8::valid_utf8_split(x, end);
            let head = x.subrange(0, end);
            assert(p.is_prefix_of(head)) by {
                assert(head.subrange(0, start) =~= x.subrange(0, start));
            }
            lemma_prefix_ends_on_boundary(head, p);
            vstd::utf8::valid_utf8_split(head, start);
            assert(head.subrange(start, head.len() as int) =~= d.captured(x));
        },
    }
}

} // verus!
