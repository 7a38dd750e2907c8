//! What the grammar guarantees, proved from its definition.

use vstd::prelude::*;
use vstd::utf8::decode_utf8;
use vstd::utf8::encode_utf8;
use crate::reading::is_capture_name_text;
use crate::reading::is_literal_text;
use crate::reading::lemma_capture_name_bytes;
use crate::reading::reading_bytes_is_reading_text;
use crate::reading::unescape_text;
use crate::text::captured_bytes_are_text;
use crate::descriptor::CaptureView;
use crate::grammar::pattern_of;
use crate::grammar::UNDERSCORE;
use crate::descriptor::DescriptorView;
use crate::grammar::capture_of;
use crate::grammar::find_close;
use crate::grammar::is_brace;
use crate::grammar::is_literal;
use crate::grammar::lemma_literal_run_bound;
use crate::grammar::literal_run;
use crate::grammar::parse_spec;
use crate::grammar::unescape;
use crate::grammar::PatternError;
use crate::grammar::CLOSE_BRACE;
use crate::grammar::OPEN_BRACE;

verus! {

/// A name that can stand between the braces of a capture group: it is not
/// empty, holds no `}`, and does not start with `{` (which would make the
/// opening brace a doubled one).
pub open spec fn is_capture_name(name: Seq<u8>) -> bool {
    &&& name.len() > 0
    &&& name[0] != OPEN_BRACE
    &&& forall|i: int| 0 <= i < name.len() ==> name[i] != CLOSE_BRACE
}

/// Whether `rest`, put behind a brace `b`, leaves that brace undoubled.
pub open spec fn leaves_alone(b: u8, rest: Seq<u8>) -> bool {
    rest.len() == 0 || rest[0] != b
}

/// Reading literal text goes through all of `p` and on into what follows.
pub proof fn lemma_literal_run_concat(p: Seq<u8>, r: Seq<u8>)
    requires
        is_literal(p),
    ensures
        literal_run(p + r) == p.len() + literal_run(r),
    decreases p.len(),
{
    if p.len() == 0 {
        assert(p + r =~= r);
    } else if !is_brace(p[0]) {
        lemma_literal_run_bound(p.skip(1));
        assert((p + r).skip(1) =~= p.skip(1) + r);
        lemma_literal_run_concat(p.skip(1), r);
    } else {
        assert(p.len() >= 2 && p[1] == p[0]);
        assert((p + r).skip(2) =~= p.skip(2) + r);
        lemma_literal_run_concat(p.skip(2), r);
    }
}

/// Unescaping literal text followed by more text unescapes both parts.
pub proof fn lemma_unescape_concat(p: Seq<u8>, r: Seq<u8>)
    requires
        is_literal(p),
    ensures
        unescape(p + r) == unescape(p) + unescape(r),
    decreases p.len(),
{
    if p.len() == 0 {
        assert(p + r =~= r);
        assert(unescape(p) + unescape(r) =~= unescape(r));
    } else if !is_brace(p[0]) {
        assert((p + r).skip(1) =~= p.skip(1) + r);
        lemma_unescape_concat(p.skip(1), r);
        assert(seq![p[0]] + (unescape(p.skip(1)) + unescape(r)) =~= (seq![p[0]] + unescape(
            p.skip(1),
        )) + unescape(r));
    } else {
        assert(p.len() >= 2 && p[1] == p[0]);
        assert((p + r).skip(2) =~= p.skip(2) + r);
        lemma_unescape_concat(p.skip(2), r);
        assert(seq![p[0]] + (unescape(p.skip(2)) + unescape(r)) =~= (seq![p[0]] + unescape(
            p.skip(2),
        )) + unescape(r));
    }
}

/// The first `}` behind a run of bytes without one is right behind the run.
pub proof fn lemma_find_close_concat(name: Seq<u8>, r: Seq<u8>)
    requires
        forall|i: int| 0 <= i < name.len() ==> name[i] != CLOSE_BRACE,
    ensures
        find_close(name + r) == name.len() + find_close(r),
    decreases name.len(),
{
    if name.len() == 0 {
        assert(name + r =~= r);
    } else {
        assert((name + r)[0] == name[0]);
        assert((name + r).skip(1) =~= name.skip(1) + r);
        lemma_find_close_concat(name.skip(1), r);
    }
}

/// Literal text followed by a brace that is not doubled is read up to that
/// brace.
pub proof fn lemma_literal_run_stops(p: Seq<u8>, b: u8, rest: Seq<u8>)
    requires
        is_literal(p),
        is_brace(b),
        leaves_alone(b, rest),
    ensures
        literal_run(p + seq![b] + rest) == p.len(),
        (p + seq![b] + rest)[p.len() as int] == b,
        (p + seq![b] + rest).take(p.len() as int) == p,
        (p + seq![b] + rest).skip(p.len() as int + 1) == rest,
{
    let s = p + seq![b] + rest;
    assert(s =~= p + (seq![b] + rest));
    lemma_literal_run_concat(p, seq![b] + rest);
    let t = seq![b] + rest;
    assert(t[0] == b);
    if rest.len() > 0 {
        assert(t[1] == rest[0]);
    }
    assert(literal_run(t) == 0);
    assert(s.take(p.len() as int) =~= p);
    assert(s.skip(p.len() as int + 1) =~= rest);
}

/// A pattern without any capture matches exactly one subject: its own text
/// with every doubled brace made single.
pub proof fn literal_pattern_matches_exactly(s: Seq<u8>, x: Seq<u8>)
    requires
        is_literal(s),
    ensures
        parse_spec(s) == Ok::<DescriptorView, PatternError>(DescriptorView::Single(unescape(s))),
        parse_spec(s)->Ok_0.matches(x) <==> x == unescape(s),
{
}

/// A pattern made of literal text, one capture group and literal text
/// compiles to the triple of the unescaped prefix, the capture and the
/// unescaped suffix. A subject matches it iff it starts with the prefix,
/// ends with the suffix and is long enough for both; what lies between
/// them is what the capture covers.
pub proof fn capture_pattern_splits(prefix: Seq<u8>, name: Seq<u8>, suffix: Seq<u8>, x: Seq<u8>)
    requires
        is_literal(prefix),
        is_capture_name(name),
        is_literal(suffix),
    ensures
        ({
            let s = prefix + seq![OPEN_BRACE] + name + seq![CLOSE_BRACE] + suffix;
            let d = DescriptorView::Triple(unescape(prefix), capture_of(name), unescape(suffix));
            let p = unescape(prefix);
            let q = unescape(suffix);
            &&& parse_spec(s) == Ok::<DescriptorView, PatternError>(d)
            &&& d.matches(x) <==> (p.len() + q.len() <= x.len() && p.is_prefix_of(x)
                && q.is_suffix_of(x))
            &&& d.matches(x) ==> x == p + d.captured(x) + q
        }),
{
    let after = name + seq![CLOSE_BRACE] + suffix;
    let s = prefix + seq![OPEN_BRACE] + name + seq![CLOSE_BRACE] + suffix;
    assert(s =~= prefix + seq![OPEN_BRACE] + after);
    assert(after[0] == name[0]);
    lemma_literal_run_stops(prefix, OPEN_BRACE, after);
    assert(after =~= name + (seq![CLOSE_BRACE] + suffix));
    lemma_find_close_concat(name, seq![CLOSE_BRACE] + suffix);
    assert((seq![CLOSE_BRACE] + suffix)[0] == CLOSE_BRACE);
    assert(find_close(seq![CLOSE_BRACE] + suffix) == 0);
    assert(after.take(name.len() as int) =~= name);
    assert(after.skip(name.len() as int + 1) =~= suffix);
    let d = DescriptorView::Triple(unescape(prefix), capture_of(name), unescape(suffix));
    let p = unescape(prefix);
    let q = unescape(suffix);
    if d.matches(x) {
        assert(x =~= p + d.captured(x) + q);
    }
    if p.len() + q.len() <= x.len() && p.is_prefix_of(x) && q.is_suffix_of(x) {
        assert(x.take(p.len() as int) =~= p);
        assert(x.skip(x.len() - q.len()) =~= q);
    }
}

/// A `{` that is not doubled and has no `}` anywhere behind it opens a
/// capture that never ends.
pub proof fn open_without_close_is_unterminated(prefix: Seq<u8>, rest: Seq<u8>)
    requires
        is_literal(prefix),
        leaves_alone(OPEN_BRACE, rest),
        forall|i: int| 0 <= i < rest.len() ==> rest[i] != CLOSE_BRACE,
    ensures
        parse_spec(prefix + seq![OPEN_BRACE] + rest) == Err::<DescriptorView, PatternError>(
            PatternError::Unterminated,
        ),
{
    lemma_literal_run_stops(prefix, OPEN_BRACE, rest);
    lemma_find_close_concat(rest, Seq::empty());
    assert(rest + Seq::<u8>::empty() =~= rest);
}

/// A `}` that is not doubled, in the text before any capture, is an error.
pub proof fn close_in_prefix_is_unmatched(prefix: Seq<u8>, rest: Seq<u8>)
    requires
        is_literal(prefix),
        leaves_alone(CLOSE_BRACE, rest),
    ensures
        parse_spec(prefix + seq![CLOSE_BRACE] + rest) == Err::<DescriptorView, PatternError>(
            PatternError::UnmatchedClose,
        ),
{
    lemma_literal_run_stops(prefix, CLOSE_BRACE, rest);
}

/// What a brace that is not doubled does in the text behind a capture
/// group: a `}` there is unmatched, a `{` there opens a second group, and
/// either is an error whatever follows.
pub proof fn brace_after_capture_is_rejected(
    prefix: Seq<u8>,
    name: Seq<u8>,
    middle: Seq<u8>,
    b: u8,
    rest: Seq<u8>,
)
    requires
        is_literal(prefix),
        is_capture_name(name),
        is_literal(middle),
        is_brace(b),
        leaves_alone(b, rest),
    ensures
        parse_spec(
            prefix + seq![OPEN_BRACE] + name + seq![CLOSE_BRACE] + middle + seq![b] + rest,
        ) == Err::<DescriptorView, PatternError>(
            if b == CLOSE_BRACE {
                PatternError::UnmatchedClose
            } else {
                PatternError::DuplicateCapture
            },
        ),
{
    let tail = middle + seq![b] + rest;
    let after = name + seq![CLOSE_BRACE] + tail;
    let s = prefix + seq![OPEN_BRACE] + name + seq![CLOSE_BRACE] + middle + seq![b] + rest;
    assert(s =~= prefix + seq![OPEN_BRACE] + after);
    assert(after[0] == name[0]);
    lemma_literal_run_stops(prefix, OPEN_BRACE, after);
    assert(after =~= name + (seq![CLOSE_BRACE] + tail));
    lemma_find_close_concat(name, seq![CLOSE_BRACE] + tail);
    assert((seq![CLOSE_BRACE] + tail)[0] == CLOSE_BRACE);
    assert(find_close(seq![CLOSE_BRACE] + tail) == 0);
    assert(after.take(name.len() as int) =~= name);
    assert(after.skip(name.len() as int + 1) =~= tail);
    lemma_literal_run_stops(middle, b, rest);
}

/// Two capture groups in one pattern are one too many.
pub proof fn second_capture_is_duplicate(
    prefix: Seq<u8>,
    first: Seq<u8>,
    middle: Seq<u8>,
    second: Seq<u8>,
    rest: Seq<u8>,
)
    requires
        is_literal(prefix),
        is_capture_name(first),
        is_literal(middle),
        is_capture_name(second),
    ensures
        parse_spec(
            prefix + seq![OPEN_BRACE] + first + seq![CLOSE_BRACE] + middle + seq![OPEN_BRACE]
                + (second + seq![CLOSE_BRACE] + rest),
        ) == Err::<DescriptorView, PatternError>(PatternError::DuplicateCapture),
{
    let r = second + seq![CLOSE_BRACE] + rest;
    assert(r[0] == second[0]);
    brace_after_capture_is_rejected(prefix, first, middle, OPEN_BRACE, r);
}

/// A doubled brace stands for one brace.
pub proof fn doubled_brace_is_one(b: u8)
    requires
        is_brace(b),
    ensures
        is_literal(seq![b, b]),
        unescape(seq![b, b]) == seq![b],
        parse_spec(seq![b, b]) == Ok::<DescriptorView, PatternError>(
            DescriptorView::Single(seq![b]),
        ),
{
    let s = seq![b, b];
    assert(s.skip(2) =~= Seq::<u8>::empty());
    assert(literal_run(s) == 2) by {
        reveal_with_fuel(literal_run, 2);
    }
    assert(unescape(s) =~= seq![b]) by {
        reveal_with_fuel(unescape, 2);
    }
}

/// The UTF-8 bytes of two texts, one behind the other.
pub proof fn lemma_encode_concat(a: Seq<char>, b: Seq<char>)
    ensures
        encode_utf8(a + b) == encode_utf8(a) + encode_utf8(b),
    decreases a.len(),
{
    if a.len() == 0 {
        assert(a + b =~= b);
        assert(encode_utf8(a) + encode_utf8(b) =~= encode_utf8(b));
    } else {
        assert((a + b).drop_first() =~= a.drop_first() + b);
        lemma_encode_concat(a.drop_first(), b);
        assert(encode_utf8(a + b) =~= encode_utf8(a) + encode_utf8(b));
    }
}

/// The UTF-8 bytes of the characters `{`, `}` and `_`.
pub proof fn lemma_encode_marks()
    ensures
        encode_utf8(seq!['{']) == seq![OPEN_BRACE],
        encode_utf8(seq!['}']) == seq![CLOSE_BRACE],
        encode_utf8(seq!['_']) == seq![UNDERSCORE],
{
    reveal_with_fuel(encode_utf8, 2);
    assert(0x7bu32 & 0x7f == 0x7b) by (bit_vector);
    assert(0x7du32 & 0x7f == 0x7d) by (bit_vector);
    assert(0x5fu32 & 0x7f == 0x5f) by (bit_vector);
    assert(seq!['{'].drop_first() =~= Seq::<char>::empty());
    assert(seq!['}'].drop_first() =~= Seq::<char>::empty());
    assert(seq!['_'].drop_first() =~= Seq::<char>::empty());
    assert(encode_utf8(seq!['{']) =~= seq![OPEN_BRACE]);
    assert(encode_utf8(seq!['}']) =~= seq![CLOSE_BRACE]);
    assert(encode_utf8(seq!['_']) =~= seq![UNDERSCORE]);
}

/// What the text between the braces asks for: `_` throws the captured
/// text away, any other name binds it.
pub proof fn capture_of_text(name: Seq<char>)
    ensures
        capture_of(encode_utf8(name)) == if name == seq!['_'] {
            CaptureView::Wild
        } else {
            CaptureView::Named(name)
        },
{
    lemma_encode_marks();
    vstd::utf8::encode_utf8_decode_utf8(name);
    vstd::utf8::encode_utf8_decode_utf8(seq!['_']);
}

/// A pattern string without any capture matches exactly one text: itself
/// with every doubled brace made single.
pub proof fn literal_text_matches_exactly(s: Seq<char>, x: Seq<char>)
    requires
        is_literal_text(s),
    ensures
        pattern_of(s) == Ok::<DescriptorView, PatternError>(
            DescriptorView::Single(encode_utf8(unescape_text(s))),
        ),
        pattern_of(s)->Ok_0.matches(encode_utf8(x)) <==> x == unescape_text(s),
{
    reading_bytes_is_reading_text(s);
    vstd::utf8::encode_utf8_decode_utf8(x);
    vstd::utf8::encode_utf8_decode_utf8(unescape_text(s));
}

/// The pattern string `prefix{name}suffix`, with literal text on both
/// sides, compiles to the unescaped prefix, the capture that `name` asks
/// for, and the unescaped suffix. A text matches it iff it starts with the
/// prefix, ends with the suffix and is long enough for both; the name, if
/// it is not `_`, is bound to what lies between them.
pub proof fn capture_text_splits(
    prefix: Seq<char>,
    name: Seq<char>,
    suffix: Seq<char>,
    x: Seq<char>,
)
    requires
        is_literal_text(prefix),
        is_capture_name_text(name),
        is_literal_text(suffix),
    ensures
        ({
            let s = prefix + seq!['{'] + name + seq!['}'] + suffix;
            let before = unescape_text(prefix);
            let after = unescape_text(suffix);
            let capture = if name == seq!['_'] {
                CaptureView::Wild
            } else {
                CaptureView::Named(name)
            };
            let d = DescriptorView::Triple(encode_utf8(before), capture, encode_utf8(after));
            let middle = x.subrange(before.len() as int, x.len() - after.len());
            &&& pattern_of(s) == Ok::<DescriptorView, PatternError>(d)
            &&& d.bound_name() == if name == seq!['_'] {
                None
            } else {
                Some(name)
            }
            &&& d.matches(encode_utf8(x)) <==> (before.len() + after.len() <= x.len()
                && before.is_prefix_of(x) && after.is_suffix_of(x))
            &&& d.matches(encode_utf8(x)) ==> d.captured(encode_utf8(x)) == encode_utf8(middle)
        }),
{
    let s = prefix + seq!['{'] + name + seq!['}'] + suffix;
    let before = unescape_text(prefix);
    let after = unescape_text(suffix);
    let p = encode_utf8(before);
    let q = encode_utf8(after);
    let bytes = encode_utf8(x);
    lemma_encode_marks();
    lemma_encode_concat(prefix + seq!['{'] + name + seq!['}'], suffix);
    lemma_encode_concat(prefix + seq!['{'] + name, seq!['}']);
    lemma_encode_concat(prefix + seq!['{'], name);
    lemma_encode_concat(prefix, seq!['{']);
    capture_of_text(name);
    reading_bytes_is_reading_text(prefix);
    reading_bytes_is_reading_text(suffix);
    lemma_capture_name_bytes(name);
    capture_pattern_splits(encode_utf8(prefix), encode_utf8(name), encode_utf8(suffix), bytes);
    let d = DescriptorView::Triple(p, capture_of(encode_utf8(name)), q);
    vstd::utf8::encode_utf8_valid_utf8(before);
    vstd::utf8::encode_utf8_valid_utf8(after);
    vstd::utf8::encode_utf8_valid_utf8(x);
    vstd::utf8::encode_utf8_decode_utf8(x);
    if d.matches(bytes) {
        captured_bytes_are_text(d, bytes);
        let cap = d.captured(bytes);
        let mid = decode_utf8(cap);
        vstd::utf8::decode_utf8_encode_utf8(cap);
        lemma_encode_concat(before, mid);
        lemma_encode_concat(before + mid, after);
        assert(bytes == encode_utf8(before + mid + after));
        vstd::utf8::encode_utf8_decode_utf8(before + mid + after);
        assert(x == before + mid + after);
        assert(x.subrange(before.len() as int, x.len() - after.len()) =~= mid);
        assert(before.is_prefix_of(x));
        assert(after.is_suffix_of(x));
    }
    if before.len() + after.len() <= x.len() && before.is_prefix_of(x) && after.is_suffix_of(x) {
        let mid = x.subrange(before.len() as int, x.len() - after.len());
        assert(x =~= before + mid + after);
        lemma_encode_concat(before, mid);
        lemma_encode_concat(before + mid, after);
        let m = encode_utf8(mid);
        assert(bytes == p + m + q);
        assert(bytes.take(p.len() as int) =~= p);
        assert(bytes.skip(bytes.len() - q.len()) =~= q);
        assert(d.matches(bytes));
    }
}

} // verus!
