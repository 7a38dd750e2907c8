//! The grammar read character by character, and why that is the same as
//! reading it byte by byte.
//!
//! The compiler works on the UTF-8 bytes of a pattern. Both braces are
//! single bytes that occur in no longer character, so the pattern can as
//! well be understood as a sequence of characters; the facts below say so.

use vstd::prelude::*;
use vstd::utf8::encode_scalar;
use vstd::utf8::encode_utf8;
use crate::grammar::is_brace;
use crate::grammar::is_literal;
use crate::grammar::lemma_literal_run_bound;
use crate::grammar::literal_run;
use crate::grammar::unescape;
use crate::grammar::CLOSE_BRACE;
use crate::grammar::OPEN_BRACE;
use crate::laws::is_capture_name;
use crate::text::lemma_unescape_plain;

verus! {

pub open spec fn is_brace_char(c: char) -> bool {
    c == '{' || c == '}'
}

/// How many characters at the start of `s` read as literal text.
pub open spec fn literal_run_text(s: Seq<char>) -> nat
    decreases s.len(),
{
    if s.len() == 0 {
        0
    } else if !is_brace_char(s[0]) {
        1 + literal_run_text(s.skip(1))
    } else if s.len() >= 2 && s[1] == s[0] {
        2 + literal_run_text(s.skip(2))
    } else {
        0
    }
}

/// Literal text is text all of whose braces are doubled.
pub open spec fn is_literal_text(s: Seq<char>) -> bool {
    literal_run_text(s) == s.len()
}

/// Literal text with each doubled brace made single.
pub open spec fn unescape_text(s: Seq<char>) -> Seq<char>
    decreases s.len(),
{
    if s.len() == 0 {
        Seq::empty()
    } else if is_brace_char(s[0]) && s.len() >= 2 && s[1] == s[0] {
        seq![s[0]] + unescape_text(s.skip(2))
    } else {
        seq![s[0]] + unescape_text(s.skip(1))
    }
}

/// A name that can stand between the braces of a capture group.
pub open spec fn is_capture_name_text(name: Seq<char>) -> bool {
    &&& name.len() > 0
    &&& name[0] != '{'
    &&& forall|i: int| 0 <= i < name.len() ==> name[i] != '}'
}

/// The bytes of one character: an ASCII character is its own single byte,
/// and no byte of another character is an ASCII byte.
pub proof fn lemma_encode_char(c: char)
    ensures
        ({
            let e = encode_scalar(c as u32);
            &&& 1 <= e.len() <= 4
            &&& (c as u32) < 0x80 ==> e == seq![(c as u32) as u8]
            &&& (c as u32) >= 0x80 ==> forall|i: int| 0 <= i < e.len() ==> e[i] >= 0x80
            &&& is_brace_char(c) <==> is_brace(e[0])
            &&& c == '{' <==> e[0] == OPEN_BRACE
            &&& c == '}' <==> e[0] == CLOSE_BRACE
        }),
{
    let s = c as u32;
    let e = encode_scalar(s);
    vstd::utf8::char_is_scalar(c);
    if s < 0x80 {
        assert((s & 0x7f) as u8 == s as u8) by (bit_vector)
            requires
                s < 0x80,
        ;
        assert(e =~= seq![s as u8]);
        assert(s as u8 == s);
    } else {
        let x1 = ((s >> 6) & 0x1f) as u8;
        let x2 = ((s >> 12) & 0x0f) as u8;
        let x3 = ((s >> 18) & 0x7) as u8;
        let y1 = (s & 0x3f) as u8;
        let y2 = ((s >> 6) & 0x3f) as u8;
        let y3 = ((s >> 12) & 0x3f) as u8;
        assert(0xc0u8 | x1 >= 0x80) by (bit_vector);
        assert(0xe0u8 | x2 >= 0x80) by (bit_vector);
        assert(0xf0u8 | x3 >= 0x80) by (bit_vector);
        assert(0x80u8 | y1 >= 0x80) by (bit_vector);
        assert(0x80u8 | y2 >= 0x80) by (bit_vector);
        assert(0x80u8 | y3 >= 0x80) by (bit_vector);
    }
    assert('{' as u32 == 0x7b);
    assert('}' as u32 == 0x7d);
    if e[0] == OPEN_BRACE {
        vstd::utf8::char_u32_cast(c, s);
        vstd::utf8::char_u32_cast('{', 0x7b);
    }
    if e[0] == CLOSE_BRACE {
        vstd::utf8::char_u32_cast(c, s);
        vstd::utf8::char_u32_cast('}', 0x7d);
    }
}

/// The bytes of a text begin with the bytes of its first character.
pub proof fn lemma_encode_first(s: Seq<char>)
    requires
        s.len() > 0,
    ensures
        encode_utf8(s) == encode_scalar(s[0] as u32) + encode_utf8(s.skip(1)),
        encode_utf8(s).len() > 0,
        encode_utf8(s)[0] == encode_scalar(s[0] as u32)[0],
{
    lemma_encode_char(s[0]);
    assert(s.drop_first() =~= s.skip(1));
}

/// Bytes without a brace are read through as literal text.
pub proof fn lemma_literal_run_plain(c: Seq<u8>, rest: Seq<u8>)
    requires
        forall|i: int| 0 <= i < c.len() ==> !is_brace(c[i]),
    ensures
        literal_run(c + rest) == c.len() + literal_run(rest),
    decreases c.len(),
{
    if c.len() == 0 {
        assert(c + rest =~= rest);
    } else {
        let s = c + rest;
        assert(s[0] == c[0]);
        assert(s.skip(1) =~= c.skip(1) + rest);
        lemma_literal_run_plain(c.skip(1), rest);
    }
}

/// Reading a text as characters and reading its bytes agree: it is literal
/// text either way, and unescaping it gives the same text.
pub proof fn reading_bytes_is_reading_text(s: Seq<char>)
    ensures
        is_literal(encode_utf8(s)) <==> is_literal_text(s),
        unescape(encode_utf8(s)) == encode_utf8(unescape_text(s)),
    decreases s.len(),
{
    if s.len() == 0 {
    } else {
        let c = s[0];
        let e = encode_scalar(c as u32);
        let rest = s.skip(1);
        let bytes = encode_utf8(s);
        lemma_encode_char(c);
        lemma_encode_first(s);
        lemma_literal_run_bound(encode_utf8(rest));
        lemma_literal_run_text_bound(rest);
        if is_brace_char(c) {
            assert(e =~= seq![e[0]]);
            assert(bytes.skip(1) =~= encode_utf8(rest));
            if rest.len() > 0 {
                lemma_encode_char(rest[0]);
                lemma_encode_first(rest);
                vstd::utf8::char_u32_cast(c, c as u32);
                vstd::utf8::char_u32_cast(rest[0], rest[0] as u32);
            }
            if s.len() >= 2 && s[1] == c {
                let after = s.skip(2);
                assert(rest.skip(1) =~= after);
                assert(encode_scalar(rest[0] as u32) =~= seq![e[0]]);
                assert(bytes[1] == bytes[0]);
                assert(bytes.skip(2) =~= encode_utf8(after));
                reading_bytes_is_reading_text(after);
                lemma_literal_run_bound(encode_utf8(after));
                lemma_literal_run_text_bound(after);
                lemma_encode_first(seq![c] + unescape_text(after));
                assert((seq![c] + unescape_text(after)).skip(1) =~= unescape_text(after));
            } else {
                assert(bytes.len() < 2 || bytes[1] != bytes[0]) by {
                    if rest.len() > 0 {
                        assert(bytes[1] == encode_utf8(rest)[0]);
                    } else {
                        assert(encode_utf8(rest).len() == 0);
                    }
                }
                reading_bytes_is_reading_text(rest);
                lemma_encode_first(seq![c] + unescape_text(rest));
                assert((seq![c] + unescape_text(rest)).skip(1) =~= unescape_text(rest));
            }
        } else {
            assert forall|i: int| 0 <= i < e.len() implies !is_brace(e[i]) by {
                if (c as u32) < 0x80 {
                    assert(i == 0);
                }
            }
            lemma_literal_run_plain(e, encode_utf8(rest));
            lemma_unescape_plain(e, encode_utf8(rest));
            reading_bytes_is_reading_text(rest);
            lemma_encode_first(seq![c] + unescape_text(rest));
            assert((seq![c] + unescape_text(rest)).skip(1) =~= unescape_text(rest));
        }
    }
}

/// Reading literal text stops inside the text.
pub proof fn lemma_literal_run_text_bound(s: Seq<char>)
    ensures
        literal_run_text(s) <= s.len(),
    decreases s.len(),
{
    if s.len() == 0 {
    } else if !is_brace_char(s[0]) {
        lemma_literal_run_text_bound(s.skip(1));
    } else if s.len() >= 2 && s[1] == s[0] {
        lemma_literal_run_text_bound(s.skip(2));
    }
}

/// A text without `}` has no byte `}`.
pub proof fn lemma_no_close(name: Seq<char>)
    requires
        forall|i: int| 0 <= i < name.len() ==> name[i] != '}',
    ensures
        forall|i: int| 0 <= i < encode_utf8(name).len() ==> encode_utf8(name)[i] != CLOSE_BRACE,
    decreases name.len(),
{
    if name.len() > 0 {
        let e = encode_scalar(name[0] as u32);
        let rest = name.skip(1);
        lemma_encode_char(name[0]);
        lemma_encode_first(name);
        assert forall|i: int| 0 <= i < rest.len() implies rest[i] != '}' by {
            assert(rest[i] == name[i + 1]);
        }
        lemma_no_close(rest);
        assert forall|i: int| 0 <= i < encode_utf8(name).len() implies encode_utf8(name)[i]
            != CLOSE_BRACE by {
            if i < e.len() {
                assert(encode_utf8(name)[i] == e[i]);
                if (name[0] as u32) < 0x80 {
                    assert(i == 0);
                }
            } else {
                assert(encode_utf8(name)[i] == encode_utf8(rest)[i - e.len()]);
            }
        }
    }
}

/// A name in the sense of characters is one in the sense of bytes.
pub proof fn lemma_capture_name_bytes(name: Seq<char>)
    requires
        is_capture_name_text(name),
    ensures
        is_capture_name(encode_utf8(name)),
{
    lemma_encode_char(name[0]);
    lemma_encode_first(name);
    lemma_no_close(name);
}

} // verus!
