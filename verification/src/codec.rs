//! The encode/decode transformations over percent-escaped text.
//!
//! The encoder keeps every character of a fixed ASCII set literally and
//! replaces each other code point by one `%XX` token per byte of its UTF-8
//! encoding.  The decoder replaces every `%XX` token by its byte and reads
//! the reassembled bytes as UTF-8; a `%` not followed by two hexadecimal
//! digits, or bytes that are not valid UTF-8, are rejected as malformed.

use crate::hex::{hex_digit, hex_digit_of, hex_val, hex_value, lemma_hex_digit_round_trip};
use crate::unicode::{is_valid_utf8, string_from_utf8};
use vstd::prelude::*;
use vstd::utf8::{
    char_is_scalar, decode_utf8, decode_utf8_encode_utf8, encode_scalar, encode_utf8,
    encode_utf8_decode_utf8, encode_utf8_valid_utf8, has_width_1_encoding, is_ascii_chars,
    last_continuation_byte, leading_byte_width_2, leading_byte_width_3, leading_byte_width_4,
    second_last_continuation_byte, third_last_continuation_byte, valid_utf8,
};

verus! {

/// The decoder's single error: a `%` not followed by two hexadecimal digits,
/// or reassembled bytes that are not valid UTF-8.
#[derive(Clone, Copy, Debug, PartialEq, Eq, Structural)]
pub enum UriError {
    MalformedEscape,
}

/// The fixed set of ASCII bytes that the encoder passes through literally:
/// letters, digits, the marks `- _ . ! ~ * ' ( )`, and the URI-reserved
/// punctuation `; , / ? : @ & = + $ #`.
pub open spec fn uri_unescaped(b: u8) -> bool {
    ||| (('A' as u8) <= b && b <= ('Z' as u8))
    ||| (('a' as u8) <= b && b <= ('z' as u8))
    ||| (('0' as u8) <= b && b <= ('9' as u8))
    ||| b == ('-' as u8)
    ||| b == ('_' as u8)
    ||| b == ('.' as u8)
    ||| b == ('!' as u8)
    ||| b == ('~' as u8)
    ||| b == ('*' as u8)
    ||| b == ('\'' as u8)
    ||| b == ('(' as u8)
    ||| b == (')' as u8)
    ||| b == (';' as u8)
    ||| b == (',' as u8)
    ||| b == ('/' as u8)
    ||| b == ('?' as u8)
    ||| b == (':' as u8)
    ||| b == ('@' as u8)
    ||| b == ('&' as u8)
    ||| b == ('=' as u8)
    ||| b == ('+' as u8)
    ||| b == ('$' as u8)
    ||| b == ('#' as u8)
}

/// Returns whether the byte is in the unescaped set.
pub fn is_uri_unescaped(b: u8) -> (r: bool)
    ensures
        r == uri_unescaped(b),
{
    (('A' as u8) <= b && b <= ('Z' as u8)) || (('a' as u8) <= b && b <= ('z' as u8)) || (('0' as u8) <= b && b <= ('9' as u8)) || b == ('-' as u8)
        || b == ('_' as u8) || b == ('.' as u8) || b == ('!' as u8) || b == ('~' as u8) || b == ('*' as u8) || b == ('\'' as u8) || b == ('(' as u8)
        || b == (')' as u8) || b == (';' as u8) || b == (',' as u8) || b == ('/' as u8) || b == ('?' as u8) || b == (':' as u8) || b == ('@' as u8)
        || b == ('&' as u8) || b == ('=' as u8) || b == ('+' as u8) || b == ('$' as u8) || b == ('#' as u8)
}

/// The `%XX` token of one byte: `%` followed by two uppercase hex digits.
pub open spec fn percent_escape(b: u8) -> Seq<u8> {
    seq![('%' as u8), hex_digit_of(b / 16), hex_digit_of(b % 16)]
}

/// One byte of UTF-8 encoded text as the encoder emits it: literal when the
/// byte is in the unescaped set, percent-escaped otherwise.
pub open spec fn escape_byte(b: u8) -> Seq<u8> {
    if uri_unescaped(b) {
        seq![b]
    } else {
        percent_escape(b)
    }
}

/// The encoder's output bytes, over the UTF-8 bytes of the input text.
pub open spec fn escape_bytes(bs: Seq<u8>) -> Seq<u8>
    decreases bs.len(),
{
    if bs.len() == 0 {
        Seq::empty()
    } else {
        escape_byte(bs[0]) + escape_bytes(bs.drop_first())
    }
}

/// The decoder's first pass: every `%XX` token replaced by its byte, every
/// other byte passed through; `None` when a `%` is not followed by exactly
/// two hexadecimal digits.
pub open spec fn unescape_bytes(bs: Seq<u8>) -> Option<Seq<u8>>
    decreases bs.len(),
{
    if bs.len() == 0 {
        Some(Seq::empty())
    } else if bs[0] == ('%' as u8) {
        if bs.len() >= 3 && hex_val(bs[1]) is Some && hex_val(bs[2]) is Some {
            match unescape_bytes(bs.skip(3)) {
                Some(rest) => Some(
                    seq![((hex_val(bs[1])->Some_0 * 16 + hex_val(bs[2])->Some_0) as u8)] + rest,
                ),
                None => None,
            }
        } else {
            None
        }
    } else {
        match unescape_bytes(bs.skip(1)) {
            Some(rest) => Some(seq![bs[0]] + rest),
            None => None,
        }
    }
}

/// The two nibbles of a byte are hexadecimal digit values and recombine to
/// the byte itself.
pub proof fn lemma_nibbles(b: u8)
    by (bit_vector)
    ensures
        b / 16 < 16,
        b % 16 < 16,
        (b / 16) * 16 + (b % 16) == b,
{
}

/// Escaping distributes over concatenation.
pub proof fn lemma_escape_bytes_concat(a: Seq<u8>, b: Seq<u8>)
    ensures
        escape_bytes(a + b) == escape_bytes(a) + escape_bytes(b),
    decreases a.len(),
{
    if a.len() == 0 {
        assert(a + b =~= b);
        assert(escape_bytes(a) + escape_bytes(b) =~= escape_bytes(b));
    } else {
        assert((a + b).drop_first() =~= a.drop_first() + b);
        lemma_escape_bytes_concat(a.drop_first(), b);
        assert(escape_byte(a[0]) + (escape_bytes(a.drop_first()) + escape_bytes(b)) =~= (
        escape_byte(a[0]) + escape_bytes(a.drop_first())) + escape_bytes(b));
    }
}

/// Every byte the encoder emits is ASCII: the unescaped set, `%`, and the
/// hexadecimal digits all lie below `0x80`.
pub proof fn lemma_escape_bytes_ascii(bs: Seq<u8>)
    ensures
        forall|i: int| 0 <= i < escape_bytes(bs).len() ==> escape_bytes(bs)[i] < 0x80,
    decreases bs.len(),
{
    if bs.len() != 0 {
        lemma_escape_bytes_ascii(bs.drop_first());
        lemma_nibbles(bs[0]);
        let e0 = escape_byte(bs[0]);
        let er = escape_bytes(bs.drop_first());
        assert(escape_bytes(bs) == e0 + er);
        assert forall|i: int| 0 <= i < (e0 + er).len() implies (e0 + er)[i] < 0x80 by {
            if i >= e0.len() {
                assert((e0 + er)[i] == er[i - e0.len()]);
            }
        }
    }
}

/// A sequence of ASCII bytes is valid UTF-8.
pub proof fn lemma_ascii_bytes_valid_utf8(bs: Seq<u8>)
    requires
        forall|i: int| 0 <= i < bs.len() ==> bs[i] < 0x80,
    ensures
        valid_utf8(bs),
    decreases bs.len(),
{
    if bs.len() != 0 {
        assert(vstd::utf8::valid_first_scalar(bs));
        assert(vstd::utf8::length_of_first_scalar(bs) == 1);
        assert(vstd::utf8::pop_first_scalar(bs) =~= bs.drop_first());
        lemma_ascii_bytes_valid_utf8(bs.drop_first());
    }
}

/// Unescaping recovers exactly the bytes that escaping was given.
pub proof fn lemma_unescape_escape(bs: Seq<u8>)
    ensures
        unescape_bytes(escape_bytes(bs)) == Some(bs),
    decreases bs.len(),
{
    if bs.len() == 0 {
        assert(unescape_bytes(escape_bytes(bs)) == Some(Seq::<u8>::empty()));
        assert(Seq::<u8>::empty() =~= bs);
    } else {
        let b = bs[0];
        let rest = bs.drop_first();
        lemma_unescape_escape(rest);
        let e = escape_bytes(bs);
        if uri_unescaped(b) {
            assert(e[0] == b && b != ('%' as u8));
            assert(e.skip(1) =~= escape_bytes(rest));
            assert(seq![b] + rest =~= bs);
        } else {
            let hi = b / 16;
            let lo = b % 16;
            lemma_nibbles(b);
            lemma_hex_digit_round_trip(hi);
            lemma_hex_digit_round_trip(lo);
            assert(e[0] == ('%' as u8) && e[1] == hex_digit_of(hi) && e[2] == hex_digit_of(lo));
            assert(e.len() >= 3);
            assert(e.skip(3) =~= escape_bytes(rest));
            assert((hi * 16 + lo) as u8 == b);
            assert(seq![b] + rest =~= bs);
        }
    }
}

/// The uppercase hexadecimal digit character for a value below 16.
pub open spec fn hex_char_of(v: u8) -> char {
    hex_digit_of(v) as char
}

/// True when the character is in the unescaped set; the set holds ASCII
/// characters only.
pub open spec fn uri_unescaped_char(c: char) -> bool {
    (c as u32) < 0x80 && uri_unescaped((c as u32) as u8)
}

/// One `%XX` token, as characters, for every byte of the sequence.
pub open spec fn percent_escape_chars(bs: Seq<u8>) -> Seq<char>
    decreases bs.len(),
{
    if bs.len() == 0 {
        Seq::empty()
    } else {
        seq!['%', hex_char_of(bs[0] / 16), hex_char_of(bs[0] % 16)]
            + percent_escape_chars(bs.drop_first())
    }
}

/// The encoder's output for one character: the character itself when it is in
/// the unescaped set, else one `%XX` token per byte of its UTF-8 encoding, in
/// byte order.
pub open spec fn encode_char(c: char) -> Seq<char> {
    if uri_unescaped_char(c) {
        seq![c]
    } else {
        percent_escape_chars(encode_scalar(c as u32))
    }
}

/// What encoding returns: every character of the input replaced by its
/// `encode_char` expansion, in order.
pub open spec fn encode_uri_chars(s: Seq<char>) -> Seq<char>
    decreases s.len(),
{
    if s.len() == 0 {
        Seq::empty()
    } else {
        encode_char(s[0]) + encode_uri_chars(s.drop_first())
    }
}

/// What decoding returns: the input's UTF-8 bytes with every `%XX` token
/// replaced by its byte, re-read as UTF-8 text; `None` on a malformed escape
/// or when the reassembled bytes are not valid UTF-8.
pub open spec fn decode_uri_chars(s: Seq<char>) -> Option<Seq<char>> {
    match unescape_bytes(encode_utf8(s)) {
        Some(bs) => if valid_utf8(bs) {
            Some(decode_utf8(bs))
        } else {
            None
        },
        None => None,
    }
}

// The UTF-8 encoding of an ASCII scalar is the one byte of its value.
proof fn lemma_encode_scalar_ascii(s: u32)
    requires
        s < 0x80,
    ensures
        encode_scalar(s) =~= seq![s as u8],
{
    assert((s & 0x7f) as u8 == s as u8) by (bit_vector)
        requires
            s < 0x80,
    ;
}

// Every byte of a multi-byte UTF-8 encoding has its high bit set.
proof fn lemma_multibyte_bytes_high(s: u32)
    by (bit_vector)
    ensures
        leading_byte_width_2(s) >= 0x80,
        leading_byte_width_3(s) >= 0x80,
        leading_byte_width_4(s) >= 0x80,
        last_continuation_byte(s) >= 0x80,
        second_last_continuation_byte(s) >= 0x80,
        third_last_continuation_byte(s) >= 0x80,
{
}

// Encoding characters to UTF-8 distributes over concatenation.
proof fn lemma_encode_utf8_concat(a: Seq<char>, b: Seq<char>)
    ensures
        encode_utf8(a + b) == encode_utf8(a) + encode_utf8(b),
    decreases a.len(),
{
    if a.len() == 0 {
        assert(a + b =~= b);
        assert(encode_utf8(a) + encode_utf8(b) =~= encode_utf8(b));
    } else {
        assert((a + b).drop_first() =~= a.drop_first() + b);
        lemma_encode_utf8_concat(a.drop_first(), b);
        assert((a + b)[0] == a[0]);
        assert(encode_scalar(a[0] as u32) + (encode_utf8(a.drop_first()) + encode_utf8(b)) =~= (
        encode_scalar(a[0] as u32) + encode_utf8(a.drop_first())) + encode_utf8(b));
    }
}

// No byte of the UTF-8 encoding of a character outside the unescaped set is
// in the unescaped set: its ASCII byte is excluded by assumption, and every
// byte of a multi-byte encoding lies above the ASCII range.
proof fn lemma_encode_scalar_escaped(c: char)
    requires
        !uri_unescaped_char(c),
    ensures
        forall|i: int|
            0 <= i < encode_scalar(c as u32).len() ==> !uri_unescaped(
                #[trigger] encode_scalar(c as u32)[i],
            ),
{
    char_is_scalar(c);
    let s = c as u32;
    lemma_multibyte_bytes_high(s);
    if has_width_1_encoding(s) {
        lemma_encode_scalar_ascii(s);
    }
}

// A sequence of `%XX` tokens over bytes that all lie outside the unescaped
// set encodes, as UTF-8, to exactly what escaping those bytes emits.
proof fn lemma_percent_escape_chars_bytes(bs: Seq<u8>)
    requires
        forall|i: int| 0 <= i < bs.len() ==> !uri_unescaped(#[trigger] bs[i]),
    ensures
        encode_utf8(percent_escape_chars(bs)) == escape_bytes(bs),
    decreases bs.len(),
{
    if bs.len() == 0 {
        assert(encode_utf8(percent_escape_chars(bs)) =~= escape_bytes(bs));
    } else {
        let b = bs[0];
        lemma_nibbles(b);
        let d1 = hex_digit_of(b / 16);
        let d2 = hex_digit_of(b % 16);
        let tok = seq!['%', hex_char_of(b / 16), hex_char_of(b % 16)];
        lemma_percent_escape_chars_bytes(bs.drop_first());
        lemma_encode_utf8_concat(tok, percent_escape_chars(bs.drop_first()));
        assert(encode_utf8(tok) =~= seq![('%' as u8), d1, d2]) by {
            reveal_with_fuel(encode_utf8, 4);
            assert(tok.drop_first() =~= seq![hex_char_of(b / 16), hex_char_of(b % 16)]);
            assert(tok.drop_first().drop_first() =~= seq![hex_char_of(b % 16)]);
            assert(seq![hex_char_of(b % 16)].drop_first() =~= Seq::<char>::empty());
            lemma_encode_scalar_ascii('%' as u32);
            lemma_encode_scalar_ascii(hex_char_of(b / 16) as u32);
            lemma_encode_scalar_ascii(hex_char_of(b % 16) as u32);
        }
        assert(escape_byte(b) == percent_escape(b));
        assert(seq![('%' as u8), d1, d2] + escape_bytes(bs.drop_first()) =~= escape_byte(b)
            + escape_bytes(bs.drop_first()));
    }
}

// The UTF-8 encoding of one character's expansion is what escaping the
// character's UTF-8 bytes emits.
proof fn lemma_encode_char_bytes(c: char)
    ensures
        encode_utf8(encode_char(c)) == escape_bytes(encode_scalar(c as u32)),
{
    char_is_scalar(c);
    let s = c as u32;
    if uri_unescaped_char(c) {
        lemma_encode_scalar_ascii(s);
        let b = s as u8;
        assert(encode_utf8(seq![c]) =~= encode_scalar(s)) by {
            reveal_with_fuel(encode_utf8, 2);
            assert(seq![c].drop_first() =~= Seq::<char>::empty());
        }
        assert(escape_bytes(seq![b]) =~= seq![b]) by {
            reveal_with_fuel(escape_bytes, 2);
            assert(seq![b].drop_first() =~= Seq::<u8>::empty());
        }
    } else {
        lemma_encode_scalar_escaped(c);
        lemma_percent_escape_chars_bytes(encode_scalar(s));
    }
}

// At the byte level, encoding a text is escaping its UTF-8 bytes.
proof fn lemma_encode_bytes(s: Seq<char>)
    ensures
        encode_utf8(encode_uri_chars(s)) == escape_bytes(encode_utf8(s)),
    decreases s.len(),
{
    if s.len() == 0 {
        assert(encode_utf8(encode_uri_chars(s)) =~= escape_bytes(encode_utf8(s)));
    } else {
        lemma_encode_bytes(s.drop_first());
        lemma_encode_utf8_concat(encode_char(s[0]), encode_uri_chars(s.drop_first()));
        lemma_encode_char_bytes(s[0]);
        lemma_escape_bytes_concat(encode_scalar(s[0] as u32), encode_utf8(s.drop_first()));
    }
}

// Texts with the same UTF-8 encoding are the same text.
proof fn lemma_encode_utf8_injective(a: Seq<char>, b: Seq<char>)
    requires
        encode_utf8(a) == encode_utf8(b),
    ensures
        a == b,
{
    encode_utf8_decode_utf8(a);
    encode_utf8_decode_utf8(b);
}

// A character below the ASCII bound compares as an ASCII character.
proof fn lemma_char_ascii_bound(c: char)
    requires
        (c as u32) < 0x80,
    ensures
        '\0' <= c <= '\x7f',
{
}

// A text whose UTF-8 bytes are all ASCII is made of ASCII characters.
proof fn lemma_utf8_ascii_chars(chars: Seq<char>)
    requires
        forall|i: int| 0 <= i < encode_utf8(chars).len() ==> encode_utf8(chars)[i] < 0x80,
    ensures
        is_ascii_chars(chars),
    decreases chars.len(),
{
    if chars.len() != 0 {
        let c = chars[0];
        char_is_scalar(c);
        let s = c as u32;
        let e0 = encode_scalar(s);
        let er = encode_utf8(chars.drop_first());
        assert(encode_utf8(chars) == e0 + er);
        assert((e0 + er)[0] == e0[0]);
        if !has_width_1_encoding(s) {
            lemma_multibyte_bytes_high(s);
            assert(false);
        }
        assert forall|i: int| 0 <= i < er.len() implies er[i] < 0x80 by {
            assert(er[i] == (e0 + er)[e0.len() + i]);
        }
        lemma_utf8_ascii_chars(chars.drop_first());
        assert forall|i: int| 0 <= i < chars.len() implies '\0' <= #[trigger] chars[i]
            <= '\x7f' by {
            if i == 0 {
                lemma_char_ascii_bound(c);
            } else {
                assert(chars[i] == chars.drop_first()[i - 1]);
                assert('\0' <= chars.drop_first()[i - 1]);
                assert(chars.drop_first()[i - 1] <= '\x7f');
            }
        }
    }
}

// The hexadecimal digit characters are letters and digits, so they lie in
// the unescaped set.
proof fn lemma_hex_char_unescaped(v: u8)
    requires
        v < 16,
    ensures
        uri_unescaped_char(hex_char_of(v)),
{
}

// Every character of a sequence of `%XX` tokens is `%` or an unescaped-set
// character.
proof fn lemma_percent_escape_chars_output(bs: Seq<u8>)
    ensures
        forall|i: int|
            0 <= i < percent_escape_chars(bs).len() ==> (uri_unescaped_char(
                #[trigger] percent_escape_chars(bs)[i],
            ) || percent_escape_chars(bs)[i] == '%'),
    decreases bs.len(),
{
    if bs.len() != 0 {
        lemma_percent_escape_chars_output(bs.drop_first());
        lemma_nibbles(bs[0]);
        lemma_hex_char_unescaped(bs[0] / 16);
        lemma_hex_char_unescaped(bs[0] % 16);
        let e0 = seq!['%', hex_char_of(bs[0] / 16), hex_char_of(bs[0] % 16)];
        let er = percent_escape_chars(bs.drop_first());
        assert(percent_escape_chars(bs) == e0 + er);
        assert forall|i: int|
            0 <= i < (e0 + er).len() implies (uri_unescaped_char(#[trigger] (e0 + er)[i]) || (e0
            + er)[i] == '%') by {
            if i >= e0.len() {
                assert((e0 + er)[i] == er[i - e0.len()]);
            }
        }
    }
}

/// Every character the encoder emits is an unescaped-set character or `%`:
/// its output alphabet never leaves that safe set, since the hexadecimal
/// digits of the `%XX` tokens are themselves letters and digits.
pub proof fn lemma_encode_output_chars(s: Seq<char>)
    ensures
        forall|i: int|
            0 <= i < encode_uri_chars(s).len() ==> (uri_unescaped_char(
                #[trigger] encode_uri_chars(s)[i],
            ) || encode_uri_chars(s)[i] == '%'),
    decreases s.len(),
{
    if s.len() != 0 {
        lemma_encode_output_chars(s.drop_first());
        let e0 = encode_char(s[0]);
        let er = encode_uri_chars(s.drop_first());
        if !uri_unescaped_char(s[0]) {
            lemma_percent_escape_chars_output(encode_scalar(s[0] as u32));
        }
        assert(encode_uri_chars(s) == e0 + er);
        assert forall|i: int|
            0 <= i < (e0 + er).len() implies (uri_unescaped_char(#[trigger] (e0 + er)[i]) || (e0
            + er)[i] == '%') by {
            if i >= e0.len() {
                assert((e0 + er)[i] == er[i - e0.len()]);
            }
        }
    }
}

/// Encodes a text: every character of the unescaped set appears unchanged,
/// every other code point is replaced by the percent-escapes of its UTF-8
/// bytes.  Encoding always succeeds and returns an ASCII string; the empty
/// input bypasses the transform.
pub fn encode(s: &str) -> (r: String)
    ensures
        r@ == encode_uri_chars(s@),
        is_ascii_chars(r@),
{
    if s.is_empty() {
        proof {
            assert(encode_uri_chars(s@) =~= Seq::<char>::empty());
        }
        return String::new();
    }
    let bytes = s.as_bytes();
    let ghost full = bytes@;
    let n = bytes.len();
    let mut out: Vec<u8> = Vec::new();
    let mut i: usize = 0;
    proof {
        assert(full.take(0) =~= Seq::<u8>::empty());
    }
    while i < n
        invariant
            i <= n,
            n == full.len(),
            bytes@ == full,
            out@ == escape_bytes(full.take(i as int)),
        decreases n - i,
    {
        let ghost prev = out@;
        let b = bytes[i];
        proof {
            lemma_nibbles(b);
        }
        if is_uri_unescaped(b) {
            out.push(b);
            proof {
                assert(out@ =~= prev + escape_byte(b));
            }
        } else {
            out.push('%' as u8);
            out.push(hex_digit(b / 16));
            out.push(hex_digit(b % 16));
            proof {
                assert(out@ =~= prev + escape_byte(b));
            }
        }
        proof {
            assert(full.take(i + 1 as int) =~= full.take(i as int) + seq![b]);
            lemma_escape_bytes_concat(full.take(i as int), seq![b]);
            assert(escape_bytes(seq![b]) =~= escape_byte(b)) by {
                reveal_with_fuel(escape_bytes, 2);
                assert(seq![b].drop_first() =~= Seq::<u8>::empty());
            }
        }
        i = i + 1;
    }
    proof {
        assert(full.take(n as int) =~= full);
        lemma_escape_bytes_ascii(full);
        lemma_ascii_bytes_valid_utf8(out@);
    }
    let r = string_from_utf8(out);
    proof {
        lemma_encode_bytes(s@);
        lemma_encode_utf8_injective(r@, encode_uri_chars(s@));
        lemma_utf8_ascii_chars(r@);
    }
    r
}

// An optional tail of unescaped bytes, with the given bytes already produced
// in front of it.
spec fn prepend_unescaped(pre: Seq<u8>, tail: Option<Seq<u8>>) -> Option<Seq<u8>> {
    match tail {
        Some(t) => Some(pre + t),
        None => None,
    }
}

/// Decodes a percent-escaped text: every `%XX` token becomes one byte and the
/// reassembled bytes are read as UTF-8.  Fails with `MalformedEscape` when a
/// `%` is not followed by two hexadecimal digits or the bytes are not valid
/// UTF-8; nothing is returned then.  The empty input bypasses the transform.
pub fn decode(s: &str) -> (r: Result<String, UriError>)
    ensures
        r is Ok <==> decode_uri_chars(s@) is Some,
        r is Ok ==> r->Ok_0@ == decode_uri_chars(s@)->Some_0,
        r is Err ==> r->Err_0 == UriError::MalformedEscape,
{
    if s.is_empty() {
        proof {
            assert(encode_utf8(s@) =~= Seq::<u8>::empty());
            assert(decode_utf8(encode_utf8(s@)) =~= Seq::<char>::empty());
        }
        return Ok(String::new());
    }
    let bytes = s.as_bytes();
    let ghost full = bytes@;
    let n = bytes.len();
    let mut out: Vec<u8> = Vec::new();
    let mut i: usize = 0;
    proof {
        assert(full.skip(0) =~= full);
        assert(Seq::<u8>::empty() + full =~= full);
    }
    while i < n
        invariant
            i <= n,
            n == full.len(),
            bytes@ == full,
            full == encode_utf8(s@),
            unescape_bytes(full) == prepend_unescaped(out@, unescape_bytes(full.skip(i as int))),
        decreases n - i,
    {
        let ghost suffix = full.skip(i as int);
        let ghost prev = out@;
        let b = bytes[i];
        proof {
            assert(suffix[0] == b);
        }
        if b != ('%' as u8) {
            out.push(b);
            proof {
                assert(suffix.skip(1) =~= full.skip(i + 1 as int));
                if unescape_bytes(suffix.skip(1)) is Some {
                    let t = unescape_bytes(suffix.skip(1))->Some_0;
                    assert(prev + (seq![b] + t) =~= (prev + seq![b]) + t);
                }
            }
            i = i + 1;
        } else {
            if n - i < 3 {
                return Err(UriError::MalformedEscape);
            }
            let d1 = hex_value(bytes[i + 1]);
            let d2 = hex_value(bytes[i + 2]);
            proof {
                assert(suffix[1] == full[i + 1] && suffix[2] == full[i + 2]);
            }
            if d1.is_none() || d2.is_none() {
                return Err(UriError::MalformedEscape);
            }
            let v1 = d1.unwrap();
            let v2 = d2.unwrap();
            let byte: u8 = v1 * 16 + v2;
            out.push(byte);
            proof {
                assert(suffix.skip(3) =~= full.skip(i + 3 as int));
                if unescape_bytes(suffix.skip(3)) is Some {
                    let t = unescape_bytes(suffix.skip(3))->Some_0;
                    assert(prev + (seq![byte] + t) =~= (prev + seq![byte]) + t);
                }
            }
            i = i + 3;
        }
    }
    proof {
        assert(full.skip(n as int) =~= Seq::<u8>::empty());
        assert(out@ + Seq::<u8>::empty() =~= out@);
    }
    if is_valid_utf8(out.as_slice()) {
        let ghost v = out@;
        let r = string_from_utf8(out);
        proof {
            decode_utf8_encode_utf8(v);
            lemma_encode_utf8_injective(r@, decode_utf8(v));
        }
        Ok(r)
    } else {
        Err(UriError::MalformedEscape)
    }
}

/// Decoding an encoded text returns the original: for every text of Unicode
/// scalar values, `decode` succeeds on the output of `encode` and yields the
/// input again.
pub proof fn lemma_decode_encode_round_trip(s: Seq<char>)
    ensures
        decode_uri_chars(encode_uri_chars(s)) == Some(s),
{
    lemma_encode_bytes(s);
    lemma_unescape_escape(encode_utf8(s));
    encode_utf8_valid_utf8(s);
    encode_utf8_decode_utf8(s);
}

/// A text made only of unescaped-set characters is its own encoding.
pub proof fn lemma_encode_unescaped_identity(s: Seq<char>)
    requires
        forall|i: int| 0 <= i < s.len() ==> uri_unescaped_char(#[trigger] s[i]),
    ensures
        encode_uri_chars(s) == s,
    decreases s.len(),
{
    if s.len() == 0 {
        assert(encode_uri_chars(s) =~= s);
    } else {
        lemma_encode_unescaped_identity(s.drop_first());
        assert(seq![s[0]] + s.drop_first() =~= s);
    }
}

} // verus!
