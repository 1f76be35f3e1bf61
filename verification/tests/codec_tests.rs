use uri_codec::codec::{decode, encode, is_uri_unescaped, UriError};
use uri_codec::hex::{hex_digit, hex_value};
use uri_codec::unicode::is_valid_utf8;

#[test]
fn empty_input_short_circuit() {
    assert_eq!(encode(""), "");
    assert_eq!(decode("").unwrap(), "");
}

#[test]
fn multi_byte_expansion() {
    // U+20AC (the euro sign) is the three UTF-8 bytes E2 82 AC
    assert_eq!(encode("\u{20ac}"), "%E2%82%AC");
}

#[test]
fn reserved_punctuation_preserved() {
    assert_eq!(encode("a/b?c=d"), "a/b?c=d");
}

#[test]
fn unescaped_set_identity() {
    let s = "AZaz09-_.!~*'();,/?:@&=+$#";
    assert_eq!(encode(s), s);
}

#[test]
fn case_insensitive_decode() {
    assert_eq!(decode("%e2%82%ac").unwrap(), "\u{20ac}");
    assert_eq!(decode("%E2%82%AC").unwrap(), "\u{20ac}");
}

#[test]
fn malformed_escape_rejected() {
    assert_eq!(decode("%"), Err(UriError::MalformedEscape));
    assert_eq!(decode("%G1"), Err(UriError::MalformedEscape));
    // C0 80 is an overlong encoding of U+0000
    assert_eq!(decode("%C0%80"), Err(UriError::MalformedEscape));
}

#[test]
fn round_trip_mixed_text() {
    let s = "h\u{e9}llo w\u{f6}rld \u{2603} \u{1f600} \u{20ac}/?x=1&y=%";
    assert_eq!(decode(&encode(s)).unwrap(), s);
}

#[test]
fn encode_escapes_space_and_quote() {
    assert_eq!(encode("a b\"c"), "a%20b%22c");
    assert_eq!(encode("%"), "%25");
}

#[test]
fn encode_four_byte_scalar() {
    // U+1F600 (a grinning-face emoji) is the four UTF-8 bytes F0 9F 98 80
    assert_eq!(encode("\u{1f600}"), "%F0%9F%98%80");
}

#[test]
fn decode_literal_non_ascii_passthrough() {
    assert_eq!(decode("\u{20ac}%20x").unwrap(), "\u{20ac} x");
}

#[test]
fn decode_plain_text() {
    assert_eq!(decode("abc").unwrap(), "abc");
}

#[test]
fn decode_truncated_escapes() {
    assert_eq!(decode("%2"), Err(UriError::MalformedEscape));
    assert_eq!(decode("abc%"), Err(UriError::MalformedEscape));
    assert_eq!(decode("%E2%82"), Err(UriError::MalformedEscape));
}

#[test]
fn decode_lone_continuation_byte() {
    assert_eq!(decode("%80"), Err(UriError::MalformedEscape));
}

#[test]
fn decode_surrogate_rejected() {
    // ED A0 80 would decode to the surrogate codepoint U+D800
    assert_eq!(decode("%ED%A0%80"), Err(UriError::MalformedEscape));
}

#[test]
fn decode_beyond_last_scalar_rejected() {
    // F4 90 80 80 would decode to U+110000, past the last Unicode scalar
    assert_eq!(decode("%F4%90%80%80"), Err(UriError::MalformedEscape));
}

#[test]
fn unescaped_set_membership() {
    assert!(is_uri_unescaped(b'A'));
    assert!(is_uri_unescaped(b'z'));
    assert!(is_uri_unescaped(b'0'));
    assert!(is_uri_unescaped(b'#'));
    assert!(is_uri_unescaped(b'~'));
    assert!(!is_uri_unescaped(b'%'));
    assert!(!is_uri_unescaped(b' '));
    assert!(!is_uri_unescaped(b'"'));
    assert!(!is_uri_unescaped(b'<'));
    assert!(!is_uri_unescaped(0x80));
}

#[test]
fn utf8_validation() {
    assert!(is_valid_utf8("ab\u{20ac}\u{1f600}".as_bytes()));
    assert!(is_valid_utf8(&[]));
    assert!(!is_valid_utf8(&[0xc0, 0x80]));
    assert!(!is_valid_utf8(&[0xe2, 0x82]));
    assert!(!is_valid_utf8(&[0x80]));
    assert!(!is_valid_utf8(&[0xff]));
}

#[test]
fn hex_digit_values() {
    assert_eq!(hex_digit(0), b'0');
    assert_eq!(hex_digit(10), b'A');
    assert_eq!(hex_digit(15), b'F');
    assert_eq!(hex_value(b'f'), Some(15));
    assert_eq!(hex_value(b'F'), Some(15));
    assert_eq!(hex_value(b'7'), Some(7));
    assert_eq!(hex_value(b'G'), None);
}
