//! Percent-escape encoding and decoding of Unicode text, with the character
//! policy of the ECMA-262 `encodeURI` / `decodeURI` pair: a fixed set of
//! ASCII characters passes through literally, every other code point is
//! replaced by one `%XX` token per byte of its UTF-8 encoding, and decoding
//! rejects malformed escapes and byte sequences that are not valid UTF-8.

pub mod codec;
pub mod hex;
pub mod unicode;
pub mod uri;
