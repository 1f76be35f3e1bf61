//! Hexadecimal digits as they appear in `%XX` escape tokens: the encoder
//! emits uppercase digits, the decoder accepts both cases.

use vstd::prelude::*;

verus! {

/// The ASCII byte of the uppercase hexadecimal digit for a value below 16.
pub open spec fn hex_digit_of(v: u8) -> u8
    recommends
        v < 16,
{
    if v < 10 {
        (0x30 + v) as u8
    } else {
        (0x37 + v) as u8
    }
}

/// The value of one hexadecimal digit byte, uppercase or lowercase,
/// or `None` when the byte is no hexadecimal digit.
pub open spec fn hex_val(b: u8) -> Option<u8> {
    if 0x30 <= b && b <= 0x39 {
        Some((b - 0x30) as u8)
    } else if 0x41 <= b && b <= 0x46 {
        Some((b - 0x37) as u8)
    } else if 0x61 <= b && b <= 0x66 {
        Some((b - 0x57) as u8)
    } else {
        None
    }
}

/// Returns the uppercase hexadecimal digit byte for a value below 16.
pub fn hex_digit(v: u8) -> (r: u8)
    requires
        v < 16,
    ensures
        r == hex_digit_of(v),
{
    if v < 10 {
        0x30 + v
    } else {
        0x37 + v
    }
}

/// Returns the value of a hexadecimal digit byte, accepting both cases.
pub fn hex_value(b: u8) -> (r: Option<u8>)
    ensures
        r == hex_val(b),
{
    if 0x30 <= b && b <= 0x39 {
        Some(b - 0x30)
    } else if 0x41 <= b && b <= 0x46 {
        Some(b - 0x37)
    } else if 0x61 <= b && b <= 0x66 {
        Some(b - 0x57)
    } else {
        None
    }
}

/// A value below 16 is recovered from its uppercase hexadecimal digit byte.
pub proof fn lemma_hex_digit_round_trip(v: u8)
    requires
        v < 16,
    ensures
        hex_val(hex_digit_of(v)) == Some(v),
{
}

/// Both spellings of a hexadecimal digit carry the same value: the lowercase
/// counterpart of an uppercase digit letter reads back identically.
pub proof fn lemma_hex_digit_case_insensitive(v: u8)
    requires
        10 <= v < 16,
    ensures
        hex_val((hex_digit_of(v) + 0x20) as u8) == hex_val(hex_digit_of(v)),
{
}

} // verus!
