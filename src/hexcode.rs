//! Hexadecimal text and raw bytes.

use vstd::prelude::*;

verus! {

/// Whether `c` is a hexadecimal digit, in either case.
pub open spec fn is_hex_digit(c: char) -> bool {
    ('0' <= c && c <= '9') || ('a' <= c && c <= 'f') || ('A' <= c && c <= 'F')
}

/// The value of a hexadecimal digit.
pub open spec fn hex_digit_value(c: char) -> nat {
    if '0' <= c && c <= '9' {
        (c as nat - '0' as nat) as nat
    } else if 'a' <= c && c <= 'f' {
        (c as nat - 'a' as nat + 10) as nat
    } else {
        (c as nat - 'A' as nat + 10) as nat
    }
}

/// The lower-case digit for a value below sixteen.
pub open spec fn hex_char_of(v: nat) -> char {
    if v < 10 {
        (v + '0' as nat) as char
    } else {
        (v - 10 + 'a' as nat) as char
    }
}

/// Whether `s` is a whole number of bytes written in hexadecimal.
pub open spec fn is_hex_text(s: Seq<char>) -> bool {
    &&& s.len() % 2 == 0
    &&& forall|i: int| 0 <= i < s.len() ==> is_hex_digit(#[trigger] s[i])
}

/// The bytes that a hexadecimal text stands for, two digits to a byte, the high
/// half first.
pub open spec fn hex_bytes_of(s: Seq<char>) -> Seq<u8> {
    Seq::new(
        s.len() / 2,
        |i: int| (hex_digit_value(s[2 * i]) * 16 + hex_digit_value(s[2 * i + 1])) as u8,
    )
}

/// The lower-case hexadecimal text of some bytes, two digits to a byte.
pub open spec fn hex_text_of(b: Seq<u8>) -> Seq<char> {
    Seq::new(
        2 * b.len(),
        |i: int|
            if i % 2 == 0 {
                hex_char_of(b[i / 2] as nat / 16)
            } else {
                hex_char_of(b[i / 2] as nat % 16)
            },
    )
}

/// Relies on `hex::decode`: it accepts an even number of hexadecimal digits of
/// either case and yields one byte for each pair, the first digit high.
#[verifier::external_body]
pub(crate) fn decode_hex(s: &str) -> (r: Option<Vec<u8>>)
    ensures
        r.is_some() == is_hex_text(s@),
        r.is_some() ==> r.unwrap()@ == hex_bytes_of(s@),
{
    hex::decode(s).ok()
}

/// Relies on `hex::encode`: two lower-case digits for each byte, the high half
/// first.
#[verifier::external_body]
pub(crate) fn encode_hex(b: &[u8]) -> (r: String)
    ensures
        r@ == hex_text_of(b@),
{
    hex::encode(b)
}

/// `s` without a leading `0x`, if it has one.
pub open spec fn without_hex_prefix(s: Seq<char>) -> Seq<char> {
    if s.len() >= 2 && s[0] == '0' && s[1] == 'x' {
        s.subrange(2, s.len() as int)
    } else {
        s
    }
}

/// The bytes of an address written in hexadecimal, with or without a leading
/// `0x`; `None` where the rest is not hexadecimal.
pub fn decode_address_hex(s: &str) -> (r: Option<Vec<u8>>)
    ensures
        r.is_some() == is_hex_text(without_hex_prefix(s@)),
        r.is_some() ==> r.unwrap()@ == hex_bytes_of(without_hex_prefix(s@)),
{
    let n = s.unicode_len();
    if n >= 2 && s.get_char(0) == '0' && s.get_char(1) == 'x' {
        decode_hex(s.substring_char(2, n))
    } else {
        decode_hex(s)
    }
}

/// The lower-case hexadecimal text of some bytes.
pub fn bytes_to_hex(b: &Vec<u8>) -> (r: String)
    ensures
        r@ == hex_text_of(b@),
{
    encode_hex(b.as_slice())
}

} // verus!
