//! Lower-case hexadecimal text of byte strings, through the `hex` crate.

use vstd::prelude::*;

verus! {

/// The lower-case hexadecimal digit for a value below sixteen.
pub open spec fn hex_digit(n: int) -> char {
    if n < 10 {
        (48 + n) as char
    } else {
        (87 + n) as char
    }
}

/// Two lower-case hexadecimal digits per byte, high nibble first.
pub open spec fn hex_lower(b: Seq<u8>) -> Seq<char> {
    Seq::new(
        2 * b.len(),
        |i: int|
            if i % 2 == 0 {
                hex_digit(b[i / 2] as int / 16)
            } else {
                hex_digit(b[i / 2] as int % 16)
            },
    )
}

/// The value of one hexadecimal digit, in either case.
pub open spec fn hex_value(c: u8) -> Option<int> {
    if 48 <= c <= 57 {
        Some(c - 48)
    } else if 97 <= c <= 102 {
        Some(c - 87)
    } else if 65 <= c <= 70 {
        Some(c - 55)
    } else {
        None
    }
}

/// Decoding of hexadecimal text given as bytes: defined when the length is
/// even and every byte is a digit.
pub open spec fn hex_decode(b: Seq<u8>) -> Option<Seq<u8>> {
    if b.len() % 2 == 0 && forall|i: int| 0 <= i < b.len() ==> (#[trigger] hex_value(b[i])) is Some {
        Some(
            Seq::new(
                b.len() / 2,
                |i: int|
                    (hex_value(b[2 * i]).unwrap() * 16 + hex_value(b[2 * i + 1]).unwrap()) as u8,
            ),
        )
    } else {
        None
    }
}

/// Decoding of hexadecimal text held in a string (its UTF-8 bytes).
pub open spec fn hex_decode_text(s: Seq<char>) -> Option<Seq<u8>> {
    hex_decode(vstd::utf8::encode_utf8(s))
}

/// Hexadecimal text is ASCII.
pub proof fn lemma_hex_lower_ascii(b: Seq<u8>)
    ensures
        vstd::utf8::is_ascii_chars(hex_lower(b)),
{
}

/// Decoding the lower-case text of a byte string gives the bytes back.
pub proof fn lemma_hex_round_trip(b: Seq<u8>)
    ensures
        hex_decode_text(hex_lower(b)) == Some(b),
{
    let h = hex_lower(b);
    lemma_hex_lower_ascii(b);
    vstd::utf8::is_ascii_chars_encode_utf8(h);
    let e = vstd::utf8::encode_utf8(h);
    assert forall|i: int| 0 <= i < e.len() implies (#[trigger] hex_value(e[i])) is Some by {
        assert(e[i] == h[i] as u8);
    }
    let d = hex_decode(e).unwrap();
    assert forall|i: int| 0 <= i < b.len() implies d[i] == b[i] by {
        assert(e[2 * i] == h[2 * i] as u8);
        assert(e[2 * i + 1] == h[2 * i + 1] as u8);
        assert((2 * i) / 2 == i);
        assert((2 * i + 1) / 2 == i);
        assert((2 * i) % 2 == 0);
        assert((2 * i + 1) % 2 == 1);
        assert(hex_value(e[2 * i]) == Some(b[i] as int / 16));
        assert(hex_value(e[2 * i + 1]) == Some(b[i] as int % 16));
    }
    assert(d =~= b);
}

/// Calls `hex::encode`. The contract claims that it writes each byte as two
/// lower-case hexadecimal digits, high nibble first.
#[verifier::external_body]
pub(crate) fn hex_encode(data: &[u8]) -> (s: String)
    ensures
        s@ == hex_lower(data@),
{
    hex::encode(data)
}

/// Calls `hex::decode` on the bytes of `text`. The contract claims that it
/// succeeds exactly on an even number of hexadecimal digits (either case)
/// and then gives the byte that each pair of digits denotes.
#[verifier::external_body]
pub(crate) fn hex_decode_str(text: &str) -> (r: Option<Vec<u8>>)
    ensures
        match r {
            Some(v) => hex_decode_text(text@) == Some(v@),
            None => hex_decode_text(text@) is None,
        },
{
    match hex::decode(text) {
        Ok(v) => Some(v),
        Err(_) => None,
    }
}

} // verus!
