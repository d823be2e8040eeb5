//! Hexadecimal rendering of fingerprints: spec-level definition of the
//! encoding, wrappers over the `hex` crate, and fingerprint validation.

use vstd::prelude::*;

verus! {

/// A lowercase hexadecimal digit, as rendered at the store boundary.
pub open spec fn is_lower_hex_digit(c: char) -> bool {
    (48 <= c as u32 && c as u32 <= 57) || (97 <= c as u32 && c as u32 <= 102)
}

/// A hexadecimal digit of either case, as accepted when a fingerprint
/// string is parsed.
pub open spec fn is_hex_digit(c: char) -> bool {
    is_lower_hex_digit(c) || (65 <= c as u32 && c as u32 <= 70)
}

/// Numeric value of a hexadecimal digit (0 for any other character).
pub open spec fn hex_val(c: char) -> u8 {
    if 48 <= c as u32 && c as u32 <= 57 {
        (c as u32 - 48) as u8
    } else if 97 <= c as u32 && c as u32 <= 102 {
        (c as u32 - 87) as u8
    } else if 65 <= c as u32 && c as u32 <= 70 {
        (c as u32 - 55) as u8
    } else {
        0
    }
}

/// The lowercase hexadecimal digit for a value below 16.
pub open spec fn hex_char(v: u8) -> char {
    if v < 10 {
        ((v + 48) as u32) as char
    } else {
        ((v + 87) as u32) as char
    }
}

/// Lowercase hexadecimal rendering of a byte sequence: two digits per
/// byte, high nibble first.
pub open spec fn hex_of(b: Seq<u8>) -> Seq<char> {
    Seq::new(
        b.len() * 2,
        |i: int|
            if i % 2 == 0 {
                hex_char(b[i / 2] / 16)
            } else {
                hex_char(b[i / 2] % 16)
            },
    )
}

/// The bytes denoted by a sequence of hexadecimal digits, high nibble
/// first (meaningful only when every character is a hexadecimal digit
/// and the length is even).
pub open spec fn hex_val_bytes(s: Seq<char>) -> Seq<u8> {
    Seq::new(s.len() / 2, |i: int| (hex_val(s[2 * i]) * 16 + hex_val(s[2 * i + 1])) as u8)
}

/// A well-formed fingerprint string: exactly 40 hexadecimal characters.
pub open spec fn is_fingerprint(s: Seq<char>) -> bool {
    s.len() == 40 && (forall|i: int| 0 <= i < s.len() ==> is_hex_digit(#[trigger] s[i]))
}

/// Hexadecimal rendering is injective: it is undone by reading the
/// digits back, and it produces only lowercase digits.
pub proof fn lemma_hex_of_roundtrip(b: Seq<u8>)
    ensures
        hex_val_bytes(hex_of(b)) =~= b,
        forall|i: int| 0 <= i < hex_of(b).len() ==> is_lower_hex_digit(#[trigger] hex_of(b)[i]),
{
    assert forall|v: u8| v < 16 implies is_lower_hex_digit(hex_char(v)) && hex_val(hex_char(v))
        == v by {
        assert(is_lower_hex_digit(hex_char(v)) && hex_val(hex_char(v)) == v);
    }
    assert forall|i: int| 0 <= i < b.len() implies hex_val_bytes(hex_of(b))[i] == b[i] by {
        assert(hex_of(b)[2 * i] == hex_char(b[i] / 16));
        assert(hex_of(b)[2 * i + 1] == hex_char(b[i] % 16));
        assert(b[i] / 16 < 16 && b[i] % 16 < 16);
        assert(hex_val_bytes(hex_of(b))[i] == (b[i] / 16) * 16 + b[i] % 16);
    }
}

/// Relies on `hex::encode`: renders each input byte as two lowercase
/// hexadecimal digits, high nibble first.
#[verifier::external_body]
pub fn hex_encode(data: &Vec<u8>) -> (r: String)
    ensures
        r@ == hex_of(data@),
{
    hex::encode(data.as_slice())
}

/// Relies on `hex::decode`: succeeds exactly on even-length strings of
/// hexadecimal digits (either case), pairing digits into bytes, high
/// nibble first.
#[verifier::external_body]
pub fn hex_decode(data: &str) -> (r: Option<Vec<u8>>)
    ensures
        r is Some <==> (data@.len() % 2 == 0 && (forall|i: int|
            0 <= i < data@.len() ==> is_hex_digit(#[trigger] data@[i]))),
        r matches Some(v) ==> v@ == hex_val_bytes(data@),
{
    hex::decode(data).ok()
}

/// Whether a string is a well-formed fingerprint: exactly 40
/// hexadecimal characters.
pub fn is_valid_fingerprint(s: &str) -> (r: bool)
    ensures
        r == is_fingerprint(s@),
{
    let n = s.unicode_len();
    if n != 40 {
        return false;
    }
    let mut i: usize = 0;
    while i < 40
        invariant
            0 <= i <= 40,
            s@.len() == 40,
            forall|j: int| 0 <= j < i ==> is_hex_digit(#[trigger] s@[j]),
        decreases 40 - i,
    {
        let c = s.get_char(i);
        let v = c as u32;
        if !((48 <= v && v <= 57) || (97 <= v && v <= 102) || (65 <= v && v <= 70)) {
            return false;
        }
        i += 1;
    }
    true
}

} // verus!
