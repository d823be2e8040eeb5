//! Content fingerprinting: a 20-byte digest of an object's payload,
//! rendered as 40 lowercase hexadecimal characters at the store boundary.

use vstd::prelude::*;

use crate::hexutil::{
    hex_encode, hex_of, is_fingerprint, is_hex_digit, is_lower_hex_digit, lemma_hex_of_roundtrip,
};
use sha1::Digest;

verus! {

/// The 20-byte digest of a payload. Named, not written out: the library
/// relies on the digest being a function of the payload bytes alone.
pub uninterp spec fn sha1_of(payload: Seq<u8>) -> Seq<u8>;

/// Relies on `sha1::Sha1::digest`: a 20-byte digest that depends on the
/// payload bytes alone.
#[verifier::external_body]
fn sha1_digest(payload: &Vec<u8>) -> (r: Vec<u8>)
    ensures
        r@ == sha1_of(payload@),
        r@.len() == 20,
{
    sha1::Sha1::digest(payload.as_slice()).to_vec()
}

/// The fingerprint of a payload, rendered as 40 lowercase hexadecimal
/// characters.
pub open spec fn fp_chars_of(payload: Seq<u8>) -> Seq<char> {
    hex_of(sha1_of(payload))
}

/// Computes the fingerprint of a payload: the hexadecimal rendering of
/// its 20-byte digest. Deterministic: equal payloads yield equal
/// fingerprints.
pub fn fingerprint(payload: &Vec<u8>) -> (r: String)
    ensures
        r@ == fp_chars_of(payload@),
        is_fingerprint(r@),
{
    let digest = sha1_digest(payload);
    let rendered = hex_encode(&digest);
    proof {
        lemma_hex_of_roundtrip(digest@);
        assert(rendered@.len() == 40);
        assert forall|i: int| 0 <= i < rendered@.len() implies is_hex_digit(
            #[trigger] rendered@[i],
        ) by {
            assert(is_lower_hex_digit(hex_of(digest@)[i]));
        }
    }
    rendered
}

} // verus!
