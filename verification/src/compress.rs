//! Deflate-family compression of object payloads, through the `flate2`
//! crate's zlib encoder and decoder.

use vstd::prelude::*;

use crate::errors::GitError;
use std::io::Read;
use std::io::Write;

verus! {

/// The zlib-compressed bytes of a payload at the default level. Named,
/// not written out: the library relies on the compressed form being a
/// function of the payload bytes alone.
pub uninterp spec fn deflate_of(payload: Seq<u8>) -> Seq<u8>;

/// What a byte sequence decompresses to, or `None` when it is not a
/// valid compressed stream.
pub uninterp spec fn inflate_of(data: Seq<u8>) -> Option<Seq<u8>>;

/// Relies on `flate2::write::ZlibEncoder` at the default compression
/// level: the compressed bytes depend on the payload alone, and
/// decompressing them yields the payload back. Writing into a `Vec`
/// sink cannot fail.
#[verifier::external_body]
pub fn compress_data(payload: &Vec<u8>) -> (r: Vec<u8>)
    ensures
        r@ == deflate_of(payload@),
        inflate_of(r@) == Some(payload@),
{
    let mut encoder = flate2::write::ZlibEncoder::new(Vec::new(), flate2::Compression::default());
    encoder.write_all(payload.as_slice()).expect("writing to a Vec cannot fail");
    encoder.finish().expect("writing to a Vec cannot fail")
}

/// Relies on `flate2::read::ZlibDecoder`: decompression depends on the
/// input bytes alone; an invalid stream is reported as an error.
#[verifier::external_body]
fn inflate_raw(data: &Vec<u8>) -> (r: Option<Vec<u8>>)
    ensures
        match r {
            Some(v) => inflate_of(data@) == Some(v@),
            None => inflate_of(data@) is None,
        },
{
    let mut decoder = flate2::read::ZlibDecoder::new(data.as_slice());
    let mut out = Vec::new();
    match decoder.read_to_end(&mut out) {
        Ok(_) => Some(out),
        Err(_) => None,
    }
}

/// Decompresses a stored object's bytes. Fails with `CorruptObject`
/// exactly when the input is not a valid compressed stream.
pub fn decompress_buffer(data: &Vec<u8>) -> (r: Result<Vec<u8>, GitError>)
    ensures
        match r {
            Ok(v) => inflate_of(data@) == Some(v@),
            Err(e) => e == GitError::CorruptObject && inflate_of(data@) is None,
        },
{
    match inflate_raw(data) {
        Some(v) => Ok(v),
        None => Err(GitError::CorruptObject),
    }
}

} // verus!
