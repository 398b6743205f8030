//! Trusted boundary to the outside crates the container format relies on:
//! the SHA-512 digest and raw-deflate compression. Each wrapper's contract
//! states only what the crate's source shows; the results of the calls are
//! named by uninterpreted functions of their inputs.
use sha2::Digest;
use vstd::prelude::*;

verus! {

/// The SHA-512 digest of a byte string: 64 bytes depending on the input
/// alone.
pub uninterp spec fn sha512_of(data: Seq<u8>) -> Seq<u8>;

/// The raw-deflate compression of a byte string at the highest level, a
/// function of the input alone.
pub uninterp spec fn deflate_of(data: Seq<u8>) -> Seq<u8>;

/// The raw-deflate decompression of a byte string: the recovered bytes,
/// or nothing when the input is not a well-formed stream.
pub uninterp spec fn inflate_of(data: Seq<u8>) -> Option<Seq<u8>>;

/// Relies on sha2's `Sha512::digest`: a 64-byte digest computed from the
/// input bytes alone.
#[verifier::external_body]
pub fn sha512_digest(data: &Vec<u8>) -> (r: Vec<u8>)
    ensures
        r@ == sha512_of(data@),
        r@.len() == 64,
{
    sha2::Sha512::digest(data.as_slice()).to_vec()
}

/// Relies on miniz_oxide's `deflate::compress_to_vec` at level 10: a
/// deterministic raw-deflate stream that `decompress_to_vec` inverts.
#[verifier::external_body]
pub fn deflate_compress(data: &Vec<u8>) -> (r: Vec<u8>)
    ensures
        r@ == deflate_of(data@),
        inflate_of(r@) == Some(data@),
{
    miniz_oxide::deflate::compress_to_vec(data.as_slice(), 10)
}

/// Relies on miniz_oxide's `inflate::decompress_to_vec`: decodes a
/// raw-deflate stream, or reports failure on malformed input.
#[verifier::external_body]
pub fn inflate_decompress(data: &Vec<u8>) -> (r: Option<Vec<u8>>)
    ensures
        (match r {
            Some(d) => inflate_of(data@) == Some(d@),
            None => inflate_of(data@) is None,
        }),
{
    match miniz_oxide::inflate::decompress_to_vec(data.as_slice()) {
        Ok(d) => Some(d),
        Err(_) => None,
    }
}

} // verus!
