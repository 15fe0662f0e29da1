//! zlib streams (RFC 1950), through miniz_oxide.

use vstd::prelude::*;

use crate::error::Error;

verus! {

/// The error of `miniz_oxide::inflate::decompress_to_vec_zlib`, carried
/// through unopened.
#[verifier::external_type_specification]
#[verifier::external_body]
pub struct ExDecompressError(miniz_oxide::inflate::DecompressError);

/// The zlib stream that miniz_oxide produces for the given bytes at level 6.
pub uninterp spec fn deflated(data: Seq<u8>) -> Seq<u8>;

/// What miniz_oxide inflates a zlib stream to, or `None` when it refuses it.
pub uninterp spec fn inflated(data: Seq<u8>) -> Option<Seq<u8>>;

/// Relies on `miniz_oxide::deflate::compress_to_vec_zlib`: the stream depends
/// on the input and the level alone.
#[verifier::external_body]
fn zlib_compress(data: &[u8]) -> (r: Vec<u8>)
    ensures
        r@ == deflated(data@),
{
    miniz_oxide::deflate::compress_to_vec_zlib(data, 6)
}

/// Relies on `miniz_oxide::inflate::decompress_to_vec_zlib`: the outcome
/// depends on the input alone.
#[verifier::external_body]
fn zlib_decompress(data: &[u8]) -> (r: Result<Vec<u8>, miniz_oxide::inflate::DecompressError>)
    ensures
        r is Ok <==> inflated(data@) is Some,
        r is Ok ==> r->Ok_0@ == inflated(data@)->0,
{
    miniz_oxide::inflate::decompress_to_vec_zlib(data)
}

/// A zlib two-byte header is acceptable: method 8 (deflate), a window of at
/// most 32 KiB, and the check bits right.
pub open spec fn valid_zlib_header(cmf: u8, flg: u8) -> bool {
    cmf % 16 == 8 && cmf / 16 <= 7 && (cmf as int * 256 + flg as int) % 31 == 0
}

/// Checks the two header bytes of a zlib stream.
pub fn is_valid_zlib_header(cmf: u8, flg: u8) -> (r: bool)
    ensures
        r == valid_zlib_header(cmf, flg),
{
    let compression_method = cmf % 16;
    if compression_method != 8 {
        return false;
    }
    let window_size = cmf / 16;
    if window_size > 7 {
        return false;
    }
    let check: u16 = (cmf as u16) * 256 + (flg as u16);
    check % 31 == 0
}

/// Compresses bytes into a zlib stream.
pub fn compress(data: &[u8]) -> (r: Vec<u8>)
    ensures
        r@ == deflated(data@),
{
    zlib_compress(data)
}

/// When a stream is accepted for inflating.
pub open spec fn decompress_accepts(data: Seq<u8>) -> bool {
    data.len() >= 2 && valid_zlib_header(data[0], data[1]) && inflated(data) is Some
}

/// Inflates a zlib stream after checking its header; every failure is
/// `DecompressionFailed`.
pub fn decompress(data: &[u8]) -> (r: Result<Vec<u8>, Error>)
    ensures
        r is Ok <==> decompress_accepts(data@),
        r is Ok ==> r->Ok_0@ == inflated(data@)->0,
        r is Err ==> r == Err::<Vec<u8>, Error>(Error::DecompressionFailed),
{
    if data.len() < 2 {
        return Err(Error::DecompressionFailed);
    }
    if !is_valid_zlib_header(data[0], data[1]) {
        return Err(Error::DecompressionFailed);
    }
    match zlib_decompress(data) {
        Ok(v) => Ok(v),
        Err(_) => Err(Error::DecompressionFailed),
    }
}

} // verus!
