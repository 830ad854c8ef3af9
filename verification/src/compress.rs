//! DEFLATE compression, by the `flate2` crate.

use flate2::read::{DeflateDecoder, ZlibDecoder};
use flate2::write::DeflateEncoder;
use flate2::Compression;
use std::io::{Read, Write};
use vstd::prelude::*;

verus! {

/// What flate2's raw DEFLATE decoder (`flate2::read::DeflateDecoder`, read
/// to the end) makes of `data`: the decompressed bytes, or `None` when it
/// reports an error.
pub uninterp spec fn inflate_raw(data: Seq<u8>) -> Option<Seq<u8>>;

/// What flate2's zlib decoder (`flate2::read::ZlibDecoder`, read to the
/// end) makes of `data`: the decompressed bytes, or the text (`Display`) of
/// the I/O error it reports.
pub uninterp spec fn inflate_zlib(data: Seq<u8>) -> Result<Seq<u8>, Seq<char>>;

/// What flate2's raw DEFLATE encoder at `Compression::best()` writes for
/// `data`, or the text (`Display`) of the I/O error it reports.
pub uninterp spec fn deflate_best(data: Seq<u8>) -> Result<Seq<u8>, Seq<char>>;

/// `flate2::read::DeflateDecoder::new(data)` read to the end with
/// `read_to_end`: its result is a function of `data` alone, named
/// `inflate_raw`.
#[verifier::external_body]
pub(crate) fn inflate_raw_bytes(data: &[u8]) -> (res: Option<Vec<u8>>)
    ensures
        res is Some <==> inflate_raw(data@) is Some,
        res matches Some(v) ==> inflate_raw(data@) == Some(v@),
{
    let mut decoder = DeflateDecoder::new(data);
    let mut buf = Vec::new();
    match decoder.read_to_end(&mut buf) {
        Ok(_) => Some(buf),
        Err(_) => None,
    }
}

/// `flate2::read::ZlibDecoder::new(data)` read to the end with
/// `read_to_end`, an error taken as its text: the result is a function of
/// `data` alone, named `inflate_zlib`.
#[verifier::external_body]
pub(crate) fn inflate_zlib_bytes(data: &[u8]) -> (res: Result<Vec<u8>, String>)
    ensures
        match inflate_zlib(data@) {
            Ok(x) => res matches Ok(v) && v@ == x,
            Err(t) => res matches Err(s) && s@ == t,
        },
{
    let mut decoder = ZlibDecoder::new(data);
    let mut buf = Vec::new();
    match decoder.read_to_end(&mut buf) {
        Ok(_) => Ok(buf),
        Err(e) => Err(e.to_string()),
    }
}

/// `flate2::write::DeflateEncoder` over a `Vec` at `Compression::best()`,
/// given `data` with `write_all` and closed with `finish`, an error taken as
/// its text: the result is a function of `data` alone, named
/// `deflate_best`, and the raw DEFLATE decoder reads back `data` from what
/// it writes (DEFLATE is lossless).
#[verifier::external_body]
pub(crate) fn deflate_best_bytes(data: &[u8]) -> (res: Result<Vec<u8>, String>)
    ensures
        match deflate_best(data@) {
            Ok(c) => res matches Ok(v) && v@ == c && inflate_raw(c) == Some(data@),
            Err(t) => res matches Err(s) && s@ == t,
        },
{
    let mut encoder = DeflateEncoder::new(Vec::new(), Compression::best());
    match encoder.write_all(data) {
        Ok(()) => match encoder.finish() {
            Ok(c) => Ok(c),
            Err(e) => Err(e.to_string()),
        },
        Err(e) => Err(e.to_string()),
    }
}

} // verus!
