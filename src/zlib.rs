//! The compression boundary: zlib streams through flate2.

use std::io::{Read, Write};
use vstd::prelude::*;

verus! {

/// What inflating a zlib stream yields, `None` when the stream is malformed.
pub uninterp spec fn zlib_decoded(b: Seq<u8>) -> Option<Seq<u8>>;

/// What deflating at the default level into memory yields: the zlib stream,
/// or `None` if the encoder reports a failure.
pub uninterp spec fn zlib_encoded(b: Seq<u8>) -> Option<Seq<u8>>;

/// Relies on `flate2::read::ZlibDecoder` read to its end: it inflates the
/// stream, and fails on a malformed one.
#[verifier::external_body]
pub(crate) fn zlib_inflate(b: &[u8]) -> (r: Option<Vec<u8>>)
    ensures
        r matches Some(v) ==> zlib_decoded(b@) == Some(v@),
        r is None ==> zlib_decoded(b@) is None,
{
    let mut decoder = flate2::read::ZlibDecoder::new(b);
    let mut out = Vec::new();
    match decoder.read_to_end(&mut out) {
        Ok(_) => Some(out),
        Err(_) => None,
    }
}

/// Relies on `flate2::write::ZlibEncoder` at `Compression::default()`: the
/// stream it finishes inflates back to its input.
#[verifier::external_body]
pub(crate) fn zlib_deflate(b: &[u8]) -> (r: Option<Vec<u8>>)
    ensures
        r matches Some(v) ==> zlib_encoded(b@) == Some(v@) && zlib_decoded(v@) == Some(b@),
        r is None ==> zlib_encoded(b@) is None,
{
    let mut encoder = flate2::write::ZlibEncoder::new(Vec::new(), flate2::Compression::default());
    match encoder.write_all(b) {
        Ok(()) => encoder.finish().ok(),
        Err(_) => None,
    }
}

} // verus!
