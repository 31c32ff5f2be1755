//! The zlib codec pair that objects are stored through. Objects are persisted
//! as the deflate-compressed form of their canonical bytes and recovered by
//! inflating the stored bytes.

use vstd::prelude::*;

use flate2::read::ZlibDecoder;
use flate2::write::ZlibEncoder;
use flate2::Compression;
use std::io::Read;
use std::io::Write;

verus! {

/// The zlib-compressed form of a byte string at the codec's default setting.
/// The compressed bytes are a fixed function of the input alone; their value
/// is left unspecified here and is supplied by an outside implementation.
pub uninterp spec fn deflate(s: Seq<u8>) -> Seq<u8>;

/// Relies on flate2's `ZlibEncoder` (`new`, `write_all`, `finish`) at the
/// default compression level: writing a whole in-memory buffer cannot fail,
/// and the output depends on the input bytes alone.
#[verifier::external_body]
pub fn zlib_compress(input: &[u8]) -> (r: Vec<u8>)
    ensures
        r@ == deflate(input@),
{
    let mut encoder = ZlibEncoder::new(Vec::new(), Compression::default());
    encoder.write_all(input).unwrap();
    encoder.finish().unwrap()
}

/// Relies on flate2's `ZlibDecoder` (`new`, `read_to_end`): the codec is
/// lossless, so inflating the compressed form of any byte string returns that
/// byte string, and malformed input is reported as an error rather than
/// decoded.
#[verifier::external_body]
pub fn zlib_decompress(input: &[u8]) -> (r: Option<Vec<u8>>)
    ensures
        forall|x: Seq<u8>| input@ == #[trigger] deflate(x) ==> r is Some && r.unwrap()@ == x,
{
    let mut decoder = ZlibDecoder::new(input);
    let mut out = Vec::new();
    match decoder.read_to_end(&mut out) {
        Ok(_) => Some(out),
        Err(_) => None,
    }
}

/// The codec pair is lossless: decompressing what `zlib_compress` produced
/// returns the original bytes, whatever they were.
pub fn compress_round_trip(input: &[u8]) -> (r: Vec<u8>)
    ensures
        r@ == input@,
{
    let compressed = zlib_compress(input);
    let recovered = zlib_decompress(compressed.as_slice());
    recovered.unwrap()
}

} // verus!
