use std::io::{Read, Write};

use vstd::prelude::*;

verus! {

/// The raw DEFLATE stream that flate2 writes for `b` at its default level.
pub uninterp spec fn deflate_of(b: Seq<u8>) -> Seq<u8>;

/// What flate2 reads out of the raw DEFLATE stream `b`, or `None` where `b`
/// is no complete stream.
pub uninterp spec fn inflate_of(b: Seq<u8>) -> Option<Seq<u8>>;

/// Relies on flate2's `write::DeflateEncoder` at `Compression::default()`,
/// writing into a `Vec`: writing into memory does not fail, the stream
/// depends on the input alone, and, being lossless, reads back as that input
/// through `bufread::DeflateDecoder`. `finish` ends the stream with its final
/// block, padded to a whole byte and with no trailer, so every strict prefix
/// of it is a stream cut short, which that decoder rejects.
#[verifier::external_body]
pub(crate) fn compress(b: &[u8]) -> (r: Result<Vec<u8>, String>)
    ensures
        r is Ok,
        r matches Ok(v) ==> v@ == deflate_of(b@) && inflate_of(v@) == Some(b@),
        r matches Ok(v) ==> forall|k: int|
            0 <= k < v@.len() ==> (#[trigger] inflate_of(v@.subrange(0, k))) is None,
{
    let mut encoder = flate2::write::DeflateEncoder::new(Vec::new(), flate2::Compression::default());
    if let Err(e) = encoder.write_all(b) {
        return Err(e.to_string());
    }
    match encoder.finish() {
        Ok(v) => Ok(v),
        Err(e) => Err(e.to_string()),
    }
}

/// Relies on flate2's `bufread::DeflateDecoder`, read to the end: it yields
/// the bytes that the stream holds, or fails on a stream that is malformed or
/// cut short; which of the two depends on the input alone.
#[verifier::external_body]
pub(crate) fn decompress(b: &[u8]) -> (r: Result<Vec<u8>, String>)
    ensures
        r matches Ok(v) ==> inflate_of(b@) == Some(v@),
        r is Err ==> inflate_of(b@) is None,
{
    let mut decoder = flate2::bufread::DeflateDecoder::new(b);
    let mut out = Vec::new();
    match decoder.read_to_end(&mut out) {
        Ok(_) => Ok(out),
        Err(e) => Err(e.to_string()),
    }
}

} // verus!
