//! Compression of pack entry payloads.
//!
//! A pack stores each object's payload as one zlib stream.  Streams are
//! self-delimiting, so the reader recovers the exact boundary of each
//! entry by draining the decompressor to its logical end.

use vstd::prelude::*;
use std::io::{Read, Write};

verus! {

/// What the zlib compressor at the default level returns for a byte
/// sequence: a function of the input bytes alone.
pub uninterp spec fn deflate_of(data: Seq<u8>) -> Seq<u8>;

/// What the zlib decompressor returns when started at the first byte of a
/// byte sequence: the decompressed payload and the number of compressed
/// bytes the stream occupied, or nothing when no complete valid stream
/// starts there.  A function of the byte sequence alone.
pub uninterp spec fn inflate_prefix(data: Seq<u8>) -> Option<(Seq<u8>, nat)>;

/// Relies on `flate2::write::ZlibEncoder` at the default level: the
/// compressed stream depends on the input bytes alone, and, because a zlib
/// stream is self-delimiting, a decoder started at its first byte stops
/// exactly at its end and yields the input back, whatever bytes follow.
#[verifier::external_body]
pub fn zlib_compress(data: &[u8]) -> (r: Vec<u8>)
    ensures
        r@ == deflate_of(data@),
        forall|rest: Seq<u8>|
            #[trigger] inflate_prefix(r@ + rest) == Some((data@, r@.len() as nat)),
{
    let mut enc = flate2::write::ZlibEncoder::new(Vec::new(), flate2::Compression::default());
    // Writing into a Vec sink cannot fail, so the error arms are
    // unreachable.
    match enc.write_all(data) {
        Ok(()) => (),
        Err(_) => return Vec::new(),
    }
    match enc.finish() {
        Ok(v) => v,
        Err(_) => Vec::new(),
    }
}

/// Relies on `flate2::read::ZlibDecoder`: reads one zlib stream from the
/// start of the slice to its logical end, reporting through `total_in` how
/// many compressed bytes the stream occupied; fails on a corrupt or
/// truncated stream.
#[verifier::external_body]
pub fn zlib_decompress_prefix(data: &[u8]) -> (r: Option<(Vec<u8>, usize)>)
    ensures
        r matches Some(p) ==> p.1 <= data@.len() && inflate_prefix(data@) == Some(
            (p.0@, p.1 as nat),
        ),
        r is None <==> inflate_prefix(data@) is None,
{
    let mut dec = flate2::read::ZlibDecoder::new(data);
    let mut out = Vec::new();
    match dec.read_to_end(&mut out) {
        Ok(_) => {
            let used = dec.total_in() as usize;
            Some((out, used))
        },
        Err(_) => None,
    }
}

} // verus!
