//! The SHA-1 content digest and its hexadecimal rendering.
//!
//! Every object id and every pack trailer in the engine is the SHA-1 digest
//! of some byte sequence, written or compared either raw or as 40
//! hexadecimal characters.

use vstd::prelude::*;
use sha1::Digest;
use crate::encoding::{spec_hex_encode, spec_hex_decode, spec_hex_decode_ok};

verus! {

/// What the SHA-1 function returns for a byte sequence.  Its value is
/// determined by the input bytes alone; nothing further is assumed of it.
pub uninterp spec fn sha1_core(data: Seq<u8>) -> Seq<u8>;

/// The SHA-1 digest of a byte sequence, normalized so that contracts can
/// rely on its documented 20-byte length.
pub open spec fn sha1_of(data: Seq<u8>) -> Seq<u8> {
    if sha1_core(data).len() == 20 {
        sha1_core(data)
    } else {
        Seq::new(20, |i: int| 0u8)
    }
}

/// The digest is always 20 bytes long.
pub proof fn lemma_sha1_len(data: Seq<u8>)
    ensures
        sha1_of(data).len() == 20,
{
}

/// Relies on `sha1::Sha1` through the `Digest` trait: the 20-byte SHA-1
/// digest of the input, a function of the input bytes alone.
#[verifier::external_body]
pub fn sha1_digest(data: &[u8]) -> (r: Vec<u8>)
    ensures
        r@ == sha1_core(data@),
        r@ == sha1_of(data@),
{
    sha1::Sha1::digest(data).to_vec()
}

/// Relies on `hex::encode`: two lowercase hexadecimal digits per byte,
/// high digit first.
#[verifier::external_body]
pub fn hex_encode(data: &[u8]) -> (r: String)
    ensures
        r@ == spec_hex_encode(data@),
{
    hex::encode(data)
}

/// Relies on `hex::decode`: succeeds exactly on an even number of
/// hexadecimal digits of either case and returns the bytes they denote.
#[verifier::external_body]
pub fn hex_decode(s: &str) -> (r: Option<Vec<u8>>)
    ensures
        r is Some <==> spec_hex_decode_ok(s@),
        r matches Some(b) ==> b@ == spec_hex_decode(s@),
{
    match hex::decode(s) {
        Ok(b) => Some(b),
        Err(_) => None,
    }
}

} // verus!
