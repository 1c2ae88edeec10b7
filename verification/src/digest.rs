//! Content hashing: a 256-bit cryptographic digest rendered as 64 lowercase
//! hexadecimal digits. The digest itself comes from an outside crate; what
//! it returns is given a name, and everything downstream is stated over
//! that name.

use vstd::prelude::*;
use crate::hex::{hex_of, hex_encode};
use sha2::Digest;

verus! {

/// The SHA-256 digest of a byte string. The digest is a function of the
/// input bytes alone; its 32 bytes are not written out here.
pub uninterp spec fn sha256_of(data: Seq<u8>) -> Seq<u8>;

/// Relies on sha2::Sha256 (SHA-256 of FIPS 180-4): the digest is 32 bytes
/// and depends on the input bytes alone.
#[verifier::external_body]
fn sha256(data: &[u8]) -> (r: Vec<u8>)
    ensures
        r@ == sha256_of(data@),
        r@.len() == 32,
{
    let mut h = sha2::Sha256::new();
    h.update(data);
    h.finalize().to_vec()
}

/// The lowercase hexadecimal rendering of the SHA-256 digest of a byte
/// string: the content hash used for block identity, transaction identity,
/// and gossip deduplication.
pub open spec fn hash_hex_of(data: Seq<u8>) -> Seq<u8> {
    hex_of(sha256_of(data))
}

/// Hashes a byte string and renders the digest as 64 lowercase hexadecimal
/// digits.
pub fn hash_bytes(data: &[u8]) -> (r: Vec<u8>)
    ensures
        r@ == hash_hex_of(data@),
        r@.len() == 64,
{
    let d = sha256(data);
    hex_encode(d.as_slice())
}

} // verus!
