//! Hashing of values: the SHA-256 digest of their UTF-8 bytes.

use crate::hash::NodeHash;
use vstd::prelude::*;
use vstd::utf8::encode_utf8;

verus! {

/// The SHA-256 digest of a byte string.
pub uninterp spec fn sha256_of(data: Seq<u8>) -> Seq<u8>;

/// Relies on `sha2::Sha256` through `digest::Digest::digest`: the SHA-256
/// digest of `data`, which depends on the bytes alone.
#[verifier::external_body]
fn sha256(data: &[u8]) -> (r: [u8; 32])
    ensures
        r@ == sha256_of(data@),
{
    <sha2::Sha256 as sha2::Digest>::digest(data).into()
}

/// The hash of a value: the SHA-256 digest of its UTF-8 encoding.
pub open spec fn value_hash(value: Seq<char>) -> Seq<u8> {
    sha256_of(encode_utf8(value))
}

/// Hashes a value for storage in a leaf.
pub fn hash_value(value: &str) -> (r: NodeHash)
    ensures
        r@ == value_hash(value@),
{
    NodeHash(sha256(value.as_bytes()))
}

} // verus!
