//! Cryptographic hashing: SHA-256 through the `sha2` crate, and the
//! double-SHA-256 used for txids, block hashes and merkle nodes.

use vstd::prelude::*;
use vstd::slice::slice_to_vec;

verus! {

/// What SHA-256 returns on a byte sequence.
pub uninterp spec fn sha256_of(b: Seq<u8>) -> Seq<u8>;

/// Relies on sha2's `Sha256` (through `Digest::digest`): a 32-byte digest
/// that is a function of the input bytes alone.
#[verifier::external_body]
pub(crate) fn sha256(data: &[u8]) -> (r: [u8; 32])
    ensures
        r@ == sha256_of(data@),
{
    let digest = <sha2::Sha256 as sha2::Digest>::digest(data);
    let mut out = [0u8; 32];
    out.copy_from_slice(&digest);
    out
}

/// What RIPEMD-160 returns on a byte sequence.
pub uninterp spec fn ripemd160_of(b: Seq<u8>) -> Seq<u8>;

/// Relies on ripemd's `Ripemd160` (through `Digest::digest`): a 20-byte
/// digest that is a function of the input bytes alone.
#[verifier::external_body]
pub(crate) fn ripemd160(data: &[u8]) -> (r: [u8; 20])
    ensures
        r@ == ripemd160_of(data@),
{
    let digest = <ripemd::Ripemd160 as ripemd::Digest>::digest(data);
    let mut out = [0u8; 20];
    out.copy_from_slice(&digest);
    out
}

/// The HASH160 of a byte sequence: RIPEMD-160 of its SHA-256.
pub open spec fn hash160_of(b: Seq<u8>) -> Seq<u8> {
    ripemd160_of(sha256_of(b))
}

/// Computes HASH160, as pay-to-key-hash and pay-to-script-hash commit
/// to their keys and scripts.
pub fn hash160(data: &[u8]) -> (r: [u8; 20])
    ensures
        r@ == hash160_of(data@),
{
    let first = sha256(data);
    let first_vec: Vec<u8> = slice_to_vec(first.as_slice());
    ripemd160(first_vec.as_slice())
}

/// Computes a single RIPEMD-160.
pub fn ripemd160_bytes(data: &[u8]) -> (r: [u8; 20])
    ensures
        r@ == ripemd160_of(data@),
{
    ripemd160(data)
}

/// Computes a single SHA-256, as version-0 witness programs commit to
/// their scripts.
pub fn sha256_bytes(data: &[u8]) -> (r: [u8; 32])
    ensures
        r@ == sha256_of(data@),
{
    sha256(data)
}

/// The double SHA-256 of a byte sequence.
pub open spec fn dsha256_of(b: Seq<u8>) -> Seq<u8> {
    sha256_of(sha256_of(b))
}

/// Computes SHA-256 twice, as txids and block hashes require.
pub fn dsha256(data: &[u8]) -> (r: [u8; 32])
    ensures
        r@ == dsha256_of(data@),
        r@.len() == 32,
{
    let first = sha256(data);
    let first_vec: Vec<u8> = slice_to_vec(first.as_slice());
    sha256(first_vec.as_slice())
}

} // verus!
