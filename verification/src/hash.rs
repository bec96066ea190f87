//! The hash that places a key in the hashmap: a stable, deterministic
//! 128-bit hash of the key's bytes, reduced modulo the hashmap size.
//! Changing the hash is a format-incompatible change.

use vstd::prelude::*;

verus! {

/// What `stable_hash::fast_stable_hash` returns for a byte sequence. The
/// hash is documented to be stable across builds, platforms and processes,
/// so it is a function of the bytes alone; its value is not spelled out
/// here, and nothing in this crate depends on what it is.
pub uninterp spec fn stable_hash_of(key: Seq<u8>) -> u128;

/// Relies on `stable_hash::fast_stable_hash` over
/// `stable_hash::utils::AsBytes`: a deterministic, non-cryptographic
/// 128-bit hash of exactly the given bytes, stable across runs and
/// platforms (the crate's `&str` hash is defined as this hash of the
/// string's UTF-8 bytes).
#[verifier::external_body]
fn stable_hash_key(key: &Vec<u8>) -> (r: u128)
    ensures
        r == stable_hash_of(key@),
{
    stable_hash::fast_stable_hash(&stable_hash::utils::AsBytes(key.as_slice()))
}

/// The slot a key belongs to, in a hashmap of `n` slots.
pub open spec fn spec_hash(key: Seq<u8>, n: u64) -> u64
    recommends
        n >= 1,
{
    (stable_hash_of(key) % (n as u128)) as u64
}

pub fn hash_function(value: &Vec<u8>, hashmap_size: u64) -> (h: u64)
    requires
        hashmap_size >= 1,
    ensures
        h == spec_hash(value@, hashmap_size),
        h < hashmap_size,
{
    let r = stable_hash_key(value) % (hashmap_size as u128);
    assert(r < hashmap_size as u128);
    r as u64
}

} // verus!
