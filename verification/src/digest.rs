//! The per-file content digest.
//!
//! Every file the engine touches is keyed by `(digest, size)`. The digest is
//! the 64-bit FNV-1a hash of the file's bytes, computed here so that the
//! whole pipeline — capture, deduplication, verification, restore — agrees
//! on one definition.

use vstd::prelude::*;

verus! {

/// The FNV-1a 64-bit offset basis.
pub const FNV_OFFSET: u64 = 0xcbf29ce484222325;

/// The FNV-1a 64-bit prime.
pub const FNV_PRIME: u64 = 0x100000001b3;

/// One FNV-1a step: fold the byte in, multiply by the prime modulo 2^64.
pub open spec fn digest_step(h: u64, b: u8) -> u64 {
    (((h ^ (b as u64)) as nat * FNV_PRIME as nat) % 0x1_0000_0000_0000_0000) as u64
}

/// The digest of the first `n` bytes of `data`.
pub open spec fn digest_prefix(data: Seq<u8>, n: int) -> u64
    decreases n,
{
    if n <= 0 {
        FNV_OFFSET
    } else {
        digest_step(digest_prefix(data, n - 1), data[n - 1])
    }
}

/// The digest of a byte sequence: 64-bit FNV-1a over all of it.
pub open spec fn digest_of(data: Seq<u8>) -> u64 {
    digest_prefix(data, data.len() as int)
}

/// Computes the digest of `data`, matching `digest_of` exactly.
pub fn compute_digest(data: &Vec<u8>) -> (d: u64)
    ensures
        d == digest_of(data@),
{
    let mut h: u64 = FNV_OFFSET;
    let mut i: usize = 0;
    while i < data.len()
        invariant
            0 <= i <= data@.len(),
            h == digest_prefix(data@, i as int),
        decreases data@.len() - i,
    {
        let b = data[i];
        h = (h ^ (b as u64)).wrapping_mul(FNV_PRIME);
        i = i + 1;
    }
    h
}

} // verus!
