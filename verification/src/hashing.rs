//! Seeded hashing of byte-string keys and reduction into a level's range.
//!
//! Each construction level hashes every key with a seed derived from the
//! level's ordinal, then reduces the 64-bit hash into `[0, size)`: for sizes
//! below two to the thirty-second, by folding to 32 bits and taking a
//! multiply-high; otherwise by a plain modulus.

use vstd::prelude::*;

verus! {

/// The 64-bit hash that the wyhash algorithm assigns to `data` under `seed`.
/// It depends on the bytes and the seed alone.
pub uninterp spec fn wyhash_of(data: Seq<u8>, seed: u64) -> u64;

/// Relies on `wyhash::wyhash` (the crate's v1 hash): a pure, total function
/// of the input bytes and the seed.
#[verifier::external_body]
fn wyhash_raw(data: &[u8], seed: u64) -> (r: u64)
    ensures
        r == wyhash_of(data@, seed),
{
    wyhash::wyhash(data, seed)
}

/// The per-level seed: level `i` hashes with seed `2^(2 * i)`.
pub open spec fn seed_of(level: int) -> u64
    recommends
        0 <= level < 32,
{
    1u64 << ((2 * level) as u64)
}

/// XOR of the two 32-bit halves of a 64-bit hash.
pub open spec fn spec_fold(v: u64) -> u32 {
    ((v & 0xffff_ffff) as u32) ^ ((v >> 32) as u32)
}

/// Multiply-high reduction of a 32-bit hash into `[0, n)`.
pub open spec fn spec_fastmod(hash: u32, n: u32) -> u64 {
    (((hash as u64) * (n as u64)) as u64) >> 32
}

/// The reduced position of a key at a level with `n` slots.
pub open spec fn spec_hashmod(key: Seq<u8>, level: int, n: u64) -> u64 {
    if n < 0x1_0000_0000 {
        spec_fastmod(spec_fold(wyhash_of(key, seed_of(level))), n as u32)
    } else {
        wyhash_of(key, seed_of(level)) % n
    }
}

/// The reduction lands inside the range whenever the range is nonempty.
pub proof fn lemma_hashmod_range(key: Seq<u8>, level: int, n: u64)
    requires
        n >= 1,
    ensures
        spec_hashmod(key, level, n) < n,
{
    if n < 0x1_0000_0000 {
        let h = spec_fold(wyhash_of(key, seed_of(level)));
        let n32 = n as u32;
        let h64 = h as u64;
        let m64 = n32 as u64;
        assert((((h64 * m64) as u64) >> 32 < m64 || m64 == 0) && h64 * m64 < 0xffff_ffff_ffff_ffff)
            by (bit_vector)
            requires
                h64 < 0x1_0000_0000 && m64 < 0x1_0000_0000,
        ;
    } else {
        let h = wyhash_of(key, seed_of(level));
        vstd::arithmetic::div_mod::lemma_mod_bound(h as int, n as int);
    }
}

/// Folds a 64-bit hash into 32 bits.
pub fn fold(v: u64) -> (r: u32)
    ensures
        r == spec_fold(v),
{
    ((v & 0xffff_ffff) as u32) ^ ((v >> 32) as u32)
}

/// Hashes `key` with the seed of level `iter`.
pub fn hash_with_seed(iter: u64, key: &[u8]) -> (r: u64)
    requires
        iter < 32,
    ensures
        r == wyhash_of(key@, seed_of(iter as int)),
{
    let seed = 1u64 << (2 * iter);
    wyhash_raw(key, seed)
}

/// Hashes `key` with the seed of level `iter`, folded to 32 bits.
pub fn hash_with_seed32(iter: u64, key: &[u8]) -> (r: u32)
    requires
        iter < 32,
    ensures
        r == spec_fold(wyhash_of(key@, seed_of(iter as int))),
{
    fold(hash_with_seed(iter, key))
}

/// Multiply-high reduction of a 32-bit hash into `[0, n)`, division-free.
pub fn fastmod(hash: u32, n: u32) -> (r: u64)
    ensures
        r == spec_fastmod(hash, n),
{
    let h64 = hash as u64;
    let m64 = n as u64;
    proof {
        assert(h64 * m64 < 0xffff_ffff_ffff_ffff) by (bit_vector)
            requires
                h64 < 0x1_0000_0000 && m64 < 0x1_0000_0000,
        ;
    }
    (h64 * m64) >> 32
}

/// The position of `key` at level `iter` of a table with `n` slots.
pub fn hashmod(iter: u64, key: &[u8], n: u64) -> (r: u64)
    requires
        iter < 32,
        n >= 1,
    ensures
        r == spec_hashmod(key@, iter as int, n),
        r < n,
{
    proof {
        lemma_hashmod_range(key@, iter as int, n);
    }
    if n < 0x1_0000_0000 {
        let h = hash_with_seed32(iter, key);
        fastmod(h, n as u32)
    } else {
        let h = hash_with_seed(iter, key);
        h % n
    }
}

} // verus!
