//! Word-level bit counting: a population-count model and the lemmas that
//! connect it to per-position bit tests on 64-bit words.

use vstd::prelude::*;

verus! {

/// True iff bit `k` of `w` is set (for `0 <= k < 64`).
pub open spec fn nth_bit(w: u64, k: int) -> bool {
    (w >> (k as u64)) & 1 == 1
}

/// Number of set bits in `w`.
pub open spec fn pop64(w: u64) -> nat
    decreases w via pop64_decreases
{
    if w == 0 {
        0
    } else {
        ((w & 1) as nat) + pop64(w >> 1)
    }
}

#[via_fn]
proof fn pop64_decreases(w: u64) {
    assert(w != 0 ==> (w >> 1) < w) by (bit_vector);
}

/// Number of set bits of `w` at positions strictly below `k` (for `0 <= k <= 64`).
pub open spec fn bits_below(w: u64, k: int) -> nat
    decreases k
{
    if k <= 0 {
        0
    } else {
        bits_below(w, k - 1) + (if nth_bit(w, k - 1) {
            1nat
        } else {
            0nat
        })
    }
}

/// A word with exactly the low `k` bits set (for `0 <= k <= 64`).
pub open spec fn low_mask(k: int) -> u64 {
    if k >= 64 {
        0xffff_ffff_ffff_ffffu64
    } else if k <= 0 {
        0u64
    } else {
        ((1u64 << (k as u64)) - 1) as u64
    }
}

/// For `1 <= k < 64` the mask value is the subtraction itself: it never
/// wraps, so the truncating cast in the definition is the identity.
pub proof fn lemma_low_mask_val(k: int)
    requires
        1 <= k < 64,
    ensures
        low_mask(k) == (1u64 << (k as u64)) - 1,
{
    let ku = k as u64;
    assert(1u64 << ku >= 1) by (bit_vector)
        requires
            1 <= ku < 64,
    ;
}

/// Counting the low `k` bits of `w` is the same as the lowest bit of `w` plus
/// the count of the low `k - 1` bits of `w` shifted right once.
proof fn lemma_bits_below_shift(w: u64, k: int)
    requires
        1 <= k <= 64,
    ensures
        bits_below(w, k) == ((w & 1) as nat) + bits_below(w >> 1, k - 1),
    decreases k,
{
    reveal_with_fuel(bits_below, 3);
    assert(w & 1 == 0 || w & 1 == 1) by (bit_vector);
    if k == 1 {
        assert(((w >> 0u64) & 1 == 1) <==> (w & 1 == 1)) by (bit_vector);
    } else {
        lemma_bits_below_shift(w, k - 1);
        let j = (k - 1) as u64;
        let j1 = (k - 2) as u64;
        assert((((w >> 1) >> j1) & 1) == ((w >> j) & 1)) by (bit_vector)
            requires
                j1 + 1 == j && 1 <= j < 64,
        ;
    }
}

/// The zero word has no set bits below any position.
proof fn lemma_bits_below_zero(k: int)
    requires
        0 <= k <= 64,
    ensures
        bits_below(0u64, k) == 0,
    decreases k,
{
    if k > 0 {
        lemma_bits_below_zero(k - 1);
        let j = (k - 1) as u64;
        assert(((0u64 >> j) & 1) == 0) by (bit_vector);
    }
}

/// The population count of a word equals the count of its 64 bit positions.
pub proof fn lemma_pop64_bits_below(w: u64)
    ensures
        pop64(w) == bits_below(w, 64),
    decreases w,
{
    if w == 0 {
        lemma_bits_below_zero(64);
    } else {
        assert((w >> 1) < w) by (bit_vector)
            requires
                w != 0,
        ;
        lemma_pop64_bits_below(w >> 1);
        lemma_bits_below_shift(w, 64);
        assert(((w >> 1) >> 63u64) & 1 == 0) by (bit_vector);
        assert(bits_below(w >> 1, 64) == bits_below(w >> 1, 63));
    }
}

/// If the low `k` bits of `w` are all clear, no bit of `w` below `k` is set.
proof fn lemma_bits_below_mask_zero(w: u64, k: int)
    requires
        0 <= k <= 64,
        w & low_mask(k) == 0,
    ensures
        bits_below(w, k) == 0,
    decreases k,
{
    if k > 0 {
        let m = low_mask(k);
        let m1 = low_mask(k - 1);
        let ku = k as u64;
        let j = (k - 1) as u64;
        if k < 64 {
            lemma_low_mask_val(k);
            if k > 1 {
                lemma_low_mask_val(k - 1);
            }
            assert((w & m == 0 && m == (1u64 << ku) - 1 && m1 == m >> 1 && j + 1 == ku && 1 <= ku
                < 64) ==> (w & m1 == 0 && ((w >> j) & 1) == 0)) by (bit_vector);
            assert(m1 == m >> 1) by (bit_vector)
                requires
                    m == (1u64 << ku) - 1 && (if 1 <= j {
                        m1 == (1u64 << j) - 1
                    } else {
                        m1 == 0
                    }) && j + 1 == ku && 1 <= ku < 64,
            ;
        } else {
            lemma_low_mask_val(63);
            assert((w & 0xffff_ffff_ffff_ffffu64 == 0 && m1 == (1u64 << 63u64) - 1) ==> (w & m1
                == 0 && ((w >> 63u64) & 1) == 0)) by (bit_vector);
        }
        assert(w & m1 == 0);
        assert(((w >> j) & 1) == 0);
        lemma_bits_below_mask_zero(w, k - 1);
    }
}

/// Masking a word to its low `k` bits and counting all its set bits counts
/// exactly the bits of the word below position `k`.
pub proof fn lemma_pop64_mask(w: u64, k: int)
    requires
        0 <= k <= 64,
    ensures
        pop64(w & low_mask(k)) == bits_below(w, k),
    decreases k,
{
    if k == 0 {
        assert(w & 0u64 == 0) by (bit_vector);
    } else if k == 64 {
        assert(w & 0xffff_ffff_ffff_ffffu64 == w) by (bit_vector);
        lemma_pop64_bits_below(w);
    } else {
        let m = low_mask(k);
        let m1 = low_mask(k - 1);
        let ku = k as u64;
        let j = (k - 1) as u64;
        if (w & m) == 0 {
            assert(pop64(w & m) == 0);
            lemma_bits_below_mask_zero(w, k);
        } else {
            lemma_low_mask_val(k);
            if k > 1 {
                lemma_low_mask_val(k - 1);
            }
            assert((w & m) & 1 == (w & 1)) by (bit_vector)
                requires
                    m == (1u64 << ku) - 1 && 1 <= ku < 64,
            ;
            if k == 1 {
                assert((w & m) >> 1 == 0) by (bit_vector)
                    requires
                        m == (1u64 << ku) - 1 && ku == 1,
                ;
                assert(pop64(0u64) == 0);
                assert(w & 1 == 0 || w & 1 == 1) by (bit_vector);
                assert(pop64(w & m) == ((w & 1) as nat));
                lemma_bits_below_shift(w, 1);
            } else {
                assert((w & m) >> 1 == (w >> 1) & m1) by (bit_vector)
                    requires
                        m == (1u64 << ku) - 1 && m1 == (1u64 << j) - 1 && j + 1 == ku && 2 <= ku
                            < 64,
                ;
                lemma_pop64_mask(w >> 1, k - 1);
                lemma_bits_below_shift(w, k);
            }
        }
    }
}

/// A word has at most `k` set bits below position `k`.
pub proof fn lemma_bits_below_bound(w: u64, k: int)
    requires
        0 <= k <= 64,
    ensures
        bits_below(w, k) <= k,
    decreases k,
{
    if k > 0 {
        lemma_bits_below_bound(w, k - 1);
    }
}

/// Population count of a 64-bit word.
pub fn popcount(w: u64) -> (r: u64)
    ensures
        r == pop64(w),
        r <= 64,
{
    proof {
        lemma_pop64_bits_below(w);
        lemma_bits_below_bound(w, 64);
    }
    let mut v = w;
    let mut c: u64 = 0;
    while v != 0
        invariant
            c + pop64(v) == pop64(w),
            pop64(w) <= 64,
        decreases v,
    {
        proof {
            assert((v >> 1) < v) by (bit_vector)
                requires
                    v != 0,
            ;
        }
        c = c + (v & 1);
        v = v >> 1;
    }
    c
}

} // verus!
