//! A fixed-capacity bit vector augmented with rank checkpoints.
//!
//! The vector stores one checkpoint per 512-bit block. A checkpoint holds the
//! rank of the block's first position plus a caller-chosen base offset, so
//! `rank` answers in O(1): one checkpoint read, at most seven whole-word
//! population counts, and one partial word.

use vstd::prelude::*;

use crate::bits::bits_below;
use crate::bits::lemma_low_mask_val;
use crate::bits::lemma_pop64_bits_below;
use crate::bits::lemma_pop64_mask;
use crate::bits::low_mask;
use crate::bits::nth_bit;
use crate::bits::pop64;
use crate::bits::popcount;

verus! {

/// Bit `i` of a sequence of 64-bit words, in little-endian word order.
pub open spec fn seq_bit(words: Seq<u64>, i: int) -> bool {
    nth_bit(words[i / 64], i % 64)
}

/// Number of set bits at positions strictly below `n`.
pub open spec fn seq_count(words: Seq<u64>, n: int) -> nat
    decreases n
{
    if n <= 0 {
        0
    } else {
        seq_count(words, n - 1) + (if seq_bit(words, n - 1) {
            1nat
        } else {
            0nat
        })
    }
}

/// Counting is monotone in the position.
pub proof fn lemma_seq_count_monotone(words: Seq<u64>, a: int, b: int)
    requires
        a <= b,
    ensures
        seq_count(words, a) <= seq_count(words, b),
    decreases b - a,
{
    if a < b {
        lemma_seq_count_monotone(words, a, b - 1);
    }
}

/// At most `n` bits lie below position `n`.
pub proof fn lemma_seq_count_bound(words: Seq<u64>, n: int)
    ensures
        seq_count(words, n) <= (if n >= 0 {
            n
        } else {
            0
        }),
    decreases n,
{
    if n > 0 {
        lemma_seq_count_bound(words, n - 1);
    }
}

/// A range without set bits contributes nothing to the count.
pub proof fn lemma_seq_count_clear_range(words: Seq<u64>, a: int, b: int)
    requires
        a <= b,
        forall|i: int| a <= i < b ==> !seq_bit(words, i),
    ensures
        seq_count(words, b) == seq_count(words, a),
    decreases b - a,
{
    if a < b {
        lemma_seq_count_clear_range(words, a, b - 1);
    }
}

/// Within word `j`, the bits counted between positions `64 * j` and
/// `64 * j + k` are exactly the low `k` bits of that word.
pub proof fn lemma_seq_count_word(words: Seq<u64>, j: int, k: int)
    requires
        0 <= j,
        0 <= k <= 64,
    ensures
        seq_count(words, 64 * j + k) == seq_count(words, 64 * j) + bits_below(words[j], k),
    decreases k,
{
    if k > 0 {
        lemma_seq_count_word(words, j, k - 1);
        let i = 64 * j + (k - 1);
        assert(i / 64 == j && i % 64 == k - 1) by (nonlinear_arith)
            requires
                0 <= j && 0 <= k - 1 < 64 && i == 64 * j + (k - 1),
        ;
    }
}

/// Counting up to a word boundary adds the full population count of the word.
pub proof fn lemma_seq_count_full_word(words: Seq<u64>, j: int)
    requires
        0 <= j,
    ensures
        seq_count(words, 64 * (j + 1)) == seq_count(words, 64 * j) + pop64(words[j]),
{
    lemma_seq_count_word(words, j, 64);
    lemma_pop64_bits_below(words[j]);
}

/// Bit `t` of `w` is set iff `w & (1 << t)` is nonzero.
proof fn lemma_mask_test(w: u64, t: u64)
    requires
        t < 64,
    ensures
        ((w & (1u64 << t)) != 0) == nth_bit(w, t as int),
{
    assert(((w & (1u64 << t)) != 0) == (((w >> t) & 1) == 1)) by (bit_vector)
        requires
            t < 64,
    ;
}

/// Number of 64-bit words needed to hold `elements` bit positions.
pub fn u64s(elements: u64) -> (r: u64)
    requires
        elements <= u64::MAX - 63,
    ensures
        r == (elements + 63) / 64,
{
    (elements + 63) / 64
}

/// The word index and the offset inside that word of bit `index`.
pub fn word_offset(index: u64) -> (r: (u64, u64))
    ensures
        r.0 == index / 64,
        r.1 == index % 64,
{
    (index / 64, index % 64)
}

/// The word index of bit `index` and a single-bit mask selecting it there.
pub fn word_mask(index: u64) -> (r: (usize, u64))
    requires
        index / 64 <= usize::MAX,
    ensures
        r.0 == index / 64,
        r.1 == 1u64 << (index % 64),
{
    let word = (index / 64) as usize;
    let shift = index % 64;
    let mask = 1u64 << shift;
    (word, mask)
}

/// A read-only bit vector of `bits` positions over 64-bit words, together
/// with one rank checkpoint per 512-bit block.
#[derive(Debug)]
pub struct BitVector {
    /// Number of representable bit positions.
    pub bits: u64,
    /// The packed bits; exactly `ceil(bits / 64)` words, with any padding
    /// positions beyond `bits` clear.
    pub words: Vec<u64>,
    /// `ranks[b]` holds `ranks[0]` plus the number of set bits at positions
    /// below `512 * b`; `ranks[0]` itself is an arbitrary base offset added
    /// to every rank answer.
    pub ranks: Vec<u64>,
}

impl BitVector {
    /// Whether position `i` is set.
    pub open spec fn bit_set(self, i: int) -> bool {
        seq_bit(self.words@, i)
    }

    /// Number of set positions strictly below `n`.
    pub open spec fn count_below(self, n: int) -> nat {
        seq_count(self.words@, n)
    }

    /// The base offset embedded in the checkpoints.
    pub open spec fn base(self) -> u64 {
        if self.ranks@.len() > 0 {
            self.ranks@[0]
        } else {
            0
        }
    }

    /// What `rank` returns for position `i`.
    pub open spec fn spec_rank(self, i: int) -> int {
        self.base() + self.count_below(i)
    }

    /// Structural well-formedness: word and checkpoint arrays have the sizes
    /// the capacity dictates, padding bits are clear, every checkpoint holds
    /// the base plus the count below its block, and no rank answer can
    /// overflow a `u64`.
    pub open spec fn wf(self) -> bool {
        &&& self.words@.len() == ((self.bits + 63) / 64) as int
        &&& self.ranks@.len() == ((self.bits + 511) / 512) as int
        &&& forall|i: int|
            self.bits <= i < 64 * self.words@.len() ==> !(#[trigger] seq_bit(self.words@, i))
        &&& forall|b: int|
            0 <= b < self.ranks@.len() ==> (#[trigger] self.ranks@[b]) as int == self.base()
                + self.count_below(512 * b)
        &&& self.base() + self.count_below(64 * self.words@.len() as int) <= u64::MAX
    }

    /// Assembles a bit vector from its embedded parts: the capacity, the
    /// packed words, and the rank checkpoints.
    pub fn from_embedded_state(bits: u64, words: Vec<u64>, ranks: Vec<u64>) -> (r: BitVector)
        requires
            (BitVector { bits, words, ranks }).wf(),
        ensures
            r == (BitVector { bits, words, ranks }),
            r.wf(),
    {
        BitVector { bits, words, ranks }
    }

    /// The number of bit positions this vector can represent.
    pub fn capacity(&self) -> (r: u64)
        ensures
            r == self.bits,
    {
        self.bits
    }

    /// Word `word` of the packed representation.
    pub fn get_word(&self, word: usize) -> (r: u64)
        requires
            word < self.words@.len(),
        ensures
            r == self.words@[word as int],
    {
        self.words[word]
    }

    /// How many words the packed representation holds.
    pub fn num_words(&self) -> (r: usize)
        ensures
            r == self.words@.len(),
    {
        self.words.len()
    }

    /// Whether position `bit` is set. The position must be within capacity.
    pub fn contains(&self, bit: u64) -> (r: bool)
        requires
            self.wf(),
            bit < self.bits,
        ensures
            r == self.bit_set(bit as int),
    {
        let n = self.words.len();
        proof {
            lemma_div_in_range(bit, self.bits, 64, self.words@.len() as int);
            assert(self.words@.len() == n);
        }
        let (word, mask) = word_mask(bit);
        proof {
            lemma_mask_test(self.words@[word as int], bit % 64);
        }
        (self.get_word(word) & mask) != 0
    }

    /// The total number of set positions.
    pub fn len(&self) -> (r: u64)
        requires
            self.wf(),
        ensures
            r == self.count_below(self.bits as int),
    {
        proof {
            lemma_seq_count_clear_range(
                self.words@,
                self.bits as int,
                64 * self.words@.len() as int,
            );
            lemma_seq_count_bound(self.words@, self.bits as int);
        }
        let n = self.words.len();
        let mut j: usize = 0;
        let mut acc: u64 = 0;
        while j < n
            invariant
                self.wf(),
                n == self.words@.len(),
                0 <= j <= n,
                acc == seq_count(self.words@, 64 * j as int),
                seq_count(self.words@, 64 * n as int) == self.count_below(self.bits as int),
                self.count_below(self.bits as int) <= self.bits,
            decreases n - j,
        {
            proof {
                lemma_seq_count_full_word(self.words@, j as int);
                lemma_seq_count_monotone(self.words@, 64 * (j + 1) as int, 64 * n as int);
            }
            acc = acc + popcount(self.words[j]);
            j = j + 1;
        }
        acc
    }

    /// Whether no position at all is set.
    pub fn is_empty(&self) -> (r: bool)
        requires
            self.wf(),
        ensures
            r == (self.count_below(self.bits as int) == 0),
    {
        let n = self.words.len();
        let mut j: usize = 0;
        while j < n
            invariant
                self.wf(),
                n == self.words@.len(),
                0 <= j <= n,
                forall|t: int| 0 <= t < j ==> self.words@[t] == 0,
            decreases n - j,
        {
            if self.words[j] != 0 {
                proof {
                    lemma_word_nonzero_count(self.words@, j as int, self.bits as int);
                }
                return false;
            }
            j = j + 1;
        }
        proof {
            lemma_wf_capacity(self);
            assert forall|i: int| 0 <= i < self.bits as int implies !seq_bit(self.words@, i) by {
                lemma_div_in_range_int(i, self.bits as int, self.words@.len() as int);
                let t: u64 = (i % 64) as u64;
                assert(((0u64 >> t) & 1) == 0) by (bit_vector);
            }
            lemma_seq_count_clear_range(self.words@, 0, self.bits as int);
        }
        true
    }

    /// The rank answer for position `bit`: the embedded base offset plus the
    /// number of set positions strictly below `bit`.
    pub fn rank(&self, bit: u64) -> (r: u64)
        requires
            self.wf(),
            bit < self.bits,
        ensures
            r as int == self.spec_rank(bit as int),
    {
        let n_ranks = self.ranks.len();
        let n_words = self.words.len();
        let block = bit / 512;
        let word_idx = bit / 64;
        let start = word_idx & !7u64;
        proof {
            lemma_div_in_range(bit, self.bits, 512, self.ranks@.len() as int);
            lemma_div_in_range(bit, self.bits, 64, self.words@.len() as int);
            assert((bit / 64) & !7u64 == 8 * (bit / 512)) by (bit_vector);
            assert(64 * start as int == 512 * block as int);
            lemma_seq_count_monotone(
                self.words@,
                64 * word_idx as int,
                64 * self.words@.len() as int,
            );
        }
        let mut r = self.ranks[block as usize];
        proof {
            assert(r as int == self.base() + self.count_below(512 * block as int));
            assert(r as int == self.base() + seq_count(self.words@, 64 * start as int));
        }
        let mut j = start;
        while j < word_idx
            invariant
                self.wf(),
                n_words == self.words@.len(),
                start <= j <= word_idx,
                word_idx == bit / 64,
                word_idx < n_words,
                r as int == self.base() + seq_count(self.words@, 64 * j as int),
                seq_count(self.words@, 64 * word_idx as int) <= seq_count(
                    self.words@,
                    64 * self.words@.len() as int,
                ),
            decreases word_idx - j,
        {
            proof {
                lemma_seq_count_full_word(self.words@, j as int);
                lemma_seq_count_monotone(
                    self.words@,
                    64 * (j + 1) as int,
                    64 * word_idx as int,
                );
                assert(self.base() + seq_count(self.words@, 64 * (j + 1) as int) <= u64::MAX);
            }
            r = r + popcount(self.words[j as usize]);
            j = j + 1;
        }
        let rem = bit % 64;
        proof {
            lemma_seq_count_word(self.words@, word_idx as int, rem as int);
            assert(64 * (bit / 64) + (bit % 64) == bit) by (bit_vector);
            lemma_seq_count_monotone(self.words@, bit as int, 64 * self.words@.len() as int);
        }
        if rem > 0 {
            proof {
                lemma_low_mask_val(rem as int);
                lemma_pop64_mask(self.words@[word_idx as int], rem as int);
                assert(self.base() + seq_count(self.words@, bit as int) <= u64::MAX);
            }
            let mask = (1u64 << rem) - 1;
            r = r + popcount(self.words[word_idx as usize] & mask);
        }
        r
    }

    /// Whether this vector and `other` agree on every position strictly
    /// below `bit`.
    pub fn eq_left(&self, other: &BitVector, bit: u64) -> (r: bool)
        requires
            self.wf(),
            other.wf(),
            bit <= self.bits,
            bit <= other.bits,
        ensures
            r == (forall|i: int| 0 <= i < bit ==> self.bit_set(i) == other.bit_set(i)),
    {
        if bit == 0 {
            return true;
        }
        let n_self = self.words.len();
        let n_other = other.words.len();
        proof {
            lemma_div_in_range((bit - 1) as u64, self.bits, 64, self.words@.len() as int);
            lemma_div_in_range((bit - 1) as u64, other.bits, 64, other.words@.len() as int);
        }
        let (word, offset) = word_offset(bit - 1);
        let word_us = word as usize;
        let mut j: usize = 0;
        while j < word_us
            invariant
                self.wf(),
                other.wf(),
                0 < bit <= self.bits,
                bit <= other.bits,
                word == (bit - 1) / 64,
                offset == (bit - 1) % 64,
                word_us as int == word as int,
                n_self == self.words@.len(),
                n_other == other.words@.len(),
                word_us < n_self,
                word_us < n_other,
                0 <= j <= word_us,
                forall|t: int| 0 <= t < j ==> self.words@[t] == other.words@[t],
            decreases word_us - j,
        {
            if self.words[j] != other.words[j] {
                proof {
                    lemma_words_differ_bits(self.words@, other.words@, j as int);
                    let i = choose|i: int|
                        64 * j <= i < 64 * (j + 1) && seq_bit(self.words@, i) != seq_bit(
                            other.words@,
                            i,
                        );
                    vstd::arithmetic::div_mod::lemma_fundamental_div_mod((bit - 1) as int, 64);
                    assert(64 * (word as int) <= bit - 1);
                    assert(64 * (j as int) + 64 <= 64 * (word as int));
                    assert(self.bit_set(i) != other.bit_set(i) && 0 <= i < bit);
                }
                return false;
            }
            j = j + 1;
        }
        let a = self.words[word_us];
        let b = other.words[word_us];
        let eq_last = if offset == 63 {
            proof {
                assert(a & 0xffff_ffff_ffff_ffffu64 == a && b & 0xffff_ffff_ffff_ffffu64 == b)
                    by (bit_vector);
            }
            a == b
        } else {
            proof {
                lemma_low_mask_val(offset as int + 1);
            }
            let mask = (1u64 << (offset + 1)) - 1;
            (a & mask) == (b & mask)
        };
        proof {
            lemma_mask_eq_bits(a, b, offset as int + 1);
            assert(eq_last == (forall|t: int|
                0 <= t < offset + 1 ==> nth_bit(a, t) == nth_bit(b, t)));
            assert(64 * ((bit - 1) / 64) + ((bit - 1) % 64) == bit - 1) by (bit_vector)
                requires
                    bit >= 1,
            ;
            lemma_eq_left_bits(self, other, bit as int, word as int, offset as int, eq_last);
        }
        eq_last
    }

    /// An iterator over the set positions, in ascending order. Each call
    /// starts a fresh pass.
    pub fn iter(&self) -> (it: BitVectorIter)
        requires
            self.wf(),
        ensures
            it.words@ == self.words@,
            it.size == self.bits,
            it.idx == 0,
            it.wf(),
    {
        let mut words: Vec<u64> = Vec::new();
        let n = self.words.len();
        let mut j: usize = 0;
        while j < n
            invariant
                n == self.words@.len(),
                0 <= j <= n,
                words@ == self.words@.take(j as int),
            decreases n - j,
        {
            words.push(self.words[j]);
            j = j + 1;
            proof {
                assert(words@ =~= self.words@.take(j as int));
            }
        }
        proof {
            assert(words@ =~= self.words@);
            lemma_wf_capacity(self);
        }
        BitVectorIter { words, size: self.bits, idx: 0 }
    }
}

/// If all positions below `bit` agree bitwise, word-level prefixes agree, and
/// conversely; this packages the final step of `eq_left`.
proof fn lemma_eq_left_bits(
    x: &BitVector,
    y: &BitVector,
    bit: int,
    word: int,
    offset: int,
    words_eq: bool,
)
    requires
        x.wf(),
        y.wf(),
        0 < bit <= x.bits,
        bit <= y.bits,
        word == (bit - 1) / 64,
        offset == (bit - 1) % 64,
        0 <= word < x.words@.len(),
        word < y.words@.len(),
        bit - 1 == 64 * word + offset,
        forall|t: int| 0 <= t < word ==> x.words@[t] == y.words@[t],
        words_eq == (forall|t: int|
            0 <= t < offset + 1 ==> nth_bit(x.words@[word], t) == nth_bit(y.words@[word], t)),
    ensures
        words_eq == (forall|i: int| 0 <= i < bit ==> x.bit_set(i) == y.bit_set(i)),
{
    if words_eq {
        assert forall|i: int| 0 <= i < bit implies x.bit_set(i) == y.bit_set(i) by {
            lemma_div_in_range_int(i, bit, word + 1);
            if i / 64 == word {
                assert(i % 64 < offset + 1) by (nonlinear_arith)
                    requires
                        i <= 64 * word + offset && i / 64 == word && i % 64 == i - 64 * (i / 64)
                            && 0 <= i,
                ;
                assert(i % 64 == i - 64 * (i / 64)) by {
                    vstd::arithmetic::div_mod::lemma_fundamental_div_mod(i, 64);
                }
            }
        }
    } else {
        let t = choose|t: int|
            0 <= t < offset + 1 && nth_bit(x.words@[word], t) != nth_bit(y.words@[word], t);
        let i = 64 * word + t;
        assert(i / 64 == word && i % 64 == t) by (nonlinear_arith)
            requires
                0 <= word && 0 <= t < 64 && i == 64 * word + t,
        ;
        assert(x.bit_set(i) != y.bit_set(i));
        assert(0 <= i < bit);
    }
}

/// Two words that differ must differ in some bit position.
proof fn lemma_words_differ_bits(xs: Seq<u64>, ys: Seq<u64>, j: int)
    requires
        0 <= j < xs.len(),
        j < ys.len(),
        xs[j] != ys[j],
    ensures
        exists|i: int| 64 * j <= i < 64 * (j + 1) && seq_bit(xs, i) != seq_bit(ys, i),
{
    let a = xs[j];
    let b = ys[j];
    lemma_mask_eq_bits(a, b, 64);
    assert(a & low_mask(64) == a && b & low_mask(64) == b) by {
        assert(a & 0xffff_ffff_ffff_ffffu64 == a && b & 0xffff_ffff_ffff_ffffu64 == b)
            by (bit_vector);
    }
    let t = choose|t: int| 0 <= t < 64 && nth_bit(a, t) != nth_bit(b, t);
    let i = 64 * j + t;
    assert(i / 64 == j && i % 64 == t) by (nonlinear_arith)
        requires
            0 <= j && 0 <= t < 64 && i == 64 * j + t,
    ;
    assert(seq_bit(xs, i) != seq_bit(ys, i));
}

/// The masked prefixes of two words agree exactly when the words agree on
/// every bit position below `k`.
proof fn lemma_mask_eq_bits(a: u64, b: u64, k: int)
    requires
        0 <= k <= 64,
    ensures
        ((a & low_mask(k)) == (b & low_mask(k))) == (forall|t: int|
            0 <= t < k ==> nth_bit(a, t) == nth_bit(b, t)),
    decreases k,
{
    if k == 0 {
        assert(a & 0u64 == 0 && b & 0u64 == 0) by (bit_vector);
    } else {
        lemma_mask_eq_bits(a, b, k - 1);
        let m = low_mask(k);
        let m1 = low_mask(k - 1);
        let j = (k - 1) as u64;
        if k < 64 {
            lemma_low_mask_val(k);
        }
        if k - 1 >= 1 {
            lemma_low_mask_val(k - 1);
        }
        assert((if j + 1 < 64 {
            m == (1u64 << (j + 1)) - 1
        } else {
            m == 0xffff_ffff_ffff_ffffu64
        } && (if j >= 1 {
            m1 == (1u64 << j) - 1
        } else {
            m1 == 0
        }) && j < 64) ==> ((a & m == b & m) == (a & m1 == b & m1 && ((a >> j) & 1) == ((b >> j)
            & 1)))) by (bit_vector);
        assert(((a >> j) & 1 == 0 || (a >> j) & 1 == 1) && ((b >> j) & 1 == 0 || (b >> j) & 1
            == 1)) by (bit_vector);
        if (a & m) == (b & m) {
            assert(forall|t: int| 0 <= t < k ==> nth_bit(a, t) == nth_bit(b, t));
        } else {
            if (a & m1) == (b & m1) {
                assert(((a >> j) & 1) != ((b >> j) & 1));
                assert(nth_bit(a, k - 1) != nth_bit(b, k - 1));
            }
        }
    }
}

/// A nonzero word forces a nonzero count over the whole capacity, provided
/// the word lies within it.
proof fn lemma_word_nonzero_count(words: Seq<u64>, j: int, bits: int)
    requires
        0 <= j < words.len(),
        words[j] != 0,
        words.len() == (bits + 63) / 64,
        forall|i: int| bits <= i < 64 * words.len() ==> !(#[trigger] seq_bit(words, i)),
    ensures
        seq_count(words, bits) > 0,
{
    let w = words[j];
    lemma_pop64_pos(w);
    lemma_seq_count_full_word(words, j);
    lemma_seq_count_monotone(words, 64 * (j + 1), 64 * words.len() as int);
    lemma_seq_count_clear_range(words, bits, 64 * words.len() as int);
    assert(64 * (j + 1) <= 64 * words.len() as int);
}

/// A nonzero word has a positive population count.
proof fn lemma_pop64_pos(w: u64)
    requires
        w != 0,
    ensures
        pop64(w) > 0,
    decreases w,
{
    if w & 1 == 0 {
        assert(w >> 1 != 0 && w >> 1 < w) by (bit_vector)
            requires
                w != 0 && w & 1 == 0,
        ;
        lemma_pop64_pos(w >> 1);
    }
}

/// For `x < bound`, the block index `x / d` stays below the ceiling
/// `(bound + d - 1) / d`.
pub proof fn lemma_div_in_range(x: u64, bound: u64, d: u64, len: int)
    requires
        x < bound,
        d >= 1,
        len >= ((bound + d - 1) as int) / (d as int),
    ensures
        ((x / d) as int) < len,
        x / d <= x,
{
    let xi = x as int;
    let bi = bound as int;
    let di = d as int;
    vstd::arithmetic::div_mod::lemma_div_is_ordered(xi, bi - 1, di);
    vstd::arithmetic::div_mod::lemma_div_plus_one(bi - 1, di);
    vstd::arithmetic::div_mod::lemma_div_nonincreasing(xi, di);
}

/// A well-formed vector's capacity fits inside its words.
pub proof fn lemma_wf_capacity(bv: &BitVector)
    requires
        bv.wf(),
    ensures
        bv.bits as int <= 64 * bv.words@.len(),
{
    vstd::arithmetic::div_mod::lemma_fundamental_div_mod(bv.bits as int + 63, 64);
}

/// For `0 <= i < bound` with `bound <= 64 * len`, the word index `i / 64`
/// stays below `len`.
proof fn lemma_div_in_range_int(i: int, bound: int, len: int)
    requires
        0 <= i < bound,
        bound <= 64 * len,
    ensures
        0 <= i / 64 < len,
        0 <= i % 64 < 64,
{
    assert(0 <= i / 64 && i / 64 < len) by (nonlinear_arith)
        requires
            0 <= i && i < 64 * len,
    ;
}

/// Rank never decreases as the position grows: for one vector, the rank of
/// a lower position is at most the rank of a higher one.
pub proof fn lemma_rank_monotonic(bv: BitVector, a: int, b: int)
    requires
        a <= b,
    ensures
        bv.spec_rank(a) <= bv.spec_rank(b),
{
    lemma_seq_count_monotone(bv.words@, a, b);
}

/// The first set position at or after `i`, or `size` if there is none.
pub open spec fn first_set(words: Seq<u64>, i: int, size: int) -> int
    decreases size - i
{
    if i < 0 || i >= size {
        size
    } else if seq_bit(words, i) {
        i
    } else {
        first_set(words, i + 1, size)
    }
}

/// Skipping over clear positions does not change the first set position.
proof fn lemma_first_set_skip(words: Seq<u64>, a: int, b: int, size: int)
    requires
        0 <= a <= b <= size,
        forall|t: int| a <= t < b ==> !(#[trigger] seq_bit(words, t)),
    ensures
        first_set(words, a, size) == first_set(words, b, size),
    decreases b - a,
{
    if a < b {
        lemma_first_set_skip(words, a + 1, b, size);
    }
}

/// The first set position is never below the starting point, and it is a set
/// position when it lies within the size.
pub proof fn lemma_first_set_properties(words: Seq<u64>, i: int, size: int)
    requires
        0 <= i <= size,
    ensures
        i <= first_set(words, i, size) <= size,
        first_set(words, i, size) < size ==> seq_bit(words, first_set(words, i, size)),
        forall|t: int| i <= t < first_set(words, i, size) ==> !(#[trigger] seq_bit(words, t)),
    decreases size - i,
{
    if i < size && !seq_bit(words, i) {
        lemma_first_set_properties(words, i + 1, size);
    }
}

/// Iterator over the set positions of a bit vector, ascending.
#[derive(Debug)]
pub struct BitVectorIter {
    /// The packed words of the vector being walked.
    pub words: Vec<u64>,
    /// The capacity of the vector being walked.
    pub size: u64,
    /// The next position to examine.
    pub idx: u64,
}

impl BitVectorIter {
    /// The iterator never walks past words it does not have.
    pub open spec fn wf(self) -> bool {
        self.size as int <= 64 * self.words@.len()
    }

    /// The next set position at or after the cursor, if any; the cursor
    /// advances just past the returned position.
    #[verifier::loop_isolation(false)]
    pub fn next(&mut self) -> (r: Option<u64>)
        requires
            old(self).wf(),
        ensures
            final (self).wf(),
            final (self).words@ == old(self).words@,
            final (self).size == old(self).size,
            ({
                let f = first_set(old(self).words@, old(self).idx as int, old(self).size as int);
                if old(self).idx as int <= old(self).size as int && f < old(self).size as int {
                    r == Some(f as u64) && final (self).idx as int == f + 1
                } else {
                    r == None::<u64>
                }
            }),
    {
        let ghost start = old(self).idx as int;
        let ghost size = old(self).size as int;
        let ghost words = old(self).words@;
        if self.idx >= self.size {
            return None;
        }
        let mut i = self.idx;
        while i < self.size
            invariant
                self.wf(),
                self == old(self),
                self.words@ == words,
                self.size as int == size,
                start <= i as int <= size,
                0 <= start,
                first_set(words, start, size) == first_set(words, i as int, size),
            decreases self.size - i,
        {
            let w_idx = i / 64;
            proof {
                vstd::arithmetic::div_mod::lemma_fundamental_div_mod(i as int, 64);
                assert(((i / 64) as int) < words.len()) by (nonlinear_arith)
                    requires
                        i < size && size <= 64 * words.len() && ((i / 64) as int) == i as int / 64
                            && i as int / 64 * 64 <= i as int,
                ;
            }
            let nw = self.words.len();
            let w = self.words[w_idx as usize];
            proof {
                assert((w_idx as int) < (nw as int));
                assert(w == words[i as int / 64]);
            }
            if w == 0 {
                let jump = i / 64 * 64;
                proof {
                    assert forall|t: int| i as int <= t < jump + 64 implies !seq_bit(words, t) by {
                        assert(t / 64 == i as int / 64) by (nonlinear_arith)
                            requires
                                jump == i as int / 64 * 64 && jump <= i as int <= t < jump + 64,
                        ;
                        assert(words[t / 64] == 0);
                        let s: u64 = (t % 64) as u64;
                        assert(((0u64 >> s) & 1) == 0) by (bit_vector);
                    }
                }
                if jump <= u64::MAX - 64 {
                    proof {
                        lemma_first_set_skip(
                            words,
                            i as int,
                            if jump + 64 <= size {
                                jump + 64
                            } else {
                                size as int
                            },
                            size,
                        );
                    }
                    i = jump + 64;
                    if i > self.size {
                        i = self.size;
                    }
                } else {
                    proof {
                        lemma_first_set_skip(
                            words,
                            i as int,
                            if i as int + 1 <= size {
                                i as int + 1
                            } else {
                                size as int
                            },
                            size,
                        );
                    }
                    i = i + 1;
                }
            } else {
                let bit_in_word = i % 64;
                proof {
                    lemma_mask_test(w, bit_in_word);
                }
                if (w & (1u64 << bit_in_word)) != 0 {
                    proof {
                        assert(seq_bit(words, i as int));
                        assert(first_set(words, i as int, size) == i as int);
                    }
                    self.idx = i + 1;
                    return Some(i);
                }
                proof {
                    lemma_first_set_skip(
                        words,
                        i as int,
                        if i as int + 1 <= size {
                            i as int + 1
                        } else {
                            size as int
                        },
                        size,
                    );
                }
                i = i + 1;
            }
        }
        proof {
            assert(first_set(words, size, size) == size);
        }
        self.idx = self.size;
        None
    }
}

} // verus!
