//! Offline construction of the minimal perfect hash function by iterative
//! peeling: each level hashes the keys that remain, keeps the positions hit
//! by exactly one key, and passes the colliding keys to the next level.
//!
//! The whole construction is mirrored by a deterministic mathematical model
//! (`rem_at`, `model_hash`): the builder's contract states that the levels it
//! returns realize that model exactly, and that the resulting function is a
//! bijection from the keys onto the dense range — the latter established by a
//! verified self-check over every key before the structure is handed out.

use vstd::prelude::*;

use crate::bitvector::seq_bit;
use crate::bitvector::seq_count;
use crate::bitvector::BitVector;
use crate::hashing::hashmod;
use crate::hashing::spec_hashmod;
use crate::mphf::Mphf;

verus! {

/// The oversizing ratio of each level, a rational `num / den`. Larger ratios
/// trade space for fewer collisions per level.
#[derive(Debug)]
pub struct Gamma {
    /// Numerator of the ratio.
    pub num: u64,
    /// Denominator of the ratio.
    pub den: u64,
}

impl Gamma {
    /// Both parts are nonzero.
    pub open spec fn wf(self) -> bool {
        self.num >= 1 && self.den >= 1
    }

    /// A ratio from its parts.
    pub fn new(num: u64, den: u64) -> (g: Gamma)
        requires
            num >= 1,
            den >= 1,
        ensures
            g.num == num,
            g.den == den,
            g.wf(),
    {
        Gamma { num, den }
    }
}

impl Default for Gamma {
    /// The customary ratio of seventeen tenths.
    fn default() -> (g: Gamma)
        ensures
            g.num == 17,
            g.den == 10,
            g.wf(),
    {
        Gamma { num: 17, den: 10 }
    }
}

/// Failure of construction.
#[derive(Clone, Copy, Debug, PartialEq, Eq, Structural)]
pub enum ConstructionError {
    /// Constructing over zero keys is rejected, by design rather than by
    /// accident: a hash over nothing answers no query.
    EmptyKeySet,
    /// The level cap was reached before every key was resolved. In practice
    /// this means the key set holds duplicates or the ratio is degenerate.
    TooManyLevels,
}

/// The number of slots a level gets for `n_rem` remaining keys: at least
/// one, else the ratio times the count, rounded up.
pub open spec fn spec_level_size(n_rem: nat, g: Gamma) -> int {
    let s = ((g.num as int) * (n_rem as int) + (g.den as int) - 1) / (g.den as int);
    if s < 1 {
        1
    } else {
        s
    }
}

/// The position a key hashes to at a level with `size` slots.
pub open spec fn key_pos(key: Seq<u8>, level: int, size: u64) -> u64 {
    spec_hashmod(key, level, size)
}

/// How many of the remaining keys hash to position `p` at this level.
pub open spec fn hits(rem: Seq<Seq<u8>>, level: int, size: u64, p: u64) -> nat
    decreases rem.len()
{
    if rem.len() == 0 {
        0
    } else {
        hits(rem.drop_last(), level, size, p) + (if key_pos(rem.last(), level, size) == p {
            1nat
        } else {
            0nat
        })
    }
}

/// A position is resolved when exactly one remaining key hashes to it.
pub open spec fn resolved(rem: Seq<Seq<u8>>, level: int, size: u64, p: u64) -> bool {
    hits(rem, level, size, p) == 1
}

/// The keys among the first `j` of `rem` that sit on unresolved positions,
/// in order: they proceed to the next level.
pub open spec fn survivors_upto(rem: Seq<Seq<u8>>, level: int, size: u64, j: int) -> Seq<Seq<u8>>
    decreases j
{
    if j <= 0 {
        Seq::empty()
    } else {
        let s = survivors_upto(rem, level, size, j - 1);
        if resolved(rem, level, size, key_pos(rem[j - 1], level, size)) {
            s
        } else {
            s.push(rem[j - 1])
        }
    }
}

/// The keys that survive a whole level.
pub open spec fn next_rem(rem: Seq<Seq<u8>>, level: int, size: u64) -> Seq<Seq<u8>> {
    survivors_upto(rem, level, size, rem.len() as int)
}

/// The keys still unresolved when level `i` begins, starting from `keys`.
pub open spec fn rem_at(keys: Seq<Seq<u8>>, g: Gamma, i: int) -> Seq<Seq<u8>>
    decreases i
{
    if i <= 0 {
        keys
    } else {
        let r = rem_at(keys, g, i - 1);
        next_rem(r, i - 1, spec_level_size(r.len(), g) as u64)
    }
}

/// How many positions strictly below `p` are resolved at this level.
pub open spec fn resolved_below(rem: Seq<Seq<u8>>, level: int, size: u64, p: int) -> nat
    decreases p
{
    if p <= 0 {
        0
    } else {
        resolved_below(rem, level, size, p - 1) + (if resolved(rem, level, size, (p - 1) as u64) {
            1nat
        } else {
            0nat
        })
    }
}

/// Fewer keys survive a level than enter it.
pub proof fn lemma_survivors_len(rem: Seq<Seq<u8>>, level: int, size: u64, j: int)
    requires
        0 <= j <= rem.len(),
    ensures
        survivors_upto(rem, level, size, j).len() <= j,
    decreases j,
{
    if j > 0 {
        lemma_survivors_len(rem, level, size, j - 1);
    }
}

/// The remaining keys never grow from level to level.
pub proof fn lemma_rem_at_len(keys: Seq<Seq<u8>>, g: Gamma, i: int)
    requires
        i >= 0,
    ensures
        rem_at(keys, g, i).len() <= keys.len(),
    decreases i,
{
    if i > 0 {
        lemma_rem_at_len(keys, g, i - 1);
        let r = rem_at(keys, g, i - 1);
        lemma_survivors_len(r, i - 1, spec_level_size(r.len(), g) as u64, r.len() as int);
    }
}

/// Once every key is resolved, nothing remains at any later level either.
pub proof fn lemma_rem_at_empty_stays(keys: Seq<Seq<u8>>, g: Gamma, i: int, j: int)
    requires
        0 <= i <= j,
        rem_at(keys, g, i).len() == 0,
    ensures
        rem_at(keys, g, j).len() == 0,
    decreases j - i,
{
    if i < j {
        let r = rem_at(keys, g, i);
        assert(rem_at(keys, g, i + 1) == next_rem(r, i, spec_level_size(r.len(), g) as u64));
        lemma_rem_at_empty_stays(keys, g, i + 1, j);
    }
}

/// What `model_hash` answers from level `i` on: the global rank at the first
/// level at or after `i` that resolves the key's position, if any.
pub open spec fn model_hash_from(keys: Seq<Seq<u8>>, g: Gamma, key: Seq<u8>, i: int) -> Option<
    u64,
>
    decreases 32 - i
{
    if i < 0 || i >= 32 {
        None
    } else {
        let rem = rem_at(keys, g, i);
        if rem.len() == 0 {
            None
        } else {
            let size = spec_level_size(rem.len(), g) as u64;
            let p = key_pos(key, i, size);
            if resolved(rem, i, size, p) {
                Some(
                    ((keys.len() - rem.len()) + resolved_below(rem, i, size, p as int)) as u64,
                )
            } else {
                model_hash_from(keys, g, key, i + 1)
            }
        }
    }
}

/// The index the construction assigns to `key`, as a pure function of the
/// key sequence and the ratio; `None` when no level resolves the key.
pub open spec fn model_hash(keys: Seq<Seq<u8>>, g: Gamma, key: Seq<u8>) -> Option<u64> {
    model_hash_from(keys, g, key, 0)
}

/// Some level within the cap resolves the last key.
pub open spec fn model_resolves_all(keys: Seq<Seq<u8>>, g: Gamma) -> bool {
    exists|i: int| 0 <= i <= 32 && rem_at(keys, g, i).len() == 0
}

/// Some key is assigned the value `v` by the model.
pub open spec fn model_hits_value(keys: Seq<Seq<u8>>, g: Gamma, v: u64) -> bool {
    exists|j: int| 0 <= j < keys.len() && model_hash(keys, g, keys[j]) == Some(v)
}

/// The model maps the keys one-to-one onto the dense range `[0, N)`.
pub open spec fn model_bijection(keys: Seq<Seq<u8>>, g: Gamma) -> bool {
    &&& forall|j: int|
        0 <= j < keys.len() ==> (#[trigger] model_hash(keys, g, keys[j])) is Some && model_hash(
            keys,
            g,
            keys[j],
        ).unwrap() < keys.len()
    &&& forall|j1: int, j2: int|
        0 <= j1 < j2 < keys.len() ==> model_hash(keys, g, keys[j1]) != model_hash(
            keys,
            g,
            keys[j2],
        )
    &&& forall|v: u64| v < keys.len() ==> #[trigger] model_hits_value(keys, g, v)
}

/// Construction succeeds exactly when there are keys at all, some level
/// within the cap resolves the last of them, and the model is a bijection.
pub open spec fn model_success(keys: Seq<Seq<u8>>, g: Gamma) -> bool {
    &&& keys.len() > 0
    &&& model_resolves_all(keys, g)
    &&& model_bijection(keys, g)
}

/// A byte-for-byte copy of a key.
pub(crate) fn clone_bytes(v: &Vec<u8>) -> (r: Vec<u8>)
    ensures
        r@ == v@,
{
    let mut r: Vec<u8> = Vec::new();
    let n = v.len();
    let mut j: usize = 0;
    while j < n
        invariant
            n == v@.len(),
            0 <= j <= n,
            r@ == v@.take(j as int),
        decreases n - j,
    {
        r.push(v[j]);
        j = j + 1;
        proof {
            assert(r@ =~= v@.take(j as int));
        }
    }
    proof {
        assert(r@ =~= v@);
    }
    r
}

/// The level size for `n_rem` remaining keys.
fn level_size(n_rem: usize, g: &Gamma) -> (r: u64)
    requires
        g.wf(),
        (n_rem as int) * (g.num as int) + (g.den as int) <= u64::MAX,
    ensures
        r as int == spec_level_size(n_rem as nat, *g),
        r >= 1,
{
    proof {
        vstd::arithmetic::mul::lemma_mul_is_commutative(n_rem as int, g.num as int);
        vstd::arithmetic::mul::lemma_mul_nonnegative(n_rem as int, g.num as int);
        vstd::arithmetic::div_mod::lemma_div_pos_is_pos(
            (n_rem as int) * (g.num as int) + (g.den as int) - 1,
            g.den as int,
        );
    }
    let prod = (n_rem as u64) * g.num;
    let s = (prod + (g.den - 1)) / g.den;
    if s < 1 {
        1
    } else {
        s
    }
}

/// Appending one key to the remaining list raises the hit count of its
/// position by one and leaves every other count unchanged.
proof fn lemma_hits_push(s: Seq<Seq<u8>>, x: Seq<u8>, level: int, size: u64, p: u64)
    ensures
        hits(s.push(x), level, size, p) == hits(s, level, size, p) + (if key_pos(x, level, size)
            == p {
            1nat
        } else {
            0nat
        }),
{
    assert(s.push(x).drop_last() =~= s);
    assert(s.push(x).last() == x);
}

/// Setting one bit of a word array sets exactly that position.
proof fn lemma_set_bit(old_words: Seq<u64>, new_words: Seq<u64>, wi: int, s: u64)
    requires
        0 <= wi < old_words.len(),
        s < 64,
        new_words == old_words.update(wi, old_words[wi] | (1u64 << s)),
    ensures
        forall|t: int|
            0 <= t < 64 * old_words.len() ==> (#[trigger] seq_bit(new_words, t) == (seq_bit(
                old_words,
                t,
            ) || t == 64 * wi + s)),
{
    assert forall|t: int| 0 <= t < 64 * old_words.len() implies (#[trigger] seq_bit(new_words, t)
        == (seq_bit(old_words, t) || t == 64 * wi + s)) by {
        vstd::arithmetic::div_mod::lemma_fundamental_div_mod(t, 64);
        assert(0 <= t / 64 < old_words.len()) by (nonlinear_arith)
            requires
                0 <= t && t < 64 * old_words.len() && 64 * (t / 64) <= t && t % 64 < 64,
        ;
        let tb = (t % 64) as u64;
        let w = old_words[t / 64];
        if t / 64 == wi {
            assert((((w | (1u64 << s)) >> tb) & 1 == 1) == (((w >> tb) & 1 == 1) || tb == s))
                by (bit_vector)
                requires
                    tb < 64 && s < 64,
            ;
            assert((t == 64 * wi + s) == (t / 64 == wi && tb == s));
        } else {
            assert(new_words[t / 64] == old_words[t / 64]);
            assert(t != 64 * wi + s) by (nonlinear_arith)
                requires
                    t / 64 != wi && 64 * (t / 64) <= t < 64 * (t / 64) + 64 && s < 64,
            ;
        }
    }
}

/// A capped tally agrees with a count below three.
pub open spec fn capped(c: u8, h: nat) -> bool {
    if h >= 2 {
        c == 2
    } else {
        c == h
    }
}

/// Builds one level over the remaining keys: the bit vector with exactly the
/// resolved positions set and checkpoints carrying `base`, and the keys that
/// survive to the next level, in order.
fn build_level(remaining: &Vec<Vec<u8>>, level: u64, g: &Gamma, base: u64) -> (r: (
    BitVector,
    Vec<Vec<u8>>,
))
    requires
        g.wf(),
        level < 32,
        remaining@.len() >= 1,
        (remaining@.len() as int) * (g.num as int) + (g.den as int) <= usize::MAX,
        base + (remaining@.len() as int) * (g.num as int) + (g.den as int) + 512 <= u64::MAX,
    ensures
        ({
            let remv = remaining.deep_view();
            let size = spec_level_size(remv.len(), *g) as u64;
            &&& r.0.wf()
            &&& r.0.bits == size
            &&& r.0.base() == base
            &&& forall|p: u64|
                p < size ==> (#[trigger] r.0.bit_set(p as int)) == resolved(
                    remv,
                    level as int,
                    size,
                    p,
                )
            &&& r.1.deep_view() == next_rem(remv, level as int, size)
        }),
{
    let ghost remv = remaining.deep_view();
    let n = remaining.len();
    proof {
        assert(remv.len() == remaining@.len());
        vstd::arithmetic::mul::lemma_mul_nonnegative(remaining@.len() as int, g.num as int);
        vstd::arithmetic::mul::lemma_mul_is_commutative(remaining@.len() as int, g.num as int);
        vstd::arithmetic::div_mod::lemma_div_nonincreasing(
            (remaining@.len() as int) * (g.num as int) + (g.den as int) - 1,
            g.den as int,
        );
        vstd::arithmetic::div_mod::lemma_div_pos_is_pos(
            (remaining@.len() as int) * (g.num as int) + (g.den as int) - 1,
            g.den as int,
        );
    }
    let size = level_size(n, g);
    let ghost sz = spec_level_size(remv.len(), *g) as u64;
    proof {
        assert(size == sz);
        assert(base + size + 512 <= u64::MAX);
    }
    let size_us = size as usize;

    // The position of every remaining key at this level.
    let mut positions: Vec<u64> = Vec::new();
    let mut j: usize = 0;
    while j < n
        invariant
            g.wf(),
            level < 32,
            size >= 1,
            n == remaining@.len(),
            remv == remaining.deep_view(),
            0 <= j <= n,
            positions@.len() == j,
            forall|t: int|
                0 <= t < j ==> (#[trigger] positions@[t]) == key_pos(remv[t], level as int, size)
                    && positions@[t] < size,
        decreases n - j,
    {
        let p = hashmod(level, remaining[j].as_slice(), size);
        proof {
            assert(remaining@[j as int]@ == remv[j as int]);
        }
        positions.push(p);
        j = j + 1;
    }

    // Tally how many keys hit each position, capped at two.
    let mut counts: Vec<u8> = Vec::new();
    while counts.len() < size_us
        invariant
            counts@.len() <= size_us,
            forall|q: int| 0 <= q < counts@.len() ==> (#[trigger] counts@[q]) == 0,
        decreases size_us - counts@.len(),
    {
        counts.push(0);
    }
    proof {
        assert(remv.take(0) =~= Seq::<Seq<u8>>::empty());
        assert forall|q: u64| q < size implies capped(
            counts@[q as int],
            hits(remv.take(0), level as int, size, q),
        ) by {
            assert(hits(remv.take(0), level as int, size, q) == 0);
        }
    }
    let mut j: usize = 0;
    while j < n
        invariant
            n == remaining@.len(),
            remv == remaining.deep_view(),
            remv.len() == n,
            size >= 1,
            size_us == size,
            0 <= j <= n,
            positions@.len() == n,
            forall|t: int|
                0 <= t < n ==> (#[trigger] positions@[t]) == key_pos(remv[t], level as int, size)
                    && positions@[t] < size,
            counts@.len() == size_us,
            forall|q: u64|
                q < size ==> capped(
                    #[trigger] counts@[q as int],
                    hits(remv.take(j as int), level as int, size, q),
                ),
        decreases n - j,
    {
        let p = positions[j];
        let pu = p as usize;
        let c = counts[pu];
        if c < 2 {
            counts.set(pu, c + 1);
        }
        proof {
            assert(remv.take(j + 1 as int) =~= remv.take(j as int).push(remv[j as int]));
            assert forall|q: u64| q < size implies capped(
                counts@[q as int],
                hits(remv.take(j + 1 as int), level as int, size, q),
            ) by {
                lemma_hits_push(remv.take(j as int), remv[j as int], level as int, size, q);
            }
        }
        j = j + 1;
    }
    proof {
        assert(remv.take(n as int) =~= remv);
        assert forall|q: u64| q < size implies (counts@[q as int] == 1) == resolved(
            remv,
            level as int,
            size,
            q,
        ) by {
            assert(capped(counts@[q as int], hits(remv, level as int, size, q)));
        }
    }

    // Pack the resolved positions into words.
    let nwords64 = crate::bitvector::u64s(size);
    proof {
        assert(nwords64 <= size) by (nonlinear_arith)
            requires
                size >= 1 && nwords64 == ((size as int) + 63) / 64,
        ;
    }
    let nwords = nwords64 as usize;
    let mut words: Vec<u64> = Vec::new();
    while words.len() < nwords
        invariant
            words@.len() <= nwords,
            forall|t: int| 0 <= t < words@.len() ==> (#[trigger] words@[t]) == 0,
        decreases nwords - words@.len(),
    {
        words.push(0);
    }
    proof {
        assert forall|t: int| 0 <= t < 64 * words@.len() implies !(#[trigger] seq_bit(
            words@,
            t,
        )) by {
            vstd::arithmetic::div_mod::lemma_fundamental_div_mod(t, 64);
            assert(0 <= t / 64 < words@.len()) by (nonlinear_arith)
                requires
                    0 <= t && t < 64 * words@.len() && 64 * (t / 64) <= t && t % 64 < 64,
            ;
            let tb = (t % 64) as u64;
            assert(((0u64 >> tb) & 1) == 0) by (bit_vector);
        }
    }
    let mut p: u64 = 0;
    while p < size
        invariant
            size_us == size,
            counts@.len() == size_us,
            nwords == words@.len(),
            nwords64 == nwords,
            nwords64 == ((size as int) + 63) / 64,
            0 <= p <= size,
            forall|q: u64|
                q < size ==> (counts@[q as int] == 1) == resolved(remv, level as int, size, q),
            forall|q: u64|
                q < p ==> (#[trigger] seq_bit(words@, q as int)) == resolved(
                    remv,
                    level as int,
                    size,
                    q,
                ),
            forall|t: int| p <= t < 64 * words@.len() ==> !(#[trigger] seq_bit(words@, t)),
        decreases size - p,
    {
        proof {
            crate::bitvector::lemma_div_in_range(p, size, 64, words@.len() as int);
        }
        if counts[p as usize] == 1 {
            let wi = (p / 64) as usize;
            let wd = words[wi];
            let ghost old_words = words@;
            words.set(wi, wd | (1u64 << (p % 64)));
            proof {
                lemma_set_bit(old_words, words@, wi as int, p % 64);
                vstd::arithmetic::div_mod::lemma_fundamental_div_mod(p as int, 64);
                assert(64 * (wi as int) + (p % 64) == p);
            }
        }
        p = p + 1;
    }

    // Emit one checkpoint per block of eight words, carrying the base.
    let nblocks64 = (size + 511) / 512;
    let mut ranks: Vec<u64> = Vec::new();
    let mut running = base;
    let mut wj: usize = 0;
    let mut b: u64 = 0;
    proof {
        assert(8 * ((size + 511) / 512 - 1) < (size + 63) / 64) by (bit_vector)
            requires
                size >= 1,
        ;
        crate::bitvector::lemma_seq_count_clear_range(words@, size as int, 64 * words@.len() as int);
        crate::bitvector::lemma_seq_count_bound(words@, size as int);
    }
    while b < nblocks64
        invariant
            size >= 1,
            base + size + 512 <= u64::MAX,
            nwords == words@.len(),
            nwords64 == nwords,
            nwords64 == ((size as int) + 63) / 64,
            nblocks64 == ((size as int) + 511) / 512,
            8 * (nblocks64 - 1) < nwords64,
            0 <= b <= nblocks64,
            wj as int == (if 8 * b as int <= nwords as int {
                8 * b as int
            } else {
                nwords as int
            }),
            ranks@.len() == b,
            running as int == base + seq_count(words@, 64 * wj as int),
            seq_count(words@, 64 * words@.len() as int) <= size,
            forall|t: int| size <= t < 64 * words@.len() ==> !(#[trigger] seq_bit(words@, t)),
            forall|bb: int|
                0 <= bb < b ==> (#[trigger] ranks@[bb]) as int == base + seq_count(
                    words@,
                    512 * bb,
                ),
        decreases nblocks64 - b,
    {
        proof {
            assert(8 * b as int <= 8 * (nblocks64 - 1) < nwords as int);
            assert(64 * (8 * b as int) == 512 * b as int);
        }
        ranks.push(running);
        let stop_full = 8 * (b + 1);
        let mut stop = nwords;
        if stop_full < nwords as u64 {
            stop = stop_full as usize;
        }
        while wj < stop
            invariant
                nwords == words@.len(),
                base + size + 512 <= u64::MAX,
                seq_count(words@, 64 * words@.len() as int) <= size,
                stop <= nwords,
                wj <= stop,
                running as int == base + seq_count(words@, 64 * wj as int),
            decreases stop - wj,
        {
            proof {
                crate::bitvector::lemma_seq_count_full_word(words@, wj as int);
                crate::bitvector::lemma_seq_count_monotone(
                    words@,
                    64 * (wj + 1) as int,
                    64 * words@.len() as int,
                );
            }
            running = running + crate::bits::popcount(words[wj]);
            wj = wj + 1;
        }
        b = b + 1;
        proof {
            assert(wj as int == (if 8 * b as int <= nwords as int {
                8 * b as int
            } else {
                nwords as int
            }));
        }
    }

    let bv = BitVector { bits: size, words, ranks };
    proof {
        assert(bv.ranks@.len() >= 1);
        assert(bv.ranks@[0] as int == base + seq_count(bv.words@, 0));
        assert(bv.base() == base);
        assert(bv.wf());
        assert forall|q: u64| q < size implies (#[trigger] bv.bit_set(q as int)) == resolved(
            remv,
            level as int,
            size,
            q,
        ) by {}
    }

    // Collect the keys that proceed to the next level, in order.
    let mut next: Vec<Vec<u8>> = Vec::new();
    let mut j: usize = 0;
    proof {
        assert(next.deep_view() =~= survivors_upto(remv, level as int, size, 0));
    }
    while j < n
        invariant
            n == remaining@.len(),
            remv == remaining.deep_view(),
            remv.len() == n,
            size >= 1,
            size_us == size,
            counts@.len() == size_us,
            0 <= j <= n,
            positions@.len() == n,
            forall|t: int|
                0 <= t < n ==> (#[trigger] positions@[t]) == key_pos(remv[t], level as int, size)
                    && positions@[t] < size,
            forall|q: u64|
                q < size ==> (counts@[q as int] == 1) == resolved(remv, level as int, size, q),
            next.deep_view() == survivors_upto(remv, level as int, size, j as int),
        decreases n - j,
    {
        let p = positions[j];
        if counts[p as usize] != 1 {
            let ghost old_next = next.deep_view();
            next.push(clone_bytes(&remaining[j]));
            proof {
                assert(next.deep_view() =~= old_next.push(remv[j as int]));
            }
        }
        j = j + 1;
    }
    proof {
        assert(next.deep_view() == next_rem(remv, level as int, size));
    }
    (bv, next)
}

/// The levels realize the model: level `i` has the size the model dictates
/// for the keys remaining at `i`, its base is the number of keys already
/// resolved, its set bits are exactly the resolved positions, keys remain at
/// every built level, and none remain after the last.
pub open spec fn levels_match(levels: Seq<BitVector>, keys: Seq<Seq<u8>>, g: Gamma) -> bool {
    &&& forall|i: int|
        0 <= i < levels.len() ==> {
            let rem = rem_at(keys, g, i);
            let size = spec_level_size(rem.len(), g) as u64;
            &&& (#[trigger] levels[i]).bits == size
            &&& levels[i].base() == keys.len() - rem.len()
            &&& forall|p: u64|
                p < size ==> (#[trigger] levels[i].bit_set(p as int)) == resolved(rem, i, size, p)
            &&& rem.len() > 0
        }
    &&& rem_at(keys, g, levels.len() as int).len() == 0
}

/// In a level whose set bits are the resolved positions, counting set bits
/// below a position counts the resolved positions below it.
proof fn lemma_count_resolved(
    bv: BitVector,
    rem: Seq<Seq<u8>>,
    level: int,
    size: u64,
    p: int,
)
    requires
        forall|q: u64|
            q < size ==> (#[trigger] bv.bit_set(q as int)) == resolved(rem, level, size, q),
        0 <= p <= size,
    ensures
        bv.count_below(p) == resolved_below(rem, level, size, p),
    decreases p,
{
    if p > 0 {
        lemma_count_resolved(bv, rem, level, size, p - 1);
        assert(bv.bit_set(p - 1) == resolved(rem, level, size, (p - 1) as u64));
    }
}

/// A hash structure whose levels realize the model answers, for every key,
/// exactly what the model answers.
pub proof fn lemma_hash_matches_model(
    m: Mphf,
    keys: Seq<Seq<u8>>,
    g: Gamma,
    key: Seq<u8>,
    i: int,
)
    requires
        m.wf(),
        levels_match(m.levels@, keys, g),
        0 <= i <= m.levels@.len(),
    ensures
        m.spec_hash_from(key, i) == model_hash_from(keys, g, key, i),
    decreases m.levels@.len() - i,
{
    let levels = m.levels@;
    if i == levels.len() {
        if i < 32 {
            assert(rem_at(keys, g, i).len() == 0);
        }
    } else {
        let rem = rem_at(keys, g, i);
        let size = spec_level_size(rem.len(), g) as u64;
        let bv = levels[i];
        assert(bv.bits == size && rem.len() > 0);
        assert(i < 32);
        let p = key_pos(key, i, size);
        crate::hashing::lemma_hashmod_range(key, i, size);
        if bv.bit_set(p as int) {
            lemma_count_resolved(bv, rem, i, size, p as int);
        } else {
            lemma_hash_matches_model(m, keys, g, key, i + 1);
        }
    }
}

/// Constructs the hash function over `keys` with ratio `gamma`.
///
/// On success the returned structure realizes the deterministic model of the
/// construction for every key whatsoever, and restricted to `keys` it is a
/// bijection onto the dense range below their number. Success is exactly the
/// model's success: some level within the cap resolves the last key and the
/// model assigns the keys pairwise distinct in-range values — a verified
/// self-check over every key establishes the latter before the structure is
/// handed out, so a duplicated key surfaces as an error, never as a silently
/// truncated table.
#[verifier::loop_isolation(false)]
pub fn build(keys: &Vec<Vec<u8>>, gamma: &Gamma) -> (r: Result<Mphf, ConstructionError>)
    requires
        gamma.wf(),
        (keys@.len() as int) * (gamma.num as int + 1) + (gamma.den as int) + 512
            <= usize::MAX,
    ensures
        ({
            let kv = keys.deep_view();
            &&& match r {
                Ok(m) => {
                    &&& m.wf()
                    &&& levels_match(m.levels@, kv, *gamma)
                    &&& forall|k: Seq<u8>| #[trigger]
                        m.spec_hash(k) == model_hash(kv, *gamma, k)
                },
                Err(e) => {
                    &&& (e == ConstructionError::EmptyKeySet) == (kv.len() == 0)
                    &&& (e == ConstructionError::TooManyLevels) == (kv.len() > 0
                        && !model_success(kv, *gamma))
                },
            }
            &&& (r is Ok) == model_success(kv, *gamma)
        }),
{
    let ghost kv = keys.deep_view();
    let ghost g = *gamma;
    let n = keys.len();
    proof {
        assert(kv.len() == keys@.len());
    }
    if n == 0 {
        return Err(ConstructionError::EmptyKeySet);
    }
    proof {
        vstd::arithmetic::mul::lemma_mul_is_distributive_add(
            n as int,
            gamma.num as int,
            1,
        );
        vstd::arithmetic::mul::lemma_mul_nonnegative(n as int, gamma.num as int);
    }

    // A working copy of the keys: the ones still unresolved.
    let mut remaining: Vec<Vec<u8>> = Vec::new();
    let mut j: usize = 0;
    proof {
        assert(remaining.deep_view() =~= kv.take(0));
    }
    while j < n
        invariant
            n == keys@.len(),
            kv == keys.deep_view(),
            0 <= j <= n,
            remaining@.len() == j,
            remaining.deep_view() == kv.take(j as int),
        decreases n - j,
    {
        remaining.push(clone_bytes(&keys[j]));
        j = j + 1;
        proof {
            assert(remaining.deep_view() =~= kv.take(j as int));
        }
    }
    proof {
        assert(remaining.deep_view() =~= kv);
        assert(rem_at(kv, g, 0) == kv);
    }

    // Peel level by level until every key is resolved or the cap is hit.
    let mut levels: Vec<BitVector> = Vec::new();
    let mut li: usize = 0;
    while li < 32 && remaining.len() > 0
        invariant
            gamma.wf(),
            g == *gamma,
            n == keys@.len(),
            n >= 1,
            kv == keys.deep_view(),
            kv.len() == n,
            (n as int) * (gamma.num as int) + (n as int) + (gamma.den as int) + 512
                <= usize::MAX,
            0 <= li <= 32,
            levels@.len() == li,
            remaining.deep_view() == rem_at(kv, g, li as int),
            remaining@.len() == remaining.deep_view().len(),
            remaining@.len() <= n,
            forall|i: int|
                0 <= i < li ==> {
                    let rem = rem_at(kv, g, i);
                    let size = spec_level_size(rem.len(), g) as u64;
                    &&& (#[trigger] levels@[i]).wf()
                    &&& levels@[i].bits == size
                    &&& levels@[i].bits >= 1
                    &&& levels@[i].base() == kv.len() - rem.len()
                    &&& forall|p: u64|
                        p < size ==> (#[trigger] levels@[i].bit_set(p as int)) == resolved(
                            rem,
                            i,
                            size,
                            p,
                        )
                    &&& rem.len() > 0
                },
        decreases 32 - li,
    {
        let base = (n - remaining.len()) as u64;
        proof {
            vstd::arithmetic::mul::lemma_mul_inequality(
                remaining@.len() as int,
                n as int,
                gamma.num as int,
            );
            assert(remaining@.len() == rem_at(kv, g, li as int).len());
        }
        let (bv, nxt) = build_level(&remaining, li as u64, gamma, base);
        proof {
            let rem = rem_at(kv, g, li as int);
            let size = spec_level_size(rem.len(), g) as u64;
            assert(bv.bits == size && bv.base() == base);
            assert(spec_level_size(rem.len(), g) >= 1);
            assert(rem_at(kv, g, li + 1 as int) == next_rem(rem, li as int, size));
            lemma_survivors_len(rem, li as int, size, rem.len() as int);
        }
        levels.push(bv);
        remaining = nxt;
        li = li + 1;
    }
    if remaining.len() > 0 {
        proof {
            assert(li == 32);
            assert(rem_at(kv, g, 32).len() > 0);
            assert forall|i: int| 0 <= i <= 32 implies rem_at(kv, g, i).len() != 0 by {
                if rem_at(kv, g, i).len() == 0 {
                    lemma_rem_at_empty_stays(kv, g, i, 32);
                }
            }
            assert(!model_resolves_all(kv, g));
        }
        return Err(ConstructionError::TooManyLevels);
    }
    let m = Mphf { levels };
    proof {
        assert(m.wf());
        assert(levels_match(m.levels@, kv, g));
        assert forall|k: Seq<u8>| #[trigger] m.spec_hash(k) == model_hash(kv, g, k) by {
            lemma_hash_matches_model(m, kv, g, k, 0);
        }
        assert(rem_at(kv, g, m.levels@.len() as int).len() == 0);
        assert(model_resolves_all(kv, g));
    }

    // Self-check: the keys must map one-to-one onto the dense range. The
    // model guarantees nothing by itself here; this pass establishes the
    // bijection, and any failure surfaces as a construction error.
    let mut seen: Vec<bool> = Vec::new();
    while seen.len() < n
        invariant
            seen@.len() <= n,
            forall|t: int| 0 <= t < seen@.len() ==> !(#[trigger] seen@[t]),
        decreases n - seen@.len(),
    {
        seen.push(false);
    }
    let mut j: usize = 0;
    while j < n
        invariant
            n == keys@.len(),
            kv == keys.deep_view(),
            kv.len() == n,
            m.wf(),
            forall|k: Seq<u8>| #[trigger] m.spec_hash(k) == model_hash(kv, g, k),
            0 <= j <= n,
            seen@.len() == n,
            forall|t: int|
                0 <= t < j ==> (#[trigger] model_hash(kv, g, kv[t])) is Some && model_hash(
                    kv,
                    g,
                    kv[t],
                ).unwrap() < n,
            forall|t1: int, t2: int|
                0 <= t1 < t2 < j ==> model_hash(kv, g, kv[t1]) != model_hash(kv, g, kv[t2]),
            forall|v: int|
                0 <= v < n ==> (#[trigger] seen@[v]) == exists|t: int|
                    0 <= t < j && model_hash(kv, g, kv[t]) == Some(v as u64),
        decreases n - j,
    {
        proof {
            assert(keys@[j as int]@ == kv[j as int]);
        }
        match m.hash(keys[j].as_slice()) {
            Err(_) => {
                proof {
                    assert(model_hash(kv, g, kv[j as int]) is None);
                    assert(!model_bijection(kv, g));
                }
                return Err(ConstructionError::TooManyLevels);
            },
            Ok(v) => {
                proof {
                    assert(model_hash(kv, g, kv[j as int]) == Some(v));
                }
                if v >= n as u64 {
                    proof {
                        assert(!model_bijection(kv, g));
                    }
                    return Err(ConstructionError::TooManyLevels);
                }
                let vu = v as usize;
                if seen[vu] {
                    proof {
                        let t = choose|t: int|
                            0 <= t < j && model_hash(kv, g, kv[t]) == Some(vu as u64);
                        assert(model_hash(kv, g, kv[t]) == model_hash(kv, g, kv[j as int]));
                        assert(!model_bijection(kv, g));
                    }
                    return Err(ConstructionError::TooManyLevels);
                }
                seen.set(vu, true);
                proof {
                    assert forall|v2: int| 0 <= v2 < n implies (#[trigger] seen@[v2])
                        == exists|t: int|
                        0 <= t < j + 1 && model_hash(kv, g, kv[t]) == Some(v2 as u64) by {
                        if v2 == vu as int {
                            assert(model_hash(kv, g, kv[j as int]) == Some(v2 as u64));
                        } else {
                            if seen@[v2] {
                                let t = choose|t: int|
                                    0 <= t < j && model_hash(kv, g, kv[t]) == Some(v2 as u64);
                                assert(0 <= t < j + 1 && model_hash(kv, g, kv[t]) == Some(
                                    v2 as u64,
                                ));
                            }
                        }
                    }
                }
            },
        }
        j = j + 1;
    }
    let mut v: usize = 0;
    while v < n
        invariant
            n == keys@.len(),
            kv == keys.deep_view(),
            kv.len() == n,
            seen@.len() == n,
            0 <= v <= n,
            forall|t: int|
                0 <= t < n ==> (#[trigger] model_hash(kv, g, kv[t])) is Some && model_hash(
                    kv,
                    g,
                    kv[t],
                ).unwrap() < n,
            forall|t1: int, t2: int|
                0 <= t1 < t2 < n ==> model_hash(kv, g, kv[t1]) != model_hash(kv, g, kv[t2]),
            forall|u: int|
                0 <= u < n ==> (#[trigger] seen@[u]) == exists|t: int|
                    0 <= t < n && model_hash(kv, g, kv[t]) == Some(u as u64),
            forall|u: u64| u < v ==> #[trigger] model_hits_value(kv, g, u),
        decreases n - v,
    {
        if !seen[v] {
            proof {
                assert(!model_bijection(kv, g)) by {
                    if model_bijection(kv, g) {
                        assert(model_hits_value(kv, g, v as u64));
                        let t = choose|t: int|
                            0 <= t < kv.len() && model_hash(kv, g, kv[t]) == Some(v as u64);
                        assert(seen@[v as int]);
                    }
                }
            }
            return Err(ConstructionError::TooManyLevels);
        }
        proof {
            let t = choose|t: int| 0 <= t < n && model_hash(kv, g, kv[t]) == Some(v as u64);
            assert(model_hits_value(kv, g, v as u64));
        }
        v = v + 1;
    }
    proof {
        assert forall|u: u64| u < kv.len() implies #[trigger] model_hits_value(kv, g, u) by {}
        assert(model_bijection(kv, g));
        assert(model_success(kv, g));
    }
    Ok(m)
}

} // verus!
