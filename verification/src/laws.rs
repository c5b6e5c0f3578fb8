//! The library's global laws: the constructed hash function is a bijection
//! onto the dense range, the construction does not depend on the order the
//! keys arrive in, and the permuted table is the same final array for any
//! arrival order.

use vstd::prelude::*;

use crate::builder::hits;
use crate::builder::key_pos;
use crate::builder::model_hash;
use crate::builder::model_hash_from;
use crate::builder::model_hits_value;
use crate::builder::model_success;
use crate::builder::next_rem;
use crate::builder::rem_at;
use crate::builder::resolved;
use crate::builder::resolved_below;
use crate::builder::spec_level_size;
use crate::builder::survivors_upto;
use crate::builder::Gamma;
use crate::mphf::Mphf;
use crate::table::build_hash_table_post;
use crate::table::entry_view;
use crate::table::permute_post;
use crate::table::slot_filled;
use crate::table::spec_default_gamma;
use crate::table::table_keys;
use crate::table::table_view;

verus! {

/// Some key of the sequence is assigned the value `v` by the hash function.
pub open spec fn hash_hits_value(m: Mphf, keys: Seq<Seq<u8>>, v: u64) -> bool {
    exists|j: int| 0 <= j < keys.len() && m.spec_hash(keys[j]) == Some(v)
}

/// Bijection law: a hash function that realizes a successful construction
/// model over `keys` maps them one-to-one onto the dense range below their
/// number — every key gets an in-range index, no two keys share one, and
/// every index is taken.
pub proof fn lemma_bijection(keys: Seq<Seq<u8>>, g: Gamma, m: Mphf)
    requires
        model_success(keys, g),
        forall|k: Seq<u8>| #[trigger] m.spec_hash(k) == model_hash(keys, g, k),
    ensures
        forall|j: int|
            0 <= j < keys.len() ==> (#[trigger] m.spec_hash(keys[j])) is Some && m.spec_hash(
                keys[j],
            ).unwrap() < keys.len(),
        forall|j1: int, j2: int|
            0 <= j1 < j2 < keys.len() ==> m.spec_hash(keys[j1]) != m.spec_hash(keys[j2]),
        forall|v: u64| v < keys.len() ==> #[trigger] hash_hits_value(m, keys, v),
{
    assert forall|v: u64| v < keys.len() implies #[trigger] hash_hits_value(m, keys, v) by {
        assert(model_hits_value(keys, g, v));
        let j = choose|j: int| 0 <= j < keys.len() && model_hash(keys, g, keys[j]) == Some(v);
        assert(m.spec_hash(keys[j]) == Some(v));
    }
}

/// Removing one element splits a hit count: the removed key contributes one
/// hit when it sits on the position, none otherwise.
proof fn lemma_hits_remove(s: Seq<Seq<u8>>, i: int, level: int, size: u64, p: u64)
    requires
        0 <= i < s.len(),
    ensures
        hits(s, level, size, p) == hits(s.remove(i), level, size, p) + (if key_pos(
            s[i],
            level,
            size,
        ) == p {
            1nat
        } else {
            0nat
        }),
    decreases s.len(),
{
    if i == s.len() - 1 {
        assert(s.remove(i) =~= s.drop_last());
    } else {
        let s2 = s.remove(i);
        assert(s2.drop_last() =~= s.drop_last().remove(i));
        assert(s2.last() == s.last());
        lemma_hits_remove(s.drop_last(), i, level, size, p);
    }
}

/// Hit counts depend only on the multiset of remaining keys, not their
/// order.
proof fn lemma_hits_permutation(s1: Seq<Seq<u8>>, s2: Seq<Seq<u8>>, level: int, size: u64, p: u64)
    requires
        s1.to_multiset() == s2.to_multiset(),
    ensures
        hits(s1, level, size, p) == hits(s2, level, size, p),
    decreases s1.len(),
{
    broadcast use vstd::seq_lib::group_to_multiset_ensures;
    broadcast use vstd::multiset::group_multiset_axioms;

    lemma_multiset_len(s1, s2);
    if s1.len() == 0 {
        assert(s2.len() == 0);
    } else {
        let x = s1.last();
        assert(s1.contains(x));
        assert(s1.to_multiset().count(x) > 0);
        assert(s2.contains(x));
        let i = choose|i: int| 0 <= i < s2.len() && s2[i] == x;
        lemma_hits_remove(s2, i, level, size, p);
        assert(s1.drop_last() =~= s1.remove(s1.len() - 1));
        assert(s1.drop_last().to_multiset() == s1.to_multiset().remove(x));
        assert(s2.remove(i).to_multiset() == s2.to_multiset().remove(x));
        lemma_hits_permutation(s1.drop_last(), s2.remove(i), level, size, p);
    }
}

/// How often a key occurs among a level's survivors: never, when its own
/// position resolves; exactly as often as among the inputs, otherwise.
proof fn lemma_survivors_count(s: Seq<Seq<u8>>, level: int, size: u64, j: int, k: Seq<u8>)
    requires
        0 <= j <= s.len(),
    ensures
        survivors_upto(s, level, size, j).to_multiset().count(k) == (if resolved(
            s,
            level,
            size,
            key_pos(k, level, size),
        ) {
            0nat
        } else {
            s.take(j).to_multiset().count(k)
        }),
    decreases j,
{
    broadcast use vstd::seq_lib::group_to_multiset_ensures;
    broadcast use vstd::multiset::group_multiset_axioms;

    if j == 0 {
        assert(s.take(0) =~= Seq::<Seq<u8>>::empty());
        assert(survivors_upto(s, level, size, 0) =~= Seq::<Seq<u8>>::empty());
        assert(!Seq::<Seq<u8>>::empty().contains(k));
    } else {
        lemma_survivors_count(s, level, size, j - 1, k);
        let x = s[j - 1];
        assert(s.take(j) =~= s.take(j - 1).push(x));
        assert(s.take(j).to_multiset() == s.take(j - 1).to_multiset().insert(x));
        let sv = survivors_upto(s, level, size, j - 1);
        if !resolved(s, level, size, key_pos(x, level, size)) {
            assert(survivors_upto(s, level, size, j) == sv.push(x));
            assert(sv.push(x).to_multiset() == sv.to_multiset().insert(x));
        }
    }
}

/// The survivors of multiset-equal inputs are multiset-equal.
proof fn lemma_next_rem_multiset(s1: Seq<Seq<u8>>, s2: Seq<Seq<u8>>, level: int, size: u64)
    requires
        s1.to_multiset() == s2.to_multiset(),
    ensures
        next_rem(s1, level, size).to_multiset() == next_rem(s2, level, size).to_multiset(),
{
    broadcast use vstd::seq_lib::group_to_multiset_ensures;
    broadcast use vstd::multiset::group_multiset_axioms;

    let n1 = next_rem(s1, level, size);
    let n2 = next_rem(s2, level, size);
    assert forall|k: Seq<u8>| true implies n1.to_multiset().count(k) == n2.to_multiset().count(
        k,
    ) by {
        lemma_survivors_count(s1, level, size, s1.len() as int, k);
        lemma_survivors_count(s2, level, size, s2.len() as int, k);
        assert(s1.take(s1.len() as int) =~= s1);
        assert(s2.take(s2.len() as int) =~= s2);
        lemma_hits_permutation(s1, s2, level, size, key_pos(k, level, size));
    }
    assert(n1.to_multiset() =~= n2.to_multiset());
}

/// At every level, the keys remaining from multiset-equal inputs are
/// multiset-equal.
proof fn lemma_rem_at_multiset(keys1: Seq<Seq<u8>>, keys2: Seq<Seq<u8>>, g: Gamma, i: int)
    requires
        i >= 0,
        keys1.to_multiset() == keys2.to_multiset(),
    ensures
        rem_at(keys1, g, i).to_multiset() == rem_at(keys2, g, i).to_multiset(),
        rem_at(keys1, g, i).len() == rem_at(keys2, g, i).len(),
    decreases i,
{
    broadcast use vstd::seq_lib::group_to_multiset_ensures;

    if i == 0 {
    } else {
        lemma_rem_at_multiset(keys1, keys2, g, i - 1);
        let r1 = rem_at(keys1, g, i - 1);
        let r2 = rem_at(keys2, g, i - 1);
        let size = spec_level_size(r1.len(), g) as u64;
        lemma_next_rem_multiset(r1, r2, i - 1, size);
    }
    lemma_multiset_len(rem_at(keys1, g, i), rem_at(keys2, g, i));
}

/// Below any position, multiset-equal remainders resolve the same number of
/// positions.
proof fn lemma_resolved_below_permutation(
    s1: Seq<Seq<u8>>,
    s2: Seq<Seq<u8>>,
    level: int,
    size: u64,
    p: int,
)
    requires
        s1.to_multiset() == s2.to_multiset(),
        p >= 0,
    ensures
        resolved_below(s1, level, size, p) == resolved_below(s2, level, size, p),
    decreases p,
{
    if p > 0 {
        lemma_resolved_below_permutation(s1, s2, level, size, p - 1);
        lemma_hits_permutation(s1, s2, level, size, (p - 1) as u64);
    }
}

/// From any level on, the model assigns a key the same index for
/// multiset-equal key sequences.
proof fn lemma_model_hash_from_permutation(
    keys1: Seq<Seq<u8>>,
    keys2: Seq<Seq<u8>>,
    g: Gamma,
    k: Seq<u8>,
    i: int,
)
    requires
        keys1.to_multiset() == keys2.to_multiset(),
        i >= 0,
    ensures
        model_hash_from(keys1, g, k, i) == model_hash_from(keys2, g, k, i),
    decreases 32 - i,
{
    broadcast use vstd::seq_lib::group_to_multiset_ensures;

    if i < 32 {
        lemma_rem_at_multiset(keys1, keys2, g, i);
        let r1 = rem_at(keys1, g, i);
        let r2 = rem_at(keys2, g, i);
        if r1.len() != 0 {
            let size = spec_level_size(r1.len(), g) as u64;
            let p = key_pos(k, i, size);
            lemma_hits_permutation(r1, r2, i, size, p);
            if resolved(r1, i, size, p) {
                lemma_resolved_below_permutation(r1, r2, i, size, p as int);
                lemma_multiset_len(keys1, keys2);
            } else {
                lemma_model_hash_from_permutation(keys1, keys2, g, k, i + 1);
            }
        }
    }
}

/// Order-independence law: shuffling the key sequence before construction
/// changes no assigned index — the model maps every key to the same place
/// for any two multiset-equal key sequences, and it succeeds on one exactly
/// when it succeeds on the other.
pub proof fn lemma_order_independence(keys1: Seq<Seq<u8>>, keys2: Seq<Seq<u8>>, g: Gamma)
    requires
        keys1.to_multiset() == keys2.to_multiset(),
    ensures
        forall|k: Seq<u8>| #[trigger]
            model_hash(keys1, g, k) == model_hash(keys2, g, k),
        model_success(keys1, g) == model_success(keys2, g),
{
    broadcast use vstd::seq_lib::group_to_multiset_ensures;

    assert forall|k: Seq<u8>| #[trigger] model_hash(keys1, g, k) == model_hash(keys2, g, k) by {
        lemma_model_hash_from_permutation(keys1, keys2, g, k, 0);
    }
    lemma_multiset_len(keys1, keys2);
    if model_success(keys1, g) {
        lemma_success_permutation(keys1, keys2, g);
    }
    if model_success(keys2, g) {
        lemma_success_permutation(keys2, keys1, g);
    }
}

/// One direction of the success equivalence under shuffling.
proof fn lemma_success_permutation(keys1: Seq<Seq<u8>>, keys2: Seq<Seq<u8>>, g: Gamma)
    requires
        keys1.to_multiset() == keys2.to_multiset(),
        model_success(keys1, g),
    ensures
        model_success(keys2, g),
{
    broadcast use vstd::seq_lib::group_to_multiset_ensures;

    lemma_multiset_len(keys1, keys2);
    assert forall|k: Seq<u8>| #[trigger] model_hash(keys1, g, k) == model_hash(keys2, g, k) by {
        lemma_model_hash_from_permutation(keys1, keys2, g, k, 0);
    }
    let iw = choose|i: int| 0 <= i <= 32 && rem_at(keys1, g, i).len() == 0;
    lemma_rem_at_multiset(keys1, keys2, g, iw);
    assert(rem_at(keys2, g, iw).len() == 0);
    assert forall|j: int| 0 <= j < keys2.len() implies (#[trigger] model_hash(
        keys2,
        g,
        keys2[j],
    )) is Some && model_hash(keys2, g, keys2[j]).unwrap() < keys2.len() by {
        lemma_index_in_multiset(keys2, keys1, j);
        let t = choose|t: int| 0 <= t < keys1.len() && keys1[t] == keys2[j];
        assert(model_hash(keys1, g, keys1[t]) is Some && model_hash(keys1, g, keys1[t]).unwrap()
            < keys1.len());
    }
    assert forall|j1: int, j2: int| 0 <= j1 < j2 < keys2.len() implies model_hash(
        keys2,
        g,
        keys2[j1],
    ) != model_hash(keys2, g, keys2[j2]) by {
        lemma_distinct_under_injective_hash(keys1, keys2, g, j1, j2);
    }
    assert forall|v: u64| v < keys2.len() implies #[trigger] model_hits_value(keys2, g, v) by {
        assert(model_hits_value(keys1, g, v));
        let t = choose|t: int| 0 <= t < keys1.len() && model_hash(keys1, g, keys1[t]) == Some(v);
        lemma_index_in_multiset(keys1, keys2, t);
        let j = choose|j: int| 0 <= j < keys2.len() && keys2[j] == keys1[t];
        assert(model_hash(keys2, g, keys2[j]) == Some(v));
    }
}

/// Multiset-equal sequences have one length.
proof fn lemma_multiset_len<A>(s1: Seq<A>, s2: Seq<A>)
    requires
        s1.to_multiset() == s2.to_multiset(),
    ensures
        s1.len() == s2.len(),
{
    broadcast use vstd::seq_lib::group_to_multiset_ensures;

    assert(s1.len() == s1.to_multiset().len());
    assert(s2.len() == s2.to_multiset().len());
}

/// An element of one sequence occurs in any multiset-equal sequence.
proof fn lemma_index_in_multiset(s1: Seq<Seq<u8>>, s2: Seq<Seq<u8>>, j: int)
    requires
        s1.to_multiset() == s2.to_multiset(),
        0 <= j < s1.len(),
    ensures
        exists|t: int| 0 <= t < s2.len() && s2[t] == s1[j],
{
    broadcast use vstd::seq_lib::group_to_multiset_ensures;

    assert(s1.contains(s1[j]));
    assert(s1.to_multiset().count(s1[j]) > 0);
    assert(s2.contains(s1[j]));
    let t = choose|t: int| 0 <= t < s2.len() && s2[t] == s1[j];
    assert(0 <= t < s2.len() && s2[t] == s1[j]);
}

/// Two distinct positions of a shuffled sequence still hash apart: a shared
/// index would mean a duplicated key or an injectivity violation in the
/// original order.
proof fn lemma_distinct_under_injective_hash(
    keys1: Seq<Seq<u8>>,
    keys2: Seq<Seq<u8>>,
    g: Gamma,
    j1: int,
    j2: int,
)
    requires
        keys1.to_multiset() == keys2.to_multiset(),
        model_success(keys1, g),
        0 <= j1 < j2 < keys2.len(),
    ensures
        model_hash(keys2, g, keys2[j1]) != model_hash(keys2, g, keys2[j2]),
{
    broadcast use vstd::seq_lib::group_to_multiset_ensures;

    assert forall|k: Seq<u8>| #[trigger] model_hash(keys1, g, k) == model_hash(keys2, g, k) by {
        lemma_model_hash_from_permutation(keys1, keys2, g, k, 0);
    }
    if model_hash(keys2, g, keys2[j1]) == model_hash(keys2, g, keys2[j2]) {
        // The two keys of the shuffled sequence map to one index. In the
        // original order they occur at two distinct positions as well, and
        // there injectivity forbids a shared index.
        if keys2[j1] == keys2[j2] {
            lemma_two_occurrences(keys2, keys1, j1, j2);
            let (t1, t2) = choose|t1: int, t2: int|
                0 <= t1 < t2 < keys1.len() && keys1[t1] == keys2[j1] && keys1[t2] == keys2[j2];
            assert(model_hash(keys1, g, keys1[t1]) != model_hash(keys1, g, keys1[t2]));
        } else {
            lemma_index_in_multiset(keys2, keys1, j1);
            lemma_index_in_multiset(keys2, keys1, j2);
            let t1 = choose|t: int| 0 <= t < keys1.len() && keys1[t] == keys2[j1];
            let t2 = choose|t: int| 0 <= t < keys1.len() && keys1[t] == keys2[j2];
            assert(t1 != t2);
            if t1 < t2 {
                assert(model_hash(keys1, g, keys1[t1]) != model_hash(keys1, g, keys1[t2]));
            } else {
                assert(model_hash(keys1, g, keys1[t2]) != model_hash(keys1, g, keys1[t1]));
            }
        }
    }
}

/// A value occurring at two positions of one sequence occurs at two distinct
/// positions of any multiset-equal sequence.
proof fn lemma_two_occurrences(s1: Seq<Seq<u8>>, s2: Seq<Seq<u8>>, j1: int, j2: int)
    requires
        s1.to_multiset() == s2.to_multiset(),
        0 <= j1 < j2 < s1.len(),
        s1[j1] == s1[j2],
    ensures
        exists|t1: int, t2: int|
            0 <= t1 < t2 < s2.len() && s2[t1] == s1[j1] && s2[t2] == s1[j2],
{
    broadcast use vstd::seq_lib::group_to_multiset_ensures;
    broadcast use vstd::multiset::group_multiset_axioms;

    let x = s1[j1];
    lemma_count_two(s1, j1, j2);
    assert(s2.to_multiset().count(x) >= 2);
    assert(s2.contains(x));
    let t1 = choose|t: int| 0 <= t < s2.len() && s2[t] == x;
    let s2r = s2.remove(t1);
    assert(s2r.to_multiset() == s2.to_multiset().remove(x));
    assert(s2r.to_multiset().count(x) >= 1);
    assert(s2r.contains(x));
    let tr = choose|t: int| 0 <= t < s2r.len() && s2r[t] == x;
    let t2 = if tr < t1 {
        tr
    } else {
        tr + 1
    };
    assert(s2[t2] == x && t2 != t1 && 0 <= t2 < s2.len());
    if t1 < t2 {
        assert(s2[t1] == x && s2[t2] == x);
    } else {
        assert(s2[t2] == x && s2[t1] == x);
    }
}

/// A value sitting at two positions counts at least twice in the multiset.
proof fn lemma_count_two(s: Seq<Seq<u8>>, j1: int, j2: int)
    requires
        0 <= j1 < j2 < s.len(),
        s[j1] == s[j2],
    ensures
        s.to_multiset().count(s[j1]) >= 2,
{
    broadcast use vstd::seq_lib::group_to_multiset_ensures;
    broadcast use vstd::multiset::group_multiset_axioms;

    let x = s[j1];
    let sr = s.remove(j1);
    assert(sr.to_multiset() == s.to_multiset().remove(x));
    assert(sr[j2 - 1] == x);
    assert(sr.contains(x));
    assert(sr.to_multiset().count(x) > 0);
}

/// Table-uniqueness law: two permuted tables built from multiset-equal entry
/// lists under hash functions that agree on every key are the same array,
/// entry for entry.
pub proof fn lemma_permuted_table_unique(
    m1: Mphf,
    m2: Mphf,
    entries1: Seq<(Vec<u8>, Vec<u8>)>,
    entries2: Seq<(Vec<u8>, Vec<u8>)>,
    t1: Seq<(Vec<u8>, Vec<u8>)>,
    t2: Seq<(Vec<u8>, Vec<u8>)>,
)
    requires
        entries1.len() <= u64::MAX,
        entries2.len() <= u64::MAX,
        forall|k: Seq<u8>| #[trigger] m1.spec_hash(k) == m2.spec_hash(k),
        table_view(entries1).to_multiset() == table_view(entries2).to_multiset(),
        permute_post(m1, entries1, t1),
        permute_post(m2, entries2, t2),
    ensures
        forall|p: int| 0 <= p < t1.len() ==> entry_view(#[trigger] t1[p]) == entry_view(t2[p]),
        t1.len() == t2.len(),
{
    broadcast use vstd::seq_lib::group_to_multiset_ensures;

    lemma_multiset_len(table_view(entries1), table_view(entries2));
    assert(table_view(entries1).len() == table_view(entries2).len());
    assert(t1.len() == entries1.len() && t2.len() == entries2.len());
    assert forall|p: int| 0 <= p < t1.len() implies entry_view(#[trigger] t1[p]) == entry_view(
        t2[p],
    ) by {
        assert(slot_filled(m2, entries2, t2, p));
        let j2 = choose|j: int|
            0 <= j < entries2.len() && m2.spec_hash(entries2[j].0@) == Some(p as u64)
                && entry_view(t2[p]) == entry_view(entries2[j]);
        assert(table_view(entries2)[j2] == entry_view(entries2[j2]));
        assert(table_view(entries2).contains(entry_view(entries2[j2])));
        assert(table_view(entries2).to_multiset().count(entry_view(entries2[j2])) > 0);
        assert(table_view(entries1).contains(entry_view(entries2[j2])));
        let j1 = choose|j: int|
            0 <= j < table_view(entries1).len() && table_view(entries1)[j] == entry_view(
                entries2[j2],
            );
        assert(entry_view(entries1[j1]) == entry_view(entries2[j2]));
        assert(entries1[j1].0@ == entries2[j2].0@);
        assert(m1.spec_hash(entries1[j1].0@) == Some(p as u64));
        assert(entry_view(t1[m1.spec_hash(entries1[j1].0@).unwrap() as int]) == entry_view(
            entries1[j1],
        ));
        assert(entry_view(t1[p]) == entry_view(entries1[j1]));
    }
}

/// The keys of an entry sequence, taken from its views.
pub open spec fn view_keys(s: Seq<(Seq<u8>, Seq<u8>)>) -> Seq<Seq<u8>> {
    Seq::new(s.len(), |i: int| s[i].0)
}

/// Removing an entry removes its key.
proof fn lemma_view_keys_remove(s: Seq<(Seq<u8>, Seq<u8>)>, i: int)
    requires
        0 <= i < s.len(),
    ensures
        view_keys(s.remove(i)) == view_keys(s).remove(i),
{
    assert(view_keys(s.remove(i)) =~= view_keys(s).remove(i));
}

/// Multiset-equal entry sequences have multiset-equal key sequences.
proof fn lemma_view_keys_multiset(s1: Seq<(Seq<u8>, Seq<u8>)>, s2: Seq<(Seq<u8>, Seq<u8>)>)
    requires
        s1.to_multiset() == s2.to_multiset(),
    ensures
        view_keys(s1).to_multiset() == view_keys(s2).to_multiset(),
    decreases s1.len(),
{
    broadcast use vstd::seq_lib::group_to_multiset_ensures;
    broadcast use vstd::multiset::group_multiset_axioms;

    lemma_multiset_len(s1, s2);
    if s1.len() > 0 {
        let x = s1.last();
        assert(s1.contains(x));
        assert(s1.to_multiset().count(x) > 0);
        assert(s2.contains(x));
        let i = choose|i: int| 0 <= i < s2.len() && s2[i] == x;
        let r1 = s1.remove(s1.len() - 1);
        let r2 = s2.remove(i);
        assert(r1.to_multiset() == s1.to_multiset().remove(x));
        assert(r2.to_multiset() == s2.to_multiset().remove(x));
        lemma_view_keys_multiset(r1, r2);
        lemma_view_keys_remove(s1, s1.len() - 1);
        lemma_view_keys_remove(s2, i);
        assert(view_keys(s1)[s1.len() - 1] == x.0);
        assert(view_keys(s2)[i] == x.0);
        assert(view_keys(s1).remove(s1.len() - 1).to_multiset() == view_keys(
            s1,
        ).to_multiset().remove(x.0));
        assert(view_keys(s2).remove(i).to_multiset() == view_keys(s2).to_multiset().remove(x.0));
        assert(view_keys(s1).to_multiset().count(x.0) > 0) by {
            assert(view_keys(s1).contains(x.0));
        }
        assert(view_keys(s2).to_multiset().count(x.0) > 0) by {
            assert(view_keys(s2).contains(x.0));
        }
        let m1k = view_keys(s1).to_multiset();
        let m2k = view_keys(s2).to_multiset();
        assert(view_keys(s1).to_multiset() =~= view_keys(s2).to_multiset()) by {
            assert forall|k: Seq<u8>| true implies m1k.count(k) == m2k.count(k) by {
                assert(m1k.remove(x.0).count(k) == m1k.count(k) - (if k == x.0 {
                    1int
                } else {
                    0int
                }));
                assert(m2k.remove(x.0).count(k) == m2k.count(k) - (if k == x.0 {
                    1int
                } else {
                    0int
                }));
            }
        }
    } else {
        assert(view_keys(s1) =~= view_keys(s2));
    }
}

/// Table order-independence law: building and permuting two multiset-equal
/// asset lists yields one and the same final array, entry for entry, no
/// matter how either list was ordered.
pub proof fn lemma_table_order_independence(
    assets1: Seq<(Vec<u8>, Vec<u8>)>,
    assets2: Seq<(Vec<u8>, Vec<u8>)>,
    m1: Mphf,
    m2: Mphf,
    t1: Seq<(Vec<u8>, Vec<u8>)>,
    t2: Seq<(Vec<u8>, Vec<u8>)>,
)
    requires
        assets1.len() <= u64::MAX,
        assets2.len() <= u64::MAX,
        table_view(assets1).to_multiset() == table_view(assets2).to_multiset(),
        build_hash_table_post(assets1, m1, t1),
        build_hash_table_post(assets2, m2, t2),
    ensures
        t1.len() == t2.len(),
        forall|p: int| 0 <= p < t1.len() ==> entry_view(#[trigger] t1[p]) == entry_view(t2[p]),
{
    let g = spec_default_gamma();
    lemma_view_keys_multiset(table_view(assets1), table_view(assets2));
    assert(view_keys(table_view(assets1)) =~= table_keys(assets1));
    assert(view_keys(table_view(assets2)) =~= table_keys(assets2));
    lemma_order_independence(table_keys(assets1), table_keys(assets2), g);
    assert forall|k: Seq<u8>| #[trigger] m1.spec_hash(k) == m2.spec_hash(k) by {
        assert(model_hash(table_keys(assets1), g, k) == model_hash(table_keys(assets2), g, k));
    }
    lemma_permuted_table_unique(m1, m2, assets1, assets2, t1, t2);
}

} // verus!
