//! Placing (key, value) pairs into hash order: after permutation, the entry
//! for every key sits exactly at the index the hash function assigns to it.

use vstd::prelude::*;

use crate::builder::build;
use crate::builder::model_hash;
use crate::builder::model_success;
use crate::builder::ConstructionError;
use crate::builder::Gamma;
use crate::mphf::Mphf;

verus! {

/// The ratio used when none is chosen: seventeen tenths.
pub open spec fn spec_default_gamma() -> Gamma {
    Gamma { num: 17, den: 10 }
}

/// The keys of a table of pairs, as byte sequences.
pub open spec fn table_keys(t: Seq<(Vec<u8>, Vec<u8>)>) -> Seq<Seq<u8>> {
    Seq::new(t.len(), |i: int| t[i].0@)
}

/// Both components of an entry, as byte sequences.
pub open spec fn entry_view(e: (Vec<u8>, Vec<u8>)) -> (Seq<u8>, Seq<u8>) {
    (e.0@, e.1@)
}

/// The whole table, as pairs of byte sequences.
pub open spec fn table_view(t: Seq<(Vec<u8>, Vec<u8>)>) -> Seq<(Seq<u8>, Seq<u8>)> {
    Seq::new(t.len(), |i: int| entry_view(t[i]))
}

/// Some entry's key is assigned the index `v` by the hash function.
pub open spec fn table_hits_value(m: Mphf, t: Seq<(Vec<u8>, Vec<u8>)>, v: u64) -> bool {
    exists|j: int| 0 <= j < t.len() && m.spec_hash(t[j].0@) == Some(v)
}

/// The hash function maps the table's keys one-to-one onto the dense range
/// of its indices.
pub open spec fn table_bijection(m: Mphf, t: Seq<(Vec<u8>, Vec<u8>)>) -> bool {
    &&& forall|j: int|
        0 <= j < t.len() ==> (#[trigger] m.spec_hash(t[j].0@)) is Some && m.spec_hash(
            t[j].0@,
        ).unwrap() < t.len()
    &&& forall|j1: int, j2: int|
        0 <= j1 < j2 < t.len() ==> m.spec_hash(t[j1].0@) != m.spec_hash(t[j2].0@)
    &&& forall|v: u64| v < t.len() ==> #[trigger] table_hits_value(m, t, v)
}

/// Every entry of the table sits at the index its key hashes to.
pub open spec fn permuted(m: Mphf, t: Seq<(Vec<u8>, Vec<u8>)>) -> bool {
    forall|p: int| 0 <= p < t.len() ==> m.spec_hash((#[trigger] t[p]).0@) == Some(p as u64)
}

/// What `permute` guarantees of its output against its input: each input
/// entry sits at the index its key hashes to, and each output slot carries
/// some input entry whose key hashes to it.
pub open spec fn permute_post(
    m: Mphf,
    t: Seq<(Vec<u8>, Vec<u8>)>,
    out: Seq<(Vec<u8>, Vec<u8>)>,
) -> bool {
    &&& out.len() == t.len()
    &&& forall|j: int|
        0 <= j < t.len() ==> entry_view(
            out[m.spec_hash((#[trigger] t[j]).0@).unwrap() as int],
        ) == entry_view(t[j])
    &&& forall|p: int| 0 <= p < out.len() ==> #[trigger] slot_filled(m, t, out, p)
}

/// Slot `p` of `out` carries some entry of `t` whose key hashes to `p`.
pub open spec fn slot_filled(
    m: Mphf,
    t: Seq<(Vec<u8>, Vec<u8>)>,
    out: Seq<(Vec<u8>, Vec<u8>)>,
    p: int,
) -> bool {
    exists|j: int|
        0 <= j < t.len() && m.spec_hash(t[j].0@) == Some(p as u64) && entry_view(out[p])
            == entry_view(t[j])
}

/// A byte-for-byte copy of an entry.
fn clone_entry(e: &(Vec<u8>, Vec<u8>)) -> (r: (Vec<u8>, Vec<u8>))
    ensures
        entry_view(r) == entry_view(*e),
{
    (crate::builder::clone_bytes(&e.0), crate::builder::clone_bytes(&e.1))
}

/// Reorders the pairs so that each sits at the index its key hashes to.
/// The result is a fresh table; the pairs' bytes are copied unchanged.
#[verifier::loop_isolation(false)]
pub fn permute(entries: &Vec<(Vec<u8>, Vec<u8>)>, m: &Mphf) -> (out: Vec<(Vec<u8>, Vec<u8>)>)
    requires
        m.wf(),
        table_bijection(*m, entries@),
    ensures
        permute_post(*m, entries@, out@),
        permuted(*m, out@),
{
    let n = entries.len();
    let mut out: Vec<(Vec<u8>, Vec<u8>)> = Vec::new();
    while out.len() < n
        invariant
            out@.len() <= n,
        decreases n - out@.len(),
    {
        out.push((Vec::new(), Vec::new()));
    }
    let mut j: usize = 0;
    while j < n
        invariant
            0 <= j <= n,
            out@.len() == n,
            forall|t: int|
                0 <= t < j ==> entry_view(
                    #[trigger] out@[m.spec_hash(entries@[t].0@).unwrap() as int],
                ) == entry_view(entries@[t]),
        decreases n - j,
    {
        let v = match m.hash(entries[j].0.as_slice()) {
            Ok(v) => v,
            Err(_) => {
                // The required bijection promises every table key an index,
                // so this arm cannot be reached.
                proof {
                    assert(false);
                }
                0
            },
        };
        let vu = v as usize;
        let ghost old_out = out@;
        let e = clone_entry(&entries[j]);
        out.set(vu, e);
        proof {
            assert forall|t: int| 0 <= t < j + 1 implies entry_view(
                #[trigger] out@[m.spec_hash(entries@[t].0@).unwrap() as int],
            ) == entry_view(entries@[t]) by {
                let ht = m.spec_hash(entries@[t].0@).unwrap() as int;
                if t < j {
                    assert(m.spec_hash(entries@[t].0@) != m.spec_hash(entries@[j as int].0@));
                    assert(ht != vu as int);
                    assert(out@[ht] == old_out[ht]);
                }
            }
        }
        j = j + 1;
    }
    proof {
        assert forall|p: int| 0 <= p < out@.len() implies #[trigger] slot_filled(
            *m,
            entries@,
            out@,
            p,
        ) by {
            assert(table_hits_value(*m, entries@, p as u64));
            let t = choose|t: int|
                0 <= t < entries@.len() && m.spec_hash(entries@[t].0@) == Some(p as u64);
            assert(entry_view(out@[m.spec_hash(entries@[t].0@).unwrap() as int]) == entry_view(
                entries@[t],
            ));
        }
        assert forall|p: int| 0 <= p < out@.len() implies m.spec_hash((#[trigger] out@[p]).0@)
            == Some(p as u64) by {
            assert(slot_filled(*m, entries@, out@, p));
            let t = choose|t: int|
                0 <= t < entries@.len() && m.spec_hash(entries@[t].0@) == Some(p as u64)
                    && entry_view(out@[p]) == entry_view(entries@[t]);
            assert(out@[p].0@ == entries@[t].0@);
        }
    }
    out
}

/// What `build_hash_table` guarantees on success: the hash function realizes
/// the construction model over the assets' keys at the default ratio, and
/// the returned table is the assets permuted into hash order.
pub open spec fn build_hash_table_post(
    assets: Seq<(Vec<u8>, Vec<u8>)>,
    m: Mphf,
    table: Seq<(Vec<u8>, Vec<u8>)>,
) -> bool {
    &&& m.wf()
    &&& forall|k: Seq<u8>| #[trigger]
        m.spec_hash(k) == model_hash(table_keys(assets), spec_default_gamma(), k)
    &&& model_success(table_keys(assets), spec_default_gamma())
    &&& table_bijection(m, assets)
    &&& permute_post(m, assets, table)
    &&& permuted(m, table)
}

/// Builds the hash function over the assets' keys at the default ratio and
/// returns it with the assets permuted into hash order: the entry at index
/// `p` of the table is exactly the asset whose key hashes to `p`.
#[verifier::loop_isolation(false)]
pub fn build_hash_table(assets: &Vec<(Vec<u8>, Vec<u8>)>) -> (r: Result<
    (Mphf, Vec<(Vec<u8>, Vec<u8>)>),
    ConstructionError,
>)
    requires
        (assets@.len() as int) * 18 + 522 <= usize::MAX,
    ensures
        match r {
            Ok((m, table)) => build_hash_table_post(assets@, m, table@),
            Err(e) => {
                &&& (e == ConstructionError::EmptyKeySet) == (assets@.len() == 0)
                &&& (e == ConstructionError::TooManyLevels) == (assets@.len() > 0
                    && !model_success(table_keys(assets@), spec_default_gamma()))
            },
        },
        (r is Ok) == model_success(table_keys(assets@), spec_default_gamma()),
{
    let ghost kv = table_keys(assets@);
    let n = assets.len();
    let mut keys: Vec<Vec<u8>> = Vec::new();
    let mut j: usize = 0;
    proof {
        assert(keys.deep_view() =~~= kv.take(0));
    }
    while j < n
        invariant
            0 <= j <= n,
            keys@.len() == j,
            keys.deep_view() == kv.take(j as int),
        decreases n - j,
    {
        keys.push(crate::builder::clone_bytes(&assets[j].0));
        j = j + 1;
        proof {
            assert(keys.deep_view() =~~= kv.take(j as int));
        }
    }
    proof {
        assert(keys.deep_view() =~~= kv);
    }
    let g = Gamma::new(17, 10);
    proof {
        assert(g == spec_default_gamma());
    }
    match build(&keys, &g) {
        Err(e) => Err(e),
        Ok(m) => {
            proof {
                assert forall|t: int| 0 <= t < assets@.len() implies (#[trigger] m.spec_hash(
                    assets@[t].0@,
                )) == model_hash(kv, g, kv[t]) by {
                    assert(kv[t] == assets@[t].0@);
                }
                assert(table_bijection(m, assets@)) by {
                    assert forall|v: u64| v < assets@.len() implies #[trigger] table_hits_value(
                        m,
                        assets@,
                        v,
                    ) by {
                        assert(crate::builder::model_hits_value(kv, g, v));
                        let t = choose|t: int|
                            0 <= t < kv.len() && model_hash(kv, g, kv[t]) == Some(v);
                        assert(m.spec_hash(assets@[t].0@) == Some(v));
                    }
                }
            }
            let table = permute(assets, &m);
            Ok((m, table))
        },
    }
}

/// Permuting an already-permuted table leaves every entry in place.
pub proof fn lemma_permute_idempotent(
    m: Mphf,
    t: Seq<(Vec<u8>, Vec<u8>)>,
    out: Seq<(Vec<u8>, Vec<u8>)>,
)
    requires
        t.len() <= u64::MAX,
        permuted(m, t),
        permute_post(m, t, out),
    ensures
        forall|p: int| 0 <= p < t.len() ==> entry_view(#[trigger] out[p]) == entry_view(t[p]),
{
    assert forall|p: int| 0 <= p < t.len() implies entry_view(#[trigger] out[p]) == entry_view(
        t[p],
    ) by {
        assert(m.spec_hash(t[p].0@) == Some(p as u64));
        assert(entry_view(out[m.spec_hash(t[p].0@).unwrap() as int]) == entry_view(t[p]));
    }
}

} // verus!
