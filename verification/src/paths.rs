//! Normalizing asset paths into lookup keys: a path is split at separators,
//! only its normal segments are kept (empty, current-directory and
//! parent-directory segments fall away), and the rest are joined with the
//! caller's separator.

use vstd::prelude::*;

verus! {

/// Whether `b` separates path segments: a forward slash or a backslash.
pub open spec fn is_sep(b: u8) -> bool {
    b == 47 || b == 92
}

/// Whether a segment is kept: nonempty and neither `.` nor `..`.
pub open spec fn keep_segment(s: Seq<u8>) -> bool {
    s.len() > 0 && s != seq![46u8] && s != seq![46u8, 46u8]
}

/// The kept segments of `p`, with `cur` the partial segment read so far.
pub open spec fn norm_segments(p: Seq<u8>, cur: Seq<u8>) -> Seq<Seq<u8>>
    decreases p.len()
{
    if p.len() == 0 {
        if keep_segment(cur) {
            seq![cur]
        } else {
            Seq::empty()
        }
    } else if is_sep(p[0]) {
        (if keep_segment(cur) {
            seq![cur]
        } else {
            Seq::empty()
        }) + norm_segments(p.drop_first(), Seq::empty())
    } else {
        norm_segments(p.drop_first(), cur.push(p[0]))
    }
}

/// The kept segments of a whole path.
pub open spec fn path_segments(p: Seq<u8>) -> Seq<Seq<u8>> {
    norm_segments(p, Seq::empty())
}

/// The first `j` segments joined with `sep` between them.
pub open spec fn join_upto(segs: Seq<Seq<u8>>, sep: u8, j: int) -> Seq<u8>
    decreases j
{
    if j <= 0 {
        Seq::empty()
    } else if j == 1 {
        segs[0]
    } else {
        join_upto(segs, sep, j - 1) + seq![sep] + segs[j - 1]
    }
}

/// The path's kept segments, joined with `sep`.
pub open spec fn normalized_path(p: Seq<u8>, sep: u8) -> Seq<u8> {
    join_upto(path_segments(p), sep, path_segments(p).len() as int)
}

/// Whether the partial segment would be kept.
fn keep_segment_exec(cur: &Vec<u8>) -> (r: bool)
    ensures
        r == keep_segment(cur@),
{
    proof {
        if cur@.len() == 1 {
            assert((cur@ == seq![46u8]) == (cur@[0] == 46)) by {
                if cur@[0] == 46 {
                    assert(cur@ =~= seq![46u8]);
                }
            }
        }
        if cur@.len() == 2 {
            assert((cur@ == seq![46u8, 46u8]) == (cur@[0] == 46 && cur@[1] == 46)) by {
                if cur@[0] == 46 && cur@[1] == 46 {
                    assert(cur@ =~= seq![46u8, 46u8]);
                }
            }
        }
        assert(cur@.len() == 1 ==> cur@ != seq![46u8, 46u8]);
        assert(cur@.len() == 2 ==> cur@ != seq![46u8]);
    }
    if cur.len() == 0 {
        return false;
    }
    if cur.len() == 1 && cur[0] == 46 {
        return false;
    }
    if cur.len() == 2 && cur[0] == 46 && cur[1] == 46 {
        return false;
    }
    true
}

/// Splits `path` at slashes and backslashes, drops empty, `.` and `..`
/// segments, and joins what is kept with `separator`.
#[verifier::loop_isolation(false)]
pub fn split_path_with_separator(path: &[u8], separator: u8) -> (r: Vec<u8>)
    ensures
        r@ == normalized_path(path@, separator),
{
    let n = path.len();
    let mut segs: Vec<Vec<u8>> = Vec::new();
    let mut cur: Vec<u8> = Vec::new();
    let mut i: usize = 0;
    proof {
        assert(path@.skip(0) =~= path@);
        assert(segs.deep_view() =~~= Seq::<Seq<u8>>::empty());
        assert(path_segments(path@) == segs.deep_view() + norm_segments(path@.skip(0), cur@))
            by {
            assert(Seq::<Seq<u8>>::empty() + norm_segments(path@, Seq::<u8>::empty())
                =~= norm_segments(path@, Seq::<u8>::empty()));
            assert(cur@ =~= Seq::<u8>::empty());
        }
    }
    while i < n
        invariant
            0 <= i <= n,
            n == path@.len(),
            path_segments(path@) == segs.deep_view() + norm_segments(path@.skip(i as int), cur@),
        decreases n - i,
    {
        let b = path[i];
        proof {
            assert(path@.skip(i as int).drop_first() =~= path@.skip(i + 1 as int));
            assert(path@.skip(i as int)[0] == b);
            assert(path@.skip(i as int).len() > 0);
        }
        if b == 47 || b == 92 {
            let ghost old_segs = segs.deep_view();
            let ghost old_cur = cur@;
            if keep_segment_exec(&cur) {
                segs.push(cur);
                proof {
                    assert(segs.deep_view() =~~= old_segs.push(old_cur));
                    assert(old_segs.push(old_cur) =~= old_segs + seq![old_cur]);
                    assert((old_segs + seq![old_cur]) + norm_segments(
                        path@.skip(i + 1 as int),
                        Seq::empty(),
                    ) =~= old_segs + (seq![old_cur] + norm_segments(
                        path@.skip(i + 1 as int),
                        Seq::empty(),
                    )));
                }
            } else {
                proof {
                    assert(old_segs + (Seq::<Seq<u8>>::empty() + norm_segments(
                        path@.skip(i + 1 as int),
                        Seq::empty(),
                    )) =~= old_segs + norm_segments(path@.skip(i + 1 as int), Seq::empty()));
                }
            }
            cur = Vec::new();
            proof {
                assert(cur@ =~= Seq::<u8>::empty());
            }
        } else {
            cur.push(b);
        }
        i = i + 1;
    }
    proof {
        assert(path@.skip(n as int) =~= Seq::<u8>::empty());
    }
    let ghost old_segs = segs.deep_view();
    let ghost old_cur = cur@;
    if keep_segment_exec(&cur) {
        segs.push(cur);
        proof {
            assert(segs.deep_view() =~~= old_segs.push(old_cur));
            assert(old_segs.push(old_cur) =~= old_segs + seq![old_cur]);
        }
    } else {
        proof {
            assert(old_segs + Seq::<Seq<u8>>::empty() =~= old_segs);
        }
    }
    proof {
        assert(segs.deep_view() == path_segments(path@));
    }
    let ghost segsv = segs.deep_view();

    // Join the kept segments.
    let m = segs.len();
    let mut out: Vec<u8> = Vec::new();
    let mut j: usize = 0;
    proof {
        assert(segsv.len() == m);
        assert(out@ =~= join_upto(segsv, separator, 0));
    }
    while j < m
        invariant
            0 <= j <= m,
            m == segsv.len(),
            segsv == segs.deep_view(),
            segs@.len() == m,
            out@ == join_upto(segsv, separator, j as int),
        decreases m - j,
    {
        if j > 0 {
            out.push(separator);
        }
        let seg_len = segs[j].len();
        let mut t: usize = 0;
        while t < seg_len
            invariant
                0 <= t <= seg_len,
                seg_len == segs@[j as int]@.len(),
                j < m,
                m == segsv.len(),
                segsv == segs.deep_view(),
                segs@.len() == m,
                out@ == join_upto(segsv, separator, j as int) + (if j > 0 {
                    seq![separator]
                } else {
                    Seq::<u8>::empty()
                }) + segs@[j as int]@.take(t as int),
            decreases seg_len - t,
        {
            out.push(segs[j][t]);
            t = t + 1;
            proof {
                assert(segs@[j as int]@.take(t as int) =~= segs@[j as int]@.take(
                    t - 1 as int,
                ).push(segs@[j as int]@[t - 1]));
                assert(out@ =~= join_upto(segsv, separator, j as int) + (if j > 0 {
                    seq![separator]
                } else {
                    Seq::<u8>::empty()
                }) + segs@[j as int]@.take(t as int));
            }
        }
        j = j + 1;
        proof {
            assert(segs@[j - 1]@.take(seg_len as int) =~= segs@[j - 1]@);
            assert(segsv[j - 1] == segs@[j - 1]@);
            if j - 1 > 0 {
                assert(out@ =~= join_upto(segsv, separator, j as int));
            } else {
                assert(out@ =~= join_upto(segsv, separator, j as int));
            }
        }
    }
    out
}

/// Splits a path that may carry either separator and joins its kept
/// segments with forward slashes.
pub fn to_unix_path(path: &[u8]) -> (r: Vec<u8>)
    ensures
        r@ == normalized_path(path@, 47),
{
    split_path_with_separator(path, 47)
}

} // verus!
