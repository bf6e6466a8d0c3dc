//! Exact k-nearest-neighbor selection from one row of squared-distance
//! keys: the keys are `u64` values on any order-preserving encoding of
//! the squared distances, so comparing keys compares distances.

use vstd::prelude::*;
use crate::seqs::lemma_swap_perm;
use crate::seqs::swap_at;

verus! {

/// Neighbor entries `(index, key)` compare by distance key first, ties by
/// ascending index.
pub open spec fn lex_lt(a: (usize, u64), b: (usize, u64)) -> bool {
    a.1 < b.1 || (a.1 == b.1 && a.0 < b.0)
}

/// Reflexive closure of `lex_lt`.
pub open spec fn lex_le(a: (usize, u64), b: (usize, u64)) -> bool {
    a == b || lex_lt(a, b)
}

/// Does some entry of `s` carry the index `j`?
pub open spec fn sel(s: Seq<(usize, u64)>, j: usize) -> bool {
    exists|t: int| 0 <= t < s.len() && (#[trigger] s[t]).0 == j
}

fn lex_less(a: (usize, u64), b: (usize, u64)) -> (r: bool)
    ensures
        r == lex_lt(a, b),
{
    a.1 < b.1 || (a.1 == b.1 && a.0 < b.0)
}

/// The `min(k, n-1)` nearest neighbors of `query_index`, judged by the
/// distance keys in `dist2`: every entry pairs an index with its key, the
/// query itself is excluded, entries ascend by key with ties broken by
/// ascending index, and no excluded index beats a chosen one.
pub fn knn_from_row(dist2: &Vec<u64>, query_index: usize, k: usize) -> (out: Vec<(usize, u64)>)
    requires
        (query_index as int) < dist2@.len(),
    ensures
        out@.len() == (if (k as int) <= dist2@.len() - 1 {
            k as int
        } else {
            dist2@.len() - 1
        }),
        forall|t: int|
            0 <= t < out@.len() ==> (#[trigger] out@[t]).0 != query_index && ((out@[t]).0 as int)
                < dist2@.len() && (out@[t]).1 == dist2@[(out@[t]).0 as int],
        forall|t1: int, t2: int| 0 <= t1 < t2 < out@.len() ==> lex_lt(out@[t1], out@[t2]),
        forall|t: int, j: usize|
            #![trigger out@[t], dist2@[j as int]]
            0 <= t < out@.len() && (j as int) < dist2@.len() && j != query_index && !sel(out@, j)
                ==> lex_lt(out@[t], (j, dist2@[j as int])),
{
    let n = dist2.len();
    let kk = if k < n - 1 {
        k
    } else {
        n - 1
    };
    let mut buf: Vec<(usize, u64)> = Vec::new();
    let mut j: usize = 0;
    while j < n
        invariant
            n == dist2@.len(),
            (query_index as int) < n,
            j <= n,
            buf@.len() == (if (j as int) <= query_index as int {
                j as int
            } else {
                j - 1
            }),
            forall|t: int|
                0 <= t < buf@.len() ==> (#[trigger] buf@[t]).0 != query_index && ((buf@[t]).0 as int)
                    < j && (buf@[t]).1 == dist2@[(buf@[t]).0 as int],
            forall|t1: int, t2: int| 0 <= t1 < t2 < buf@.len() ==> buf@[t1].0 < buf@[t2].0,
            forall|j0: usize| (j0 as int) < j && j0 != query_index ==> sel(buf@, j0),
        decreases n - j,
    {
        if j != query_index {
            let ghost b0 = buf@;
            buf.push((j, dist2[j]));
            proof {
                assert(buf@[buf@.len() - 1] == (j, dist2@[j as int]));
                assert forall|j0: usize| (j0 as int) < j + 1 && j0 != query_index implies sel(
                    buf@,
                    j0,
                ) by {
                    if (j0 as int) < j {
                        assert(sel(b0, j0));
                        let t = choose|t: int| 0 <= t < b0.len() && b0[t].0 == j0;
                        assert(buf@[t].0 == j0);
                    } else {
                        assert(buf@[buf@.len() - 1].0 == j0);
                    }
                }
            }
        }
        j = j + 1;
    }
    proof {
        assert(buf@.len() == n - 1);
        assert(buf@.no_duplicates());
    }
    let ghost orig = buf@;
    // insertion sort by (key, index)
    let mut idx: usize = 1;
    while idx < buf.len()
        invariant
            buf@.len() == orig.len(),
            idx >= 1,
            forall|t: int|
                0 <= t < buf@.len() ==> (#[trigger] buf@[t]).0 != query_index && ((buf@[t]).0 as int)
                    < n && (buf@[t]).1 == dist2@[(buf@[t]).0 as int],
            buf@.no_duplicates(),
            forall|x: (usize, u64)| buf@.contains(x) <==> orig.contains(x),
            forall|p: int, q: int| 0 <= p < q < idx && q < buf@.len() ==> lex_le(buf@[p], buf@[q]),
        decreases buf@.len() - idx,
    {
        let mut jj: usize = idx;
        while jj > 0 && lex_less(buf[jj], buf[jj - 1])
            invariant
                0 <= jj <= idx < buf@.len(),
                buf@.len() == orig.len(),
                forall|t: int|
                    0 <= t < buf@.len() ==> (#[trigger] buf@[t]).0 != query_index && ((
                    buf@[t]).0 as int) < n && (buf@[t]).1 == dist2@[(buf@[t]).0 as int],
                buf@.no_duplicates(),
                forall|x: (usize, u64)| buf@.contains(x) <==> orig.contains(x),
                forall|p: int, q: int|
                    0 <= p < q <= idx && q < buf@.len() && p != jj && q != jj ==> lex_le(
                        buf@[p],
                        buf@[q],
                    ),
                forall|q: int| jj < q <= idx ==> lex_lt(buf@[jj as int], buf@[q]),
            decreases jj,
        {
            let ghost s0 = buf@;
            let a = buf[jj];
            let b = buf[jj - 1];
            buf[jj] = b;
            buf[jj - 1] = a;
            proof {
                assert(buf@ =~= swap_at(s0, jj - 1 as int, jj as int));
                lemma_swap_perm(s0, jj - 1 as int, jj as int);
            }
            jj = jj - 1;
        }
        proof {
            assert forall|p: int, q: int| 0 <= p < q <= idx implies lex_le(buf@[p], buf@[q]) by {
                if q == jj {
                    assert(lex_le(buf@[jj - 1], buf@[jj as int]));
                    if p < jj - 1 {
                        assert(lex_le(buf@[p], buf@[jj - 1]));
                    }
                } else if p == jj {
                    assert(lex_lt(buf@[jj as int], buf@[q]));
                }
            }
        }
        idx = idx + 1;
    }
    // keep the first kk entries
    let mut out: Vec<(usize, u64)> = Vec::new();
    let mut t: usize = 0;
    while t < kk
        invariant
            t <= kk,
            kk <= buf@.len(),
            out@.len() == t,
            forall|s: int| 0 <= s < t ==> out@[s] == buf@[s],
        decreases kk - t,
    {
        out.push(buf[t]);
        t = t + 1;
    }
    proof {
        assert forall|t1: int, t2: int| 0 <= t1 < t2 < out@.len() implies lex_lt(
            out@[t1],
            out@[t2],
        ) by {
            assert(lex_le(buf@[t1], buf@[t2]));
            assert(buf@[t1] != buf@[t2]);
        }
        assert forall|t0: int, j0: usize|
            #![trigger out@[t0], dist2@[j0 as int]]
            0 <= t0 < out@.len() && (j0 as int) < dist2@.len() && j0 != query_index && !sel(
                out@,
                j0,
            ) implies lex_lt(out@[t0], (j0, dist2@[j0 as int])) by {
            assert(sel(orig, j0));
            let tj = choose|tj: int| 0 <= tj < orig.len() && orig[tj].0 == j0;
            assert(orig.contains(orig[tj]));
            assert(buf@.contains(orig[tj]));
            let tb = choose|tb: int| 0 <= tb < buf@.len() && buf@[tb] == orig[tj];
            assert(buf@[tb].0 == j0);
            assert(buf@[tb] == (j0, dist2@[j0 as int]));
            if tb < kk {
                assert(out@[tb].0 == j0);
                assert(sel(out@, j0));
            }
            assert(tb >= kk);
            assert(lex_le(buf@[t0], buf@[tb]));
            assert(buf@[t0] != buf@[tb]);
        }
    }
    out
}

} // verus!
