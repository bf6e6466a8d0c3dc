//! Adjacency-list graph container: range validation at construction, and
//! the symmetrize-and-dedup closure that the graph builders share.

use vstd::prelude::*;
use crate::seqs::lemma_insert_membership;
use crate::seqs::lemma_strictly_inc_same_elems;
use crate::seqs::strictly_inc;
use crate::seqs::vec_contains;
use crate::tomato::TomatoError;

verus! {

/// The rows of an adjacency list, each row viewed as a sequence.
pub open spec fn rows_view(adj: Seq<Vec<usize>>) -> Seq<Seq<usize>> {
    Seq::new(adj.len(), |i: int| adj[i]@)
}

/// Every edge destination lies below the vertex count.
pub open spec fn graph_valid(g: Seq<Seq<usize>>) -> bool {
    forall|u: int, k: int|
        0 <= u < g.len() && 0 <= k < g[u].len() ==> (#[trigger] g[u][k] as int) < g.len()
}

/// What symmetrize-and-dedup returns: as many rows as given, every row
/// strictly ascending (hence duplicate free), and membership exactly the
/// loop free symmetric closure of the input's edges. A destination at or
/// beyond the row count has no row of its own to mirror from, so only the
/// forward direction can hold it.
pub open spec fn is_sym_closure(a: Seq<Seq<usize>>, b: Seq<Seq<usize>>) -> bool {
    &&& b.len() == a.len()
    &&& forall|u: int| 0 <= u < b.len() ==> strictly_inc(#[trigger] b[u])
    &&& forall|u: int, x: usize|
        0 <= u < b.len() ==> ((#[trigger] b[u].contains(x)) <==> ((x as int) != u && (
        a[u].contains(x) || ((x as int) < a.len() && a[x as int].contains(u as usize)))))
}

/// Adds `x` to a strictly ascending row unless it is already there or
/// equals `skip`.
pub(crate) fn insert_sorted_unique(row: &mut Vec<usize>, x: usize, skip: Option<usize>)
    requires
        strictly_inc(old(row)@),
    ensures
        strictly_inc(final(row)@),
        forall|y: usize|
            final(row)@.contains(y) <==> (old(row)@.contains(y) || (y == x && Some(x) != skip)),
{
    match skip {
        Some(s) => {
            if x == s {
                return ;
            }
        },
        None => {},
    }
    let mut i: usize = 0;
    while i < row.len() && row[i] < x
        invariant
            i <= row@.len(),
            strictly_inc(row@),
            row@ == old(row)@,
            forall|t: int| 0 <= t < i ==> row@[t] < x,
        decreases row@.len() - i,
    {
        i = i + 1;
    }
    if i < row.len() && row[i] == x {
        proof {
            assert(row@.contains(x));
        }
        return ;
    }
    let ghost s0 = row@;
    row.insert(i, x);
    proof {
        s0.insert_ensures(i as int, x);
        lemma_insert_membership(s0, i as int, x);
        assert forall|p: int, q: int| 0 <= p < q < row@.len() implies row@[p] < row@[q] by {
            if q < i {
                assert(row@[p] == s0[p]);
                assert(row@[q] == s0[q]);
            } else if q == i {
                assert(row@[q] == x);
                assert(row@[p] == s0[p]);
                assert(s0[p] < x);
            } else {
                assert(row@[q] == s0[q - 1]);
                assert(i <= q - 1 < s0.len());
                assert(s0[i as int] > x);
                if q - 1 > i {
                    assert(s0[q - 1] > s0[i as int]);
                }
                if p < i {
                    assert(row@[p] == s0[p]);
                    assert(s0[p] < x);
                } else if p == i {
                    assert(row@[p] == x);
                } else {
                    assert(row@[p] == s0[p - 1]);
                    assert(i <= p - 1);
                }
            }
        }
    }
}

/// An adjacency-list graph over vertices `0..n`; construction checks that
/// every edge destination is in range.
#[derive(Debug, Clone)]
pub struct Graph {
    adj: Vec<Vec<usize>>,
}

impl View for Graph {
    type V = Seq<Seq<usize>>;

    closed spec fn view(&self) -> Seq<Seq<usize>> {
        rows_view(self.adj@)
    }
}

impl Graph {
    /// Accepts an adjacency list whose every destination is in range and
    /// rejects any other with `InvalidGraph`.
    pub fn new(adj: Vec<Vec<usize>>) -> (r: Result<Graph, TomatoError>)
        ensures
            match r {
                Ok(g) => g@ == rows_view(adj@) && graph_valid(g@),
                Err(e) => !graph_valid(rows_view(adj@)) && e is InvalidGraph,
            },
    {
        let n = adj.len();
        let mut u: usize = 0;
        while u < n
            invariant
                u <= n,
                n == adj@.len(),
                forall|p: int, k: int|
                    0 <= p < u && 0 <= k < adj@[p]@.len() ==> (#[trigger] adj@[p]@[k] as int) < n,
            decreases n - u,
        {
            let m = adj[u].len();
            let mut k: usize = 0;
            while k < m
                invariant
                    u < n,
                    k <= m,
                    n == adj@.len(),
                    m == adj@[u as int]@.len(),
                    forall|p: int, k2: int|
                        0 <= p < u && 0 <= k2 < adj@[p]@.len() ==> (#[trigger] adj@[p]@[k2] as int)
                            < n,
                    forall|t: int| 0 <= t < k ==> (#[trigger] adj@[u as int]@[t] as int) < n,
                decreases m - k,
            {
                if adj[u][k] >= n {
                    proof {
                        assert(rows_view(adj@)[u as int][k as int] == adj@[u as int]@[k as int]);
                        assert(!graph_valid(rows_view(adj@)));
                    }
                    return Err(
                        TomatoError::InvalidGraph("edge destination out of range".to_string()),
                    );
                }
                k = k + 1;
            }
            u = u + 1;
        }
        proof {
            assert forall|p: int, k: int|
                0 <= p < rows_view(adj@).len() && 0 <= k < rows_view(adj@)[p].len() implies (
            #[trigger] rows_view(adj@)[p][k] as int) < rows_view(adj@).len() by {
                assert(rows_view(adj@)[p] == adj@[p]@);
            }
        }
        Ok(Graph { adj })
    }

    /// The number of vertices.
    pub fn n(&self) -> (r: usize)
        ensures
            r == self@.len(),
    {
        self.adj.len()
    }

    /// The adjacency row of vertex `v`.
    pub fn neighbors(&self, v: usize) -> (r: &Vec<usize>)
        requires
            (v as int) < self@.len(),
        ensures
            r@ == self@[v as int],
    {
        &self.adj[v]
    }

    /// The loop free symmetric closure of an adjacency list, each row
    /// sorted ascending and duplicate free.
    pub fn symmetrize_and_dedup(adj: Vec<Vec<usize>>) -> (out: Vec<Vec<usize>>)
        ensures
            is_sym_closure(rows_view(adj@), rows_view(out@)),
    {
        let n = adj.len();
        let mut out: Vec<Vec<usize>> = Vec::new();
        let mut r: usize = 0;
        while r < n
            invariant
                r <= n,
                n == adj@.len(),
                out@.len() == r,
                forall|u: int| 0 <= u < r ==> strictly_inc(#[trigger] out@[u]@),
                forall|u: int, x: usize|
                    0 <= u < r ==> ((#[trigger] out@[u]@.contains(x)) <==> ((x as int) != u && (
                    adj@[u]@.contains(x) || ((x as int) < n && adj@[x as int]@.contains(
                        u as usize,
                    ))))),
            decreases n - r,
        {
            let mut row: Vec<usize> = Vec::new();
            let m = adj[r].len();
            let mut k: usize = 0;
            while k < m
                invariant
                    r < n,
                    k <= m,
                    n == adj@.len(),
                    m == adj@[r as int]@.len(),
                    strictly_inc(row@),
                    forall|x: usize|
                        (#[trigger] row@.contains(x)) <==> ((x as int) != r as int && exists|t: int|
                            0 <= t < k && adj@[r as int]@[t] == x),
                decreases m - k,
            {
                let x = adj[r][k];
                insert_sorted_unique(&mut row, x, Some(r));
                proof {
                    assert forall|y: usize| #[trigger]
                        row@.contains(y) implies ((y as int) != r as int && exists|t: int|
                        0 <= t < k + 1 && adj@[r as int]@[t] == y) by {
                        if y == x && x != r {
                            assert(adj@[r as int]@[k as int] == y);
                        }
                    }
                }
                k = k + 1;
            }
            proof {
                assert forall|x: usize| #[trigger]
                    adj@[r as int]@.contains(x) && (x as int) != r as int implies row@.contains(
                    x,
                ) by {
                    let t = choose|t: int| 0 <= t < m && adj@[r as int]@[t] == x;
                    assert(0 <= t < m && adj@[r as int]@[t] == x);
                }
            }
            let mut u: usize = 0;
            while u < n
                invariant
                    r < n,
                    u <= n,
                    n == adj@.len(),
                    strictly_inc(row@),
                    forall|x: usize|
                        (#[trigger] row@.contains(x)) <==> ((x as int) != r as int && (
                        adj@[r as int]@.contains(x) || ((x as int) < u as int
                            && adj@[x as int]@.contains(r)))),
                decreases n - u,
            {
                if vec_contains(&adj[u], r) {
                    insert_sorted_unique(&mut row, u, Some(r));
                }
                u = u + 1;
            }
            out.push(row);
            r = r + 1;
        }
        proof {
            let a = rows_view(adj@);
            let b = rows_view(out@);
            assert(b.len() == a.len());
            assert forall|u: int| 0 <= u < b.len() implies strictly_inc(#[trigger] b[u]) by {
                assert(b[u] == out@[u]@);
            }
            assert forall|u: int, x: usize| 0 <= u < b.len() implies ((#[trigger] b[u].contains(x))
                <==> ((x as int) != u && (a[u].contains(x) || ((x as int) < a.len()
                && a[x as int].contains(u as usize))))) by {
                assert(b[u] == out@[u]@);
                assert(a[u] == adj@[u]@);
                if 0 <= (x as int) < a.len() {
                    assert(a[x as int] == adj@[x as int]@);
                }
            }
        }
        out
    }
}

/// Law: symmetrize-and-dedup changes nothing on input that is already in
/// canonical symmetric form, that is, in range, sorted, loop free and
/// symmetric.
pub proof fn lemma_sym_closure_fixed_point(a: Seq<Seq<usize>>, b: Seq<Seq<usize>>)
    requires
        graph_valid(a),
        forall|u: int| 0 <= u < a.len() ==> strictly_inc(#[trigger] a[u]),
        forall|u: int| 0 <= u < a.len() ==> !(#[trigger] a[u]).contains(u as usize),
        forall|u: int, x: usize|
            0 <= u < a.len() && 0 <= (x as int) < a.len() ==> ((#[trigger] a[u].contains(x))
                <==> a[x as int].contains(u as usize)),
        is_sym_closure(a, b),
    ensures
        b == a,
{
    assert forall|u: int| 0 <= u < a.len() implies b[u] == a[u] by {
        assert forall|x: usize| a[u].contains(x) implies b[u].contains(x) by {
            let k = choose|k: int| 0 <= k < a[u].len() && a[u][k] == x;
            assert((a[u][k] as int) < a.len());
            assert((x as int) != u);
        }
        assert forall|x: usize| b[u].contains(x) implies a[u].contains(x) by {
            if (x as int) < a.len() && a[x as int].contains(u as usize) {
                assert(a[u].contains(x));
            }
        }
        lemma_strictly_inc_same_elems(b[u], a[u]);
    }
    assert(b =~= a);
}

/// Law: symmetrize-and-dedup is an involution; a second application
/// returns the first application's output unchanged.
pub proof fn lemma_sym_closure_involutive(a: Seq<Seq<usize>>, b: Seq<Seq<usize>>, c: Seq<Seq<usize>>)
    requires
        a.len() <= usize::MAX,
        is_sym_closure(a, b),
        is_sym_closure(b, c),
    ensures
        c == b,
{
    assert forall|r: int| 0 <= r < b.len() implies c[r] == b[r] by {
        assert((r as usize) as int == r);
        assert forall|x: usize| b[r].contains(x) implies c[r].contains(x) by {
            assert((x as int) != r);
        }
        assert forall|x: usize| c[r].contains(x) implies b[r].contains(x) by {
            if (x as int) < b.len() && b[x as int].contains(r as usize) {
                assert(a[x as int].contains(r as usize) || (r < a.len() && a[r].contains(x)));
                assert(b[r].contains(x));
            }
        }
        lemma_strictly_inc_same_elems(c[r], b[r]);
    }
    assert(c =~= b);
}

} // verus!
