//! Graph builders over pre-queried neighbor rows. A row `knn[i]` lists
//! `(index, key)` pairs offered for vertex `i`; keys are squared-distance
//! order keys, so a radius bound on keys is a radius bound on distances.

use vstd::prelude::*;
use crate::graph::Graph;
use crate::graph::graph_valid;
use crate::graph::insert_sorted_unique;
use crate::graph::is_sym_closure;
use crate::graph::rows_view;
use crate::seqs::strictly_inc;
use crate::tomato::TomatoError;

verus! {

/// Is the key within the optional radius bound?
pub open spec fn within(d: u64, limit: Option<u64>) -> bool {
    match limit {
        Option::None => true,
        Option::Some(l) => d <= l,
    }
}

/// Does the row offer neighbor `x` within `limit`?
pub open spec fn sel_within(row: Seq<(usize, u64)>, x: usize, limit: Option<u64>) -> bool {
    exists|t: int| 0 <= t < row.len() && (#[trigger] row[t]).0 == x && within(row[t].1, limit)
}

/// The edges a built graph holds. Without symmetrization each row holds
/// exactly the neighbors its input row offers within the bound, sorted
/// and duplicate free; with symmetrization, the loop free symmetric
/// closure of those.
pub open spec fn built_edges(
    knn: Seq<Vec<(usize, u64)>>,
    limit: Option<u64>,
    symmetrize: bool,
    g: Seq<Seq<usize>>,
) -> bool {
    &&& g.len() == knn.len()
    &&& forall|u: int| 0 <= u < g.len() ==> strictly_inc(#[trigger] g[u])
    &&& (if symmetrize {
        forall|u: int, x: usize|
            0 <= u < g.len() ==> ((#[trigger] g[u].contains(x)) <==> ((x as int) != u && (
            sel_within(knn[u]@, x, limit) || ((x as int) < knn.len() && sel_within(
                knn[x as int]@,
                u as usize,
                limit,
            )))))
    } else {
        forall|u: int, x: usize|
            0 <= u < g.len() ==> ((#[trigger] g[u].contains(x)) <==> sel_within(
                knn[u]@,
                x,
                limit,
            ))
    })
}

/// Building succeeds exactly when every offered neighbor index within the
/// bound lies below the vertex count.
pub open spec fn offers_in_range(knn: Seq<Vec<(usize, u64)>>, limit: Option<u64>) -> bool {
    forall|u: int, x: usize|
        0 <= u < knn.len() && #[trigger] sel_within(knn[u]@, x, limit) ==> (x as int) < knn.len()
}

/// Shared builder: collect each row's offers within the bound, close
/// symmetrically on request, and validate the result.
fn build_rows(knn: &Vec<Vec<(usize, u64)>>, limit: Option<u64>, symmetrize: bool) -> (r: Result<
    Graph,
    TomatoError,
>)
    ensures
        r is Ok <==> offers_in_range(knn@, limit),
        match r {
            Ok(g) => built_edges(knn@, limit, symmetrize, g@) && graph_valid(g@),
            Err(e) => e is InvalidGraph,
        },
{
    let n = knn.len();
    let mut adj: Vec<Vec<usize>> = Vec::new();
    let mut i: usize = 0;
    while i < n
        invariant
            n == knn@.len(),
            i <= n,
            adj@.len() == i,
            forall|u: int| 0 <= u < i ==> strictly_inc(#[trigger] adj@[u]@),
            forall|u: int, x: usize|
                0 <= u < i ==> ((#[trigger] adj@[u]@.contains(x)) <==> sel_within(
                    knn@[u]@,
                    x,
                    limit,
                )),
        decreases n - i,
    {
        let mut row: Vec<usize> = Vec::new();
        let m = knn[i].len();
        let mut t: usize = 0;
        while t < m
            invariant
                i < n,
                n == knn@.len(),
                t <= m,
                m == knn@[i as int]@.len(),
                strictly_inc(row@),
                forall|x: usize|
                    (#[trigger] row@.contains(x)) <==> exists|s: int|
                        0 <= s < t && (#[trigger] knn@[i as int]@[s]).0 == x && within(
                            knn@[i as int]@[s].1,
                            limit,
                        ),
            decreases m - t,
        {
            let pair = knn[i][t];
            let keep = match limit {
                Some(l) => pair.1 <= l,
                None => true,
            };
            if keep {
                insert_sorted_unique(&mut row, pair.0, None);
                proof {
                    assert forall|x: usize| (#[trigger] row@.contains(x)) implies exists|s: int|
                        0 <= s < t + 1 && (#[trigger] knn@[i as int]@[s]).0 == x && within(
                            knn@[i as int]@[s].1,
                            limit,
                        ) by {
                        if x == pair.0 {
                            assert((knn@[i as int]@[t as int]).0 == x && within(
                                knn@[i as int]@[t as int].1,
                                limit,
                            ));
                        }
                    }
                }
            }
            t = t + 1;
        }
        adj.push(row);
        i = i + 1;
    }
    let ghost a0 = rows_view(adj@);
    proof {
        assert forall|u: int, x: usize| 0 <= u < n implies ((#[trigger] a0[u].contains(x)) <==> sel_within(
            knn@[u]@,
            x,
            limit,
        )) by {
            assert(a0[u] == adj@[u]@);
        }
        assert forall|u: int| 0 <= u < n implies strictly_inc(#[trigger] a0[u]) by {
            assert(a0[u] == adj@[u]@);
        }
    }
    let adj2 = if symmetrize {
        Graph::symmetrize_and_dedup(adj)
    } else {
        adj
    };
    let ghost a1 = rows_view(adj2@);
    proof {
        if symmetrize {
            assert(is_sym_closure(a0, a1));
        } else {
            assert(a1 == a0);
        }
        // membership of the candidate rows in terms of the offers
        assert forall|u: int, x: usize| 0 <= u < n implies ((#[trigger] a1[u].contains(x)) <==> (
        if symmetrize {
            (x as int) != u && (sel_within(knn@[u]@, x, limit) || ((x as int) < n && sel_within(
                knn@[x as int]@,
                u as usize,
                limit,
            )))
        } else {
            sel_within(knn@[u]@, x, limit)
        })) by {
            if symmetrize {
                assert(a1[u].contains(x) <==> ((x as int) != u && (a0[u].contains(x) || ((
                x as int) < a0.len() && a0[x as int].contains(u as usize)))));
            }
        }
        // success condition: in-range offers and in-range candidate rows agree
        assert(graph_valid(a1) <==> offers_in_range(knn@, limit)) by {
            if graph_valid(a1) {
                assert forall|u: int, x: usize|
                    0 <= u < n && #[trigger] sel_within(knn@[u]@, x, limit) implies (x as int)
                    < n by {
                    if (x as int) >= n {
                        assert((x as int) != u);
                        assert(a1[u].contains(x));
                        let kx = choose|kx: int| 0 <= kx < a1[u].len() && a1[u][kx] == x;
                        assert((a1[u][kx] as int) < n);
                    }
                }
            }
            if offers_in_range(knn@, limit) {
                assert forall|u: int, kx: int|
                    0 <= u < a1.len() && 0 <= kx < a1[u].len() implies (#[trigger] a1[u][kx] as int)
                    < a1.len() by {
                    let x = a1[u][kx];
                    assert(a1[u].contains(x));
                }
            }
        }
    }
    let r = Graph::new(adj2);
    proof {
        match &r {
            Ok(g) => {
                assert(g@ == a1);
            },
            Err(e) => {},
        }
    }
    r
}

/// k-NN graph: each vertex keeps the neighbor indices its row offers,
/// sorted and duplicate free; on request, the symmetric closure of those.
pub fn knn_graph(knn: &Vec<Vec<(usize, u64)>>, symmetrize: bool) -> (r: Result<
    Graph,
    TomatoError,
>)
    ensures
        r is Ok <==> offers_in_range(knn@, Option::None),
        match r {
            Ok(g) => built_edges(knn@, Option::None, symmetrize, g@) && graph_valid(g@),
            Err(e) => e is InvalidGraph,
        },
{
    build_rows(knn, None, symmetrize)
}

/// Rips graph over full neighbor rows: keep offers whose key is within
/// the radius key, and always take the symmetric closure.
pub fn rips_graph_brute(knn: &Vec<Vec<(usize, u64)>>, radius2: u64) -> (r: Result<
    Graph,
    TomatoError,
>)
    ensures
        r is Ok <==> offers_in_range(knn@, Option::Some(radius2)),
        match r {
            Ok(g) => built_edges(knn@, Option::Some(radius2), true, g@) && graph_valid(g@),
            Err(e) => e is InvalidGraph,
        },
{
    build_rows(knn, Some(radius2), true)
}

/// Rips graph over a k-NN prefilter: keep offers within the radius key;
/// edges beyond the offered neighbors are never considered, trading
/// recall for speed.
pub fn rips_graph_from_knn(knn: &Vec<Vec<(usize, u64)>>, radius2: u64, symmetrize: bool) -> (r:
    Result<Graph, TomatoError>)
    ensures
        r is Ok <==> offers_in_range(knn@, Option::Some(radius2)),
        match r {
            Ok(g) => built_edges(knn@, Option::Some(radius2), symmetrize, g@) && graph_valid(g@),
            Err(e) => e is InvalidGraph,
        },
{
    build_rows(knn, Some(radius2), symmetrize)
}

} // verus!
