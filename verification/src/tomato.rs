//! The persistence-driven merge: sweep vertices by decreasing density,
//! grow clusters around density modes, and absorb a cluster into a denser
//! neighbor exactly when its mode's lifetime stays below the threshold.

use vstd::prelude::*;
use crate::graph::Graph;
use crate::graph::graph_valid;
use crate::order::higher;
use crate::order::sort_desc_by_density;
use crate::order::spec_higher;
use crate::order::spec_higher_eq;
use crate::order::vertices_desc_by_density;
use crate::seqs::vec_contains;
use crate::sweep::ints_of;
use crate::sweep::is_sweep_order;
use crate::sweep::lemma_desc_sorted_same_elems;
use crate::sweep::lemma_sweep_order_unique;
use crate::sweep::lemma_zero_tau_never_merges;
use crate::sweep::lemma_ints_of_contains;
use crate::sweep::lemma_st_activate_matches;
use crate::sweep::lemma_st_of_init;
use crate::sweep::lemma_st_of_view_eq;
use crate::sweep::lemma_st_protect_matches;
use crate::sweep::lemma_st_union_matches;
use crate::sweep::st_after;
use crate::sweep::st_activate;
use crate::sweep::st_collect;
use crate::sweep::st_merge;
use crate::sweep::st_of;
use crate::sweep::st_protect;
use crate::sweep::st_select;
use crate::sweep::st_step;
use crate::sweep::st_union;
use crate::sweep::sweep_label;
use crate::uf::UfTomato;

verus! {

/// Validation failures surfaced at entry to the clustering operations.
#[derive(Debug, Clone, PartialEq, Eq)]
pub enum TomatoError {
    /// A density value at this index could not be carried on the integer
    /// density scale.
    NonFiniteDensity(usize),
    /// The persistence threshold is negative.
    InvalidTau,
    /// The density vector's length differs from the graph's vertex count.
    DensityLengthMismatch,
    /// An adjacency list is malformed, with the reason.
    InvalidGraph(String),
}

/// The persistence threshold, on the same integer scale as the densities.
#[derive(Debug, Clone)]
pub struct TomatoParams {
    pub tau: i64,
}

/// The outcome of a sweep: a cluster label per vertex and the labels
/// themselves, densest first.
#[derive(Debug, Clone)]
pub struct TomatoResult {
    pub cluster_of: Vec<usize>,
    pub modes: Vec<usize>,
}

/// What every label vector of a finished sweep satisfies: labels are
/// vertices, a label is at least as high in the sweep order as every
/// vertex it labels, and labels label themselves.
pub open spec fn clusters_wf(dens: Seq<i64>, cl: Seq<usize>) -> bool {
    &&& forall|v: int| 0 <= v < cl.len() ==> (#[trigger] cl[v] as int) < cl.len()
    &&& forall|v: int| 0 <= v < cl.len() ==> spec_higher_eq(dens, #[trigger] cl[v] as int, v)
    &&& forall|v: int| 0 <= v < cl.len() ==> cl[#[trigger] cl[v] as int] == cl[v]
}

/// The mode list holds exactly the distinct labels, densest first.
pub open spec fn modes_wf(dens: Seq<i64>, cl: Seq<usize>, modes: Seq<usize>) -> bool {
    &&& forall|j: int| 0 <= j < modes.len() ==> cl.contains(#[trigger] modes[j])
    &&& forall|v: int| 0 <= v < cl.len() ==> modes.contains(#[trigger] cl[v])
    &&& forall|i: int, j: int|
        0 <= i < j < modes.len() ==> spec_higher(dens, modes[i] as int, modes[j] as int)
}

/// Law: every mode labels itself.
pub proof fn lemma_modes_self_assigned(dens: Seq<i64>, cl: Seq<usize>, modes: Seq<usize>)
    requires
        clusters_wf(dens, cl),
        modes_wf(dens, cl, modes),
    ensures
        forall|j: int| 0 <= j < modes.len() ==> cl[#[trigger] modes[j] as int] == modes[j],
{
    assert forall|j: int|
        0 <= j < modes.len() implies cl[#[trigger] modes[j] as int] == modes[j] by {
        assert(cl.contains(modes[j]));
        let v = choose|v: int| 0 <= v < cl.len() && cl[v] == modes[j];
        assert(cl[cl[v] as int] == cl[v]);
    }
}

/// Law: a cluster's label is at least as dense as each of its members.
pub proof fn lemma_label_at_least_as_dense(dens: Seq<i64>, cl: Seq<usize>, v: int)
    requires
        clusters_wf(dens, cl),
        cl.len() == dens.len(),
        0 <= v < cl.len(),
    ensures
        dens[cl[v] as int] >= dens[v],
{
    assert(spec_higher_eq(dens, cl[v] as int, v));
}

/// Law: the sweep is deterministic. Two results that both meet the
/// merge's contract on the same graph, densities and threshold carry the
/// same labels and the same mode list.
pub proof fn lemma_tomato_deterministic(
    graph: Seq<Seq<usize>>,
    dens: Seq<i64>,
    tau: int,
    cl1: Seq<usize>,
    modes1: Seq<usize>,
    cl2: Seq<usize>,
    modes2: Seq<usize>,
)
    requires
        cl1.len() == dens.len(),
        cl2.len() == dens.len(),
        clusters_wf(dens, cl1),
        clusters_wf(dens, cl2),
        modes_wf(dens, cl1, modes1),
        modes_wf(dens, cl2, modes2),
        exists|o: Seq<usize>|
            #[trigger] is_sweep_order(dens, o) && (forall|v: int|
                0 <= v < dens.len() ==> (#[trigger] cl1[v]) as int == sweep_label(
                    graph,
                    dens,
                    tau,
                    o,
                    v,
                )),
        exists|o: Seq<usize>|
            #[trigger] is_sweep_order(dens, o) && (forall|v: int|
                0 <= v < dens.len() ==> (#[trigger] cl2[v]) as int == sweep_label(
                    graph,
                    dens,
                    tau,
                    o,
                    v,
                )),
    ensures
        cl1 == cl2,
        modes1 == modes2,
{
    let o1 = choose|o: Seq<usize>|
        #[trigger] is_sweep_order(dens, o) && (forall|v: int|
            0 <= v < dens.len() ==> (#[trigger] cl1[v]) as int == sweep_label(
                graph,
                dens,
                tau,
                o,
                v,
            ));
    let o2 = choose|o: Seq<usize>|
        #[trigger] is_sweep_order(dens, o) && (forall|v: int|
            0 <= v < dens.len() ==> (#[trigger] cl2[v]) as int == sweep_label(
                graph,
                dens,
                tau,
                o,
                v,
            ));
    lemma_sweep_order_unique(dens, o1, o2);
    assert forall|v: int| 0 <= v < cl1.len() implies cl1[v] == cl2[v] by {
        assert(cl1[v] as int == sweep_label(graph, dens, tau, o1, v));
        assert(cl2[v] as int == sweep_label(graph, dens, tau, o2, v));
    }
    assert(cl1 =~= cl2);
    assert forall|e: usize| modes1.contains(e) implies modes2.contains(e) by {
        let j = choose|j: int| 0 <= j < modes1.len() && modes1[j] == e;
        assert(cl1.contains(e));
        let v = choose|v: int| 0 <= v < cl1.len() && cl1[v] == e;
        assert(cl2[v] == e);
        assert(modes2.contains(cl2[v]));
    }
    assert forall|e: usize| modes2.contains(e) implies modes1.contains(e) by {
        let j = choose|j: int| 0 <= j < modes2.len() && modes2[j] == e;
        assert(cl2.contains(e));
        let v = choose|v: int| 0 <= v < cl2.len() && cl2[v] == e;
        assert(cl1[v] == e);
        assert(modes1.contains(cl1[v]));
    }
    assert forall|j: int| 0 <= j < modes1.len() implies (#[trigger] modes1[j] as int)
        < dens.len() by {
        assert(cl1.contains(modes1[j]));
        let v = choose|v: int| 0 <= v < cl1.len() && cl1[v] == modes1[j];
        assert((cl1[v] as int) < cl1.len());
    }
    assert forall|j: int| 0 <= j < modes2.len() implies (#[trigger] modes2[j] as int)
        < dens.len() by {
        assert(cl2.contains(modes2[j]));
        let v = choose|v: int| 0 <= v < cl2.len() && cl2[v] == modes2[j];
        assert((cl2[v] as int) < cl2.len());
    }
    lemma_desc_sorted_same_elems(dens, modes1, modes2);
}

/// Law: at threshold zero the merge hands back the identity labeling;
/// a lifetime of exactly zero is never strictly below the threshold, so
/// nothing is ever absorbed.
pub proof fn lemma_zero_tau_labels_identity(graph: Seq<Seq<usize>>, dens: Seq<i64>, cl: Seq<usize>)
    requires
        graph_valid(graph),
        graph.len() == dens.len(),
        cl.len() == dens.len(),
        exists|o: Seq<usize>|
            #[trigger] is_sweep_order(dens, o) && (forall|v: int|
                0 <= v < dens.len() ==> (#[trigger] cl[v]) as int == sweep_label(
                    graph,
                    dens,
                    0,
                    o,
                    v,
                )),
    ensures
        forall|v: int| 0 <= v < cl.len() ==> (#[trigger] cl[v]) as int == v,
{
    let o = choose|o: Seq<usize>|
        #[trigger] is_sweep_order(dens, o) && (forall|v: int|
            0 <= v < dens.len() ==> (#[trigger] cl[v]) as int == sweep_label(graph, dens, 0, o, v));
    assert forall|v: int| 0 <= v < cl.len() implies (#[trigger] cl[v]) as int == v by {
        lemma_zero_tau_never_merges(graph, dens, 0, o, v);
    }
}

/// What holds of the union-find throughout the sweep: inactive vertices
/// are isolated singletons, every active vertex's root is active, and the
/// mode stored at that root is an active member of the same set that is
/// at least as high in the sweep order as the vertex itself.
pub open spec fn sweep_inv(uf: UfTomato, dens: Seq<i64>) -> bool {
    &&& uf.wf()
    &&& uf.n() == dens.len()
    &&& forall|x: int| 0 <= x < uf.n() ==> 0 <= #[trigger] uf.rep_of(x) < uf.n()
    &&& forall|x: int| 0 <= x < uf.n() ==> 0 <= #[trigger] uf.mode_at(x) < uf.n()
    &&& forall|x: int| 0 <= x < uf.n() && !(#[trigger] uf.active_at(x)) ==> uf.rep_of(x) == x
    &&& forall|x: int|
        0 <= x < uf.n() && (#[trigger] uf.active_at(x)) ==> uf.active_at(uf.rep_of(x))
    &&& forall|x: int|
        0 <= x < uf.n() && (#[trigger] uf.active_at(x)) ==> uf.active_at(
            uf.mode_at(uf.rep_of(x)),
        )
    &&& forall|x: int|
        0 <= x < uf.n() && (#[trigger] uf.active_at(x)) ==> uf.rep_of(uf.mode_at(uf.rep_of(x)))
            == uf.rep_of(x)
    &&& forall|x: int|
        0 <= x < uf.n() && (#[trigger] uf.active_at(x)) ==> spec_higher_eq(
            dens,
            uf.mode_at(uf.rep_of(x)),
            x,
        )
}

/// The sweep invariant only reads the union-find through its view, so it
/// carries over to any state with the same view, such as the state after
/// a path-halving find.
pub proof fn lemma_sweep_inv_stable(a: UfTomato, b: UfTomato, dens: Seq<i64>)
    requires
        sweep_inv(a, dens),
        b.wf(),
        b.n() == a.n(),
        forall|x: int| 0 <= x < a.n() ==> #[trigger] b.rep_of(x) == a.rep_of(x),
        forall|x: int| 0 <= x < a.n() ==> #[trigger] b.active_at(x) == a.active_at(x),
        forall|x: int| 0 <= x < a.n() ==> #[trigger] b.mode_at(x) == a.mode_at(x),
    ensures
        sweep_inv(b, dens),
{
    assert forall|x: int| 0 <= x < b.n() implies 0 <= #[trigger] b.rep_of(x) < b.n() by {
        assert(a.rep_of(x) == b.rep_of(x));
    }
    assert forall|x: int|
        0 <= x < b.n() && (#[trigger] b.active_at(x)) implies b.active_at(b.rep_of(x))
        && b.active_at(b.mode_at(b.rep_of(x))) && b.rep_of(b.mode_at(b.rep_of(x))) == b.rep_of(x)
        && spec_higher_eq(dens, b.mode_at(b.rep_of(x)), x) by {
        assert(a.active_at(x));
        assert(0 <= a.rep_of(x) < a.n());
        assert(0 <= a.mode_at(a.rep_of(x)) < a.n());
    }
}

/// The ToMATo sweep. Vertices are visited densest first; each vertex is
/// activated and the distinct roots of its active neighborhood are
/// gathered; all of them but the one with the highest mode are either
/// absorbed into it (when the mode's lifetime `f[m] - f[v]` lies strictly
/// below `tau`) or protected forever. Labels are the modes of the final
/// sets, and `modes` lists the distinct labels densest first.
#[verifier::rlimit(100)]
pub fn tomato_cluster(graph: &Graph, density: &Vec<i64>, params: TomatoParams) -> (r: Result<
    TomatoResult,
    TomatoError,
>)
    requires
        graph_valid(graph@),
    ensures
        match r {
            Ok(res) => {
                &&& density@.len() == graph@.len()
                &&& params.tau >= 0
                &&& res.cluster_of@.len() == graph@.len()
                &&& clusters_wf(density@, res.cluster_of@)
                &&& modes_wf(density@, res.cluster_of@, res.modes@)
                &&& exists|o: Seq<usize>|
                    #[trigger] is_sweep_order(density@, o) && (forall|v: int|
                        0 <= v < graph@.len() ==> (#[trigger] res.cluster_of@[v]) as int
                            == sweep_label(graph@, density@, params.tau as int, o, v))
            },
            Err(e) => {
                &&& (e is DensityLengthMismatch <==> density@.len() != graph@.len())
                &&& (e is InvalidTau <==> (density@.len() == graph@.len() && params.tau < 0))
                &&& (e is DensityLengthMismatch || e is InvalidTau)
            },
        },
{
    let n = graph.n();
    if density.len() != n {
        return Err(TomatoError::DensityLengthMismatch);
    }
    if params.tau < 0 {
        return Err(TomatoError::InvalidTau);
    }
    let tau = params.tau;
    let ord = vertices_desc_by_density(density);
    let mut uf = UfTomato::new(n);
    proof {
        lemma_st_of_init(uf);
        assert(st_of(uf) == st_after(graph@, density@, tau as int, ord@, 0));
        assert(is_sweep_order(density@, ord@));
    }
    let mut uniq_roots: Vec<usize> = Vec::new();

    let mut idx: usize = 0;
    while idx < n
        invariant
            n == graph@.len(),
            graph_valid(graph@),
            density@.len() == n,
            idx <= n,
            ord@.len() == n,
            forall|i: int| 0 <= i < n ==> (#[trigger] ord@[i] as int) < n,
            ord@.no_duplicates(),
            forall|w: usize| (w as int) < n ==> ord@.contains(w),
            uf.n() == n,
            sweep_inv(uf, density@),
            forall|x: int|
                0 <= x < n ==> ((#[trigger] uf.active_at(x)) <==> exists|j: int|
                    0 <= j < idx && ord@[j] == x),
            st_of(uf) == st_after(graph@, density@, tau as int, ord@, idx as int),
        decreases n - idx,
    {
        let v = ord[idx];
        proof {
            assert(!uf.active_at(v as int)) by {
                if uf.active_at(v as int) {
                    let j = choose|j: int| 0 <= j < idx && ord@[j] == v as int;
                    assert(ord@[j] == ord@[idx as int]);
                }
            }
            assert(uf.rep_of(v as int) == v as int);
            assert forall|w: int|
                0 <= w < n && w != v as int implies #[trigger] uf.rep_of(w) != v as int by {
                if uf.rep_of(w) == v as int {
                    if uf.active_at(w) {
                        assert(uf.active_at(uf.rep_of(w)));
                    } else {
                        assert(uf.rep_of(w) == w);
                    }
                }
            }
        }
        let ghost s_base = st_after(graph@, density@, tau as int, ord@, idx as int);
        let ghost uf_a = uf;
        uf.activate(v);
        proof {
            lemma_st_activate_matches(uf_a, uf, v as int);
            assert(sweep_inv(uf, density@)) by {
                assert forall|x: int|
                    0 <= x < uf.n() && (#[trigger] uf.active_at(x)) implies uf.active_at(
                    uf.rep_of(x),
                ) && uf.active_at(uf.mode_at(uf.rep_of(x))) && uf.rep_of(uf.mode_at(uf.rep_of(x)))
                    == uf.rep_of(x) && spec_higher_eq(density@, uf.mode_at(uf.rep_of(x)), x) by {
                    if x != v as int {
                        assert(uf.rep_of(x) != v as int);
                        assert(uf.mode_at(uf.rep_of(x)) != v as int);
                    }
                }
            }
            assert forall|x: int|
                0 <= x < n implies ((#[trigger] uf.active_at(x)) <==> exists|j: int|
                0 <= j < idx + 1 && ord@[j] == x) by {
                if uf.active_at(x) {
                    if x == v as int {
                        assert(ord@[idx as int] == x);
                    }
                }
            }
        }
        let ghost s1 = st_of(uf);
        proof {
            assert(s1 == st_activate(s_base, v as int));
        }
        uniq_roots.clear();
        let ghost pre_find = uf;
        let rv = uf.find(v);
        proof {
            lemma_sweep_inv_stable(pre_find, uf, density@);
            lemma_st_of_view_eq(pre_find, uf);
        }
        uniq_roots.push(rv);
        let ghost row = graph@[v as int];
        let ghost full_list = st_collect(s1, row, 0, seq![s1.rep[v as int]]);
        proof {
            assert(s1.rep[v as int] == pre_find.rep_of(v as int));
            assert(ints_of(uniq_roots@) =~= seq![s1.rep[v as int]]) by {
                assert(ints_of(uniq_roots@)[0] == rv as int);
            }
        }
        let nbrs = graph.neighbors(v);
        let deg = nbrs.len();
        let mut k: usize = 0;
        while k < deg
            invariant
                n == graph@.len(),
                graph_valid(graph@),
                density@.len() == n,
                idx < n,
                (v as int) < n,
                ord@.len() == n,
                deg == graph@[v as int].len(),
                nbrs@ == graph@[v as int],
                k <= deg,
                uf.n() == n,
                sweep_inv(uf, density@),
                forall|x: int|
                    0 <= x < n ==> ((#[trigger] uf.active_at(x)) <==> exists|j: int|
                        0 <= j < idx + 1 && ord@[j] == x),
                uniq_roots@.len() >= 1,
                uniq_roots@.no_duplicates(),
                forall|t: int|
                    0 <= t < uniq_roots@.len() ==> (#[trigger] uniq_roots@[t] as int) < n
                        && uf.is_root(uniq_roots@[t] as int) && uf.active_at(
                        uniq_roots@[t] as int,
                    ),
                st_of(uf) == s1,
                row == graph@[v as int],
                st_collect(s1, row, k as int, ints_of(uniq_roots@)) == full_list,
            decreases deg - k,
        {
            let u = nbrs[k];
            proof {
                assert(graph@[v as int][k as int] == u);
                assert((u as int) < n);
            }
            proof {
                assert(row[k as int] == u);
                assert(s1.active[u as int] == uf.active_at(u as int));
            }
            if uf.is_active(u) {
                let ghost pre = uf;
                let ru = uf.find(u);
                proof {
                    lemma_sweep_inv_stable(pre, uf, density@);
                    lemma_st_of_view_eq(pre, uf);
                    assert(uf.active_at(ru as int)) by {
                        assert(uf.active_at(uf.rep_of(u as int)));
                    }
                    assert(s1.rep[u as int] == ru as int);
                    lemma_ints_of_contains(uniq_roots@, ru);
                }
                if !vec_contains(&uniq_roots, ru) {
                    let ghost old_uniq = uniq_roots@;
                    uniq_roots.push(ru);
                    proof {
                        assert(uniq_roots@.no_duplicates()) by {
                            assert(!uniq_roots@.subrange(
                                0,
                                uniq_roots@.len() - 1,
                            ).contains(ru));
                            assert forall|p: int, q: int|
                                0 <= p < uniq_roots@.len() && 0 <= q < uniq_roots@.len() && p
                                    != q implies uniq_roots@[p] != uniq_roots@[q] by {
                                let m = uniq_roots@.len() - 1;
                                if p == m || q == m {
                                    let s = if p == m {
                                        q
                                    } else {
                                        p
                                    };
                                    if uniq_roots@[s] == ru {
                                        assert(uniq_roots@.subrange(0, m)[s] == ru);
                                    }
                                }
                            }
                        }
                        assert(!ints_of(old_uniq).contains(s1.rep[u as int]));
                        assert(ints_of(uniq_roots@) =~= ints_of(old_uniq).push(ru as int)) by {
                            assert forall|p: int|
                                0 <= p < uniq_roots@.len() implies ints_of(uniq_roots@)[p]
                                == ints_of(old_uniq).push(ru as int)[p] by {
                                if p < old_uniq.len() {
                                    assert(uniq_roots@[p] == old_uniq[p]);
                                }
                            }
                        }
                        assert(st_collect(s1, row, k as int, ints_of(old_uniq)) == st_collect(
                            s1,
                            row,
                            k + 1 as int,
                            ints_of(uniq_roots@),
                        ));
                    }
                } else {
                    proof {
                        assert(ints_of(uniq_roots@).contains(s1.rep[u as int]));
                        assert(st_collect(s1, row, k as int, ints_of(uniq_roots@)) == st_collect(
                            s1,
                            row,
                            k + 1 as int,
                            ints_of(uniq_roots@),
                        ));
                    }
                }
            } else {
                proof {
                    assert(!s1.active[u as int]);
                    assert(st_collect(s1, row, k as int, ints_of(uniq_roots@)) == st_collect(
                        s1,
                        row,
                        k + 1 as int,
                        ints_of(uniq_roots@),
                    ));
                }
            }
            k = k + 1;
        }
        if uniq_roots.len() > 1 {
            let ghost list2 = ints_of(uniq_roots@);
            let ghost wr_full = st_select(density@, s1, list2, 1, list2[0], s1.mode[list2[0]]);
            proof {
                assert(list2 == full_list);
            }
            let mut winner_root = uniq_roots[0];
            let mut winner_mode = uf.mode_of_root(winner_root);
            proof {
                assert(list2[0] == winner_root as int);
                assert(winner_mode as int == s1.mode[list2[0]]);
            }
            let mut t: usize = 1;
            while t < uniq_roots.len()
                invariant
                    n == graph@.len(),
                    density@.len() == n,
                    uf.n() == n,
                    sweep_inv(uf, density@),
                    1 <= t <= uniq_roots@.len(),
                    forall|s: int|
                        0 <= s < uniq_roots@.len() ==> (#[trigger] uniq_roots@[s] as int) < n
                            && uf.is_root(uniq_roots@[s] as int) && uf.active_at(
                            uniq_roots@[s] as int,
                        ),
                    (winner_root as int) < n,
                    uf.is_root(winner_root as int),
                    uf.active_at(winner_root as int),
                    uniq_roots@.contains(winner_root),
                    winner_mode as int == uf.mode_at(winner_root as int),
                    forall|s: int|
                        0 <= s < t ==> spec_higher_eq(
                            density@,
                            winner_mode as int,
                            uf.mode_at(#[trigger] uniq_roots@[s] as int),
                        ),
                    st_of(uf) == s1,
                    list2 == ints_of(uniq_roots@),
                    st_select(density@, s1, list2, t as int, winner_root as int, winner_mode as int)
                        == wr_full,
                decreases uniq_roots@.len() - t,
            {
                let rq = uniq_roots[t];
                let m = uf.mode_of_root(rq);
                proof {
                    assert(list2[t as int] == rq as int);
                    assert(s1.mode[rq as int] == uf.mode_at(rq as int));
                    assert(st_select(
                        density@,
                        s1,
                        list2,
                        t as int,
                        winner_root as int,
                        winner_mode as int,
                    ) == (if spec_higher(density@, m as int, winner_mode as int) {
                        st_select(density@, s1, list2, t + 1 as int, rq as int, m as int)
                    } else {
                        st_select(
                            density@,
                            s1,
                            list2,
                            t + 1 as int,
                            winner_root as int,
                            winner_mode as int,
                        )
                    }));
                }
                if higher(density, m, winner_mode) {
                    proof {
                        assert forall|s: int|
                            0 <= s < t + 1 implies spec_higher_eq(
                            density@,
                            m as int,
                            uf.mode_at(#[trigger] uniq_roots@[s] as int),
                        ) by {
                            if s < t {
                                assert(spec_higher_eq(
                                    density@,
                                    winner_mode as int,
                                    uf.mode_at(uniq_roots@[s] as int),
                                ));
                            }
                        }
                    }
                    winner_root = rq;
                    winner_mode = m;
                }
                t = t + 1;
            }
            proof {
                assert(wr_full == winner_root as int);
            }
            let fv = density[v];
            let ghost pair_full = st_merge(density@, tau as int, v as int, s1, list2, 0, wr_full);
            let ghost mut s_cur = s1;
            let mut t2: usize = 0;
            while t2 < uniq_roots.len()
                invariant
                    n == graph@.len(),
                    density@.len() == n,
                    (v as int) < n,
                    uf.n() == n,
                    sweep_inv(uf, density@),
                    forall|x: int|
                        0 <= x < n ==> ((#[trigger] uf.active_at(x)) <==> exists|j: int|
                            0 <= j < idx + 1 && ord@[j] == x),
                    idx < n,
                    ord@.len() == n,
                    t2 <= uniq_roots@.len(),
                    forall|s: int|
                        0 <= s < uniq_roots@.len() ==> (#[trigger] uniq_roots@[s] as int) < n
                            && uf.active_at(uniq_roots@[s] as int),
                    (winner_root as int) < n,
                    uf.is_root(winner_root as int),
                    uf.active_at(winner_root as int),
                    winner_mode as int == uf.mode_at(winner_root as int),
                    forall|s: int|
                        0 <= s < uniq_roots@.len() ==> (#[trigger] uf.rep_of(
                            uniq_roots@[s] as int,
                        ) == winner_root as int || spec_higher_eq(
                            density@,
                            winner_mode as int,
                            uf.mode_at(uf.rep_of(uniq_roots@[s] as int)),
                        )),
                    fv == density@[v as int],
                    st_of(uf) == s_cur,
                    list2 == ints_of(uniq_roots@),
                    st_merge(density@, tau as int, v as int, s_cur, list2, t2 as int, winner_root as int)
                        == pair_full,
                decreases uniq_roots@.len() - t2,
            {
                let r0 = uniq_roots[t2];
                proof {
                    assert(list2[t2 as int] == r0 as int);
                }
                if r0 != winner_root {
                    let ghost pre1 = uf;
                    let r = uf.find(r0);
                    proof {
                        lemma_sweep_inv_stable(pre1, uf, density@);
                        lemma_st_of_view_eq(pre1, uf);
                    }
                    let ghost pre2 = uf;
                    let w = uf.find(winner_root);
                    proof {
                        lemma_sweep_inv_stable(pre2, uf, density@);
                        lemma_st_of_view_eq(pre2, uf);
                        assert(w == winner_root);
                        assert(r as int == uf.rep_of(r0 as int));
                        assert(uf.active_at(r as int)) by {
                            assert(uf.active_at(uf.rep_of(r0 as int)));
                        }
                        assert(s_cur.rep[r0 as int] == r as int);
                        assert(s_cur.rep[winner_root as int] == w as int);
                    }
                    if r == w {
                        proof {
                            assert(st_merge(
                                density@,
                                tau as int,
                                v as int,
                                s_cur,
                                list2,
                                t2 as int,
                                winner_root as int,
                            ) == st_merge(
                                density@,
                                tau as int,
                                v as int,
                                s_cur,
                                list2,
                                t2 + 1 as int,
                                w as int,
                            ));
                        }
                        winner_root = w;
                    } else if uf.is_protected_root(r) {
                        // a certified persistent mode stays untouched
                        proof {
                            assert(s_cur.prot[r as int]);
                            assert(st_merge(
                                density@,
                                tau as int,
                                v as int,
                                s_cur,
                                list2,
                                t2 as int,
                                winner_root as int,
                            ) == st_merge(
                                density@,
                                tau as int,
                                v as int,
                                s_cur,
                                list2,
                                t2 + 1 as int,
                                winner_root as int,
                            ));
                        }
                    } else {
                        let m = uf.mode_of_root(r);
                        proof {
                            assert(uf.rep_of(r0 as int) != winner_root as int);
                            assert(spec_higher_eq(density@, winner_mode as int, m as int));
                            assert(uf.rep_of(m as int) == r as int) by {
                                assert(uf.rep_of(uf.mode_at(uf.rep_of(r0 as int)))
                                    == uf.rep_of(r0 as int));
                            }
                            assert(uf.rep_of(winner_mode as int) == winner_root as int) by {
                                assert(uf.active_at(winner_root as int));
                                assert(uf.rep_of(uf.mode_at(uf.rep_of(winner_root as int)))
                                    == uf.rep_of(winner_root as int));
                            }
                            assert(winner_mode as int != m as int);
                            assert(spec_higher(density@, winner_mode as int, m as int));
                        }
                        proof {
                            assert(s_cur.mode[r as int] == m as int);
                            assert(!s_cur.prot[r as int]);
                        }
                        let merge = (density[m] as i128) - (fv as i128) < (tau as i128);
                        if merge {
                            let ghost pre3 = uf;
                            let w_after = uf.union_survivor(density, w, r);
                            winner_root = w_after;
                            proof {
                                assert(uf.is_root(winner_root as int));
                                assert(uf.mode_at(winner_root as int) == winner_mode as int);
                                lemma_st_union_matches(pre3, uf, w as int, r as int, w_after as int);
                                assert(st_of(uf) == st_union(s_cur, w as int, r as int).0);
                                assert(st_merge(
                                    density@,
                                    tau as int,
                                    v as int,
                                    s_cur,
                                    list2,
                                    t2 as int,
                                    w as int,
                                ) == st_merge(
                                    density@,
                                    tau as int,
                                    v as int,
                                    st_union(s_cur, w as int, r as int).0,
                                    list2,
                                    t2 + 1 as int,
                                    w_after as int,
                                ));
                                s_cur = st_union(s_cur, w as int, r as int).0;
                                assert(sweep_inv(uf, density@)) by {
                                    assert forall|x: int|
                                        0 <= x < uf.n() && (#[trigger] uf.active_at(
                                            x,
                                        )) implies uf.active_at(uf.rep_of(x)) && uf.active_at(
                                        uf.mode_at(uf.rep_of(x)),
                                    ) && uf.rep_of(uf.mode_at(uf.rep_of(x))) == uf.rep_of(x)
                                        && spec_higher_eq(
                                        density@,
                                        uf.mode_at(uf.rep_of(x)),
                                        x,
                                    ) by {
                                        let orx = pre3.rep_of(x);
                                        assert(pre3.active_at(x));
                                        if orx == w as int || orx == r as int {
                                            assert(uf.rep_of(x) == w_after as int);
                                            assert(uf.mode_at(w_after as int)
                                                == winner_mode as int);
                                            assert(pre3.rep_of(winner_mode as int) == w as int);
                                            assert(spec_higher_eq(
                                                density@,
                                                pre3.mode_at(orx),
                                                x,
                                            ));
                                        } else {
                                            assert(uf.rep_of(x) == orx);
                                            assert(uf.mode_at(orx) == pre3.mode_at(orx));
                                            assert(pre3.rep_of(pre3.mode_at(orx)) == orx);
                                        }
                                    }
                                    assert forall|x: int|
                                        0 <= x < uf.n() && !(#[trigger] uf.active_at(
                                            x,
                                        )) implies uf.rep_of(x) == x by {
                                        assert(!pre3.active_at(x));
                                        assert(pre3.rep_of(x) == x);
                                        assert(x != w as int && x != r as int);
                                    }
                                }
                                assert forall|s: int|
                                    0 <= s < uniq_roots@.len() implies (#[trigger] uf.rep_of(
                                    uniq_roots@[s] as int,
                                ) == winner_root as int || spec_higher_eq(
                                    density@,
                                    winner_mode as int,
                                    uf.mode_at(uf.rep_of(uniq_roots@[s] as int)),
                                )) by {
                                    let q = uniq_roots@[s] as int;
                                    let orq = pre3.rep_of(q);
                                    if orq == w as int || orq == r as int {
                                        assert(uf.rep_of(q) == w_after as int);
                                    } else {
                                        assert(uf.rep_of(q) == orq);
                                        assert(uf.mode_at(orq) == pre3.mode_at(orq));
                                    }
                                }
                            }
                        } else {
                            let ghost pre4 = uf;
                            uf.protect_root(r);
                            proof {
                                lemma_sweep_inv_stable(pre4, uf, density@);
                                lemma_st_protect_matches(pre4, uf, r as int);
                                assert(st_merge(
                                    density@,
                                    tau as int,
                                    v as int,
                                    s_cur,
                                    list2,
                                    t2 as int,
                                    winner_root as int,
                                ) == st_merge(
                                    density@,
                                    tau as int,
                                    v as int,
                                    st_protect(s_cur, r as int),
                                    list2,
                                    t2 + 1 as int,
                                    winner_root as int,
                                ));
                                s_cur = st_protect(s_cur, r as int);
                            }
                        }
                    }
                } else {
                    proof {
                        assert(st_merge(
                            density@,
                            tau as int,
                            v as int,
                            s_cur,
                            list2,
                            t2 as int,
                            winner_root as int,
                        ) == st_merge(
                            density@,
                            tau as int,
                            v as int,
                            s_cur,
                            list2,
                            t2 + 1 as int,
                            winner_root as int,
                        ));
                    }
                }
                t2 = t2 + 1;
            }
            proof {
                assert((s_cur, winner_root as int) == pair_full);
                assert(full_list.len() == uniq_roots@.len());
                assert(st_of(uf) == st_step(graph@, density@, tau as int, s_base, v as int));
            }
        } else {
            proof {
                assert(full_list == ints_of(uniq_roots@));
                assert(full_list.len() == uniq_roots@.len());
                assert(st_of(uf) == st_step(graph@, density@, tau as int, s_base, v as int));
            }
        }
        proof {
            assert(st_after(graph@, density@, tau as int, ord@, idx + 1 as int) == st_step(
                graph@,
                density@,
                tau as int,
                st_after(graph@, density@, tau as int, ord@, idx as int),
                ord@[idx as int] as int,
            ));
            assert(st_of(uf) == st_after(graph@, density@, tau as int, ord@, idx + 1 as int));
        }
        idx = idx + 1;
    }
    proof {
        assert forall|x: int| 0 <= x < n implies #[trigger] uf.active_at(x) by {
            assert(ord@.contains(x as usize));
            let j = choose|j: int| 0 <= j < ord@.len() && ord@[j] == x as usize;
            assert(0 <= j < idx && ord@[j] == x);
        }
    }
    let ghost fs = st_after(graph@, density@, tau as int, ord@, n as int);
    proof {
        assert(st_of(uf) == fs);
    }
    let mut cluster_of: Vec<usize> = Vec::new();
    let mut v2: usize = 0;
    while v2 < n
        invariant
            density@.len() == n,
            uf.n() == n,
            sweep_inv(uf, density@),
            forall|x: int| 0 <= x < n ==> #[trigger] uf.active_at(x),
            v2 <= n,
            cluster_of@.len() == v2,
            forall|x: int|
                0 <= x < v2 ==> (#[trigger] cluster_of@[x] as int) == uf.mode_at(uf.rep_of(x)),
            st_of(uf) == fs,
        decreases n - v2,
    {
        let ghost pre = uf;
        let rr = uf.find(v2);
        proof {
            lemma_sweep_inv_stable(pre, uf, density@);
            lemma_st_of_view_eq(pre, uf);
            assert forall|x: int|
                0 <= x < v2 implies (#[trigger] cluster_of@[x] as int) == uf.mode_at(
                uf.rep_of(x),
            ) by {
                assert(pre.rep_of(x) == uf.rep_of(x));
                assert(pre.mode_at(pre.rep_of(x)) == uf.mode_at(uf.rep_of(x)));
            }
        }
        let m = uf.mode_of_root(rr);
        cluster_of.push(m);
        v2 = v2 + 1;
    }
    proof {
        assert forall|x: int|
            0 <= x < n implies (#[trigger] cluster_of@[x] as int) < n && spec_higher_eq(
            density@,
            cluster_of@[x] as int,
            x,
        ) && cluster_of@[cluster_of@[x] as int] == cluster_of@[x] by {
            let rx = uf.rep_of(x);
            let mx = uf.mode_at(rx);
            assert(uf.active_at(x));
            assert(uf.rep_of(mx) == rx);
            assert(cluster_of@[mx] as int == uf.mode_at(uf.rep_of(mx)));
        }
    }
    let mut modes_raw: Vec<usize> = Vec::new();
    let mut t3: usize = 0;
    while t3 < n
        invariant
            density@.len() == n,
            cluster_of@.len() == n,
            forall|x: int| 0 <= x < n ==> (#[trigger] cluster_of@[x] as int) < n,
            t3 <= n,
            modes_raw@.no_duplicates(),
            forall|s: int|
                0 <= s < modes_raw@.len() ==> cluster_of@.contains(#[trigger] modes_raw@[s])
                    && (modes_raw@[s] as int) < n,
            forall|x: int| 0 <= x < t3 ==> modes_raw@.contains(#[trigger] cluster_of@[x]),
        decreases n - t3,
    {
        let m = cluster_of[t3];
        if !vec_contains(&modes_raw, m) {
            let ghost mr0 = modes_raw@;
            modes_raw.push(m);
            proof {
                assert(cluster_of@.contains(m)) by {
                    assert(cluster_of@[t3 as int] == m);
                }
                assert(modes_raw@.no_duplicates()) by {
                    assert forall|p: int, q: int|
                        0 <= p < modes_raw@.len() && 0 <= q < modes_raw@.len() && p
                            != q implies modes_raw@[p] != modes_raw@[q] by {
                        let last = modes_raw@.len() - 1;
                        if p == last || q == last {
                            let s = if p == last {
                                q
                            } else {
                                p
                            };
                            if modes_raw@[s] == m {
                                assert(mr0[s] == m);
                                assert(mr0.contains(m));
                            }
                        } else {
                            assert(mr0[p] == modes_raw@[p] && mr0[q] == modes_raw@[q]);
                        }
                    }
                }
                assert forall|x: int|
                    0 <= x < t3 + 1 implies modes_raw@.contains(#[trigger] cluster_of@[x]) by {
                    if x == t3 as int {
                        assert(modes_raw@[modes_raw@.len() - 1] == m);
                    } else {
                        assert(mr0.contains(cluster_of@[x]));
                        let s = choose|s: int| 0 <= s < mr0.len() && mr0[s] == cluster_of@[x];
                        assert(modes_raw@[s] == cluster_of@[x]);
                    }
                }
                assert forall|s: int|
                    0 <= s < modes_raw@.len() implies cluster_of@.contains(
                    #[trigger] modes_raw@[s],
                ) && (modes_raw@[s] as int) < n by {
                    if s < modes_raw@.len() - 1 {
                        assert(modes_raw@[s] == mr0[s]);
                    } else {
                        assert(modes_raw@[s] == m);
                        assert(cluster_of@[t3 as int] == m);
                    }
                }
            }
        }
        t3 = t3 + 1;
    }
    let modes = sort_desc_by_density(density, modes_raw);
    proof {
        assert forall|i: int, j: int| 0 <= i < j < modes@.len() implies spec_higher(
            density@,
            modes@[i] as int,
            modes@[j] as int,
        ) by {
            assert(spec_higher_eq(density@, modes@[i] as int, modes@[j] as int));
            assert(modes@[i] != modes@[j]);
        }
        assert forall|j: int| 0 <= j < modes@.len() implies cluster_of@.contains(
            #[trigger] modes@[j],
        ) by {
            assert(modes@.contains(modes@[j]));
            assert(modes_raw@.contains(modes@[j]));
            let s = choose|s: int| 0 <= s < modes_raw@.len() && modes_raw@[s] == modes@[j];
            assert(cluster_of@.contains(modes_raw@[s]));
        }
        assert forall|x: int| 0 <= x < n implies modes@.contains(#[trigger] cluster_of@[x]) by {
            assert(modes_raw@.contains(cluster_of@[x]));
        }
    }
    proof {
        assert(is_sweep_order(density@, ord@));
        assert forall|v2: int|
            0 <= v2 < n implies (#[trigger] cluster_of@[v2]) as int == sweep_label(
            graph@,
            density@,
            params.tau as int,
            ord@,
            v2,
        ) by {
            assert(st_after(graph@, density@, params.tau as int, ord@, ord@.len() as int) == fs);
            assert(cluster_of@[v2] as int == uf.mode_at(uf.rep_of(v2)));
            assert(0 <= uf.rep_of(v2) < n);
            assert(fs.rep[v2] == uf.rep_of(v2));
            assert(fs.mode[uf.rep_of(v2)] == uf.mode_at(uf.rep_of(v2)));
        }
    }
    Ok(TomatoResult { cluster_of, modes })
}

} // verus!
