//! The sweep order: vertices compare by density first (denser is earlier),
//! with ties broken by ascending index. Densities are `i64` values on a
//! caller chosen integer scale.

use vstd::prelude::*;
use crate::seqs::lemma_swap_perm;
use crate::seqs::swap_at;

verus! {

/// The strict total order on distinct vertices: `a` strictly precedes `b`
/// when `a` is denser, or equally dense with the smaller index.
pub open spec fn spec_higher(dens: Seq<i64>, a: int, b: int) -> bool {
    dens[a] > dens[b] || (dens[a] == dens[b] && a < b)
}

/// Reflexive closure of `spec_higher`.
pub open spec fn spec_higher_eq(dens: Seq<i64>, a: int, b: int) -> bool {
    a == b || spec_higher(dens, a, b)
}

/// Does vertex `a` strictly precede vertex `b` in the sweep order?
pub fn higher(density: &Vec<i64>, a: usize, b: usize) -> (r: bool)
    requires
        a < density.len(),
        b < density.len(),
    ensures
        r == spec_higher(density@, a as int, b as int),
{
    let fa = density[a];
    let fb = density[b];
    fa > fb || (fa == fb && a < b)
}

/// Sorts vertex indices into sweep order (densest first, ties by ascending
/// index) by insertion; keeps exactly the elements it was given.
pub fn sort_desc_by_density(density: &Vec<i64>, items: Vec<usize>) -> (out: Vec<usize>)
    requires
        forall|i: int| 0 <= i < items@.len() ==> (#[trigger] items@[i] as int) < density@.len(),
    ensures
        out@.len() == items@.len(),
        forall|i: int| 0 <= i < out@.len() ==> (#[trigger] out@[i] as int) < density@.len(),
        forall|x: usize| out@.contains(x) <==> items@.contains(x),
        items@.no_duplicates() ==> out@.no_duplicates(),
        forall|i: int, j: int| 0 <= i < j < out@.len()
            ==> spec_higher_eq(density@, out@[i] as int, out@[j] as int),
{
    let mut v = items;
    let ghost items0 = v@;
    let mut idx: usize = 1;
    while idx < v.len()
        invariant
            v@.len() == items0.len(),
            idx >= 1,
            forall|i: int| 0 <= i < v@.len() ==> (#[trigger] v@[i] as int) < density@.len(),
            forall|x: usize| v@.contains(x) <==> items0.contains(x),
            items0.no_duplicates() ==> v@.no_duplicates(),
            forall|p: int, q: int| 0 <= p < q < idx && q < v@.len()
                ==> spec_higher_eq(density@, v@[p] as int, v@[q] as int),
        decreases v@.len() - idx,
    {
        let mut j: usize = idx;
        while j > 0 && higher(density, v[j], v[j - 1])
            invariant
                0 <= j <= idx < v@.len(),
                v@.len() == items0.len(),
                forall|i: int| 0 <= i < v@.len() ==> (#[trigger] v@[i] as int) < density@.len(),
                forall|x: usize| v@.contains(x) <==> items0.contains(x),
                items0.no_duplicates() ==> v@.no_duplicates(),
                forall|p: int, q: int|
                    0 <= p < q <= idx && q < v@.len() && p != j && q != j
                        ==> spec_higher_eq(density@, v@[p] as int, v@[q] as int),
                forall|q: int| j < q <= idx
                    ==> spec_higher(density@, v@[j as int] as int, v@[q] as int),
            decreases j,
        {
            let ghost s0 = v@;
            let a = v[j];
            let b = v[j - 1];
            v[j] = b;
            v[j - 1] = a;
            proof {
                assert(v@ =~= swap_at(s0, j - 1 as int, j as int));
                lemma_swap_perm(s0, j - 1 as int, j as int);
            }
            j = j - 1;
        }
        proof {
            // The prefix 0..=idx is now sorted: positions other than j are
            // sorted among themselves, position j is below its predecessor
            // (loop exit) and above what it passed over.
            assert forall|p: int, q: int| 0 <= p < q <= idx
                implies spec_higher_eq(density@, v@[p] as int, v@[q] as int) by {
                if q == j {
                    assert(p < j);
                    assert(spec_higher_eq(density@, v@[j - 1] as int, v@[j as int] as int));
                    if p < j - 1 {
                        assert(spec_higher_eq(density@, v@[p] as int, v@[j - 1] as int));
                    }
                } else if p == j {
                    assert(spec_higher(density@, v@[j as int] as int, v@[q] as int));
                }
            }
        }
        idx = idx + 1;
    }
    v
}

/// A permutation of `0..n` listing the vertices in sweep order: densest
/// first, ties by ascending index.
pub fn vertices_desc_by_density(density: &Vec<i64>) -> (ord: Vec<usize>)
    ensures
        ord@.len() == density@.len(),
        forall|i: int| 0 <= i < ord@.len() ==> (#[trigger] ord@[i] as int) < density@.len(),
        forall|v: usize| (v as int) < density@.len() ==> ord@.contains(v),
        ord@.no_duplicates(),
        forall|i: int, j: int| 0 <= i < j < ord@.len()
            ==> spec_higher(density@, ord@[i] as int, ord@[j] as int),
{
    let n = density.len();
    let mut base: Vec<usize> = Vec::new();
    let mut i: usize = 0;
    while i < n
        invariant
            i <= n,
            base@.len() == i,
            forall|t: int| 0 <= t < i ==> base@[t] == t,
        decreases n - i,
    {
        base.push(i);
        i = i + 1;
    }
    proof {
        assert(base@.no_duplicates());
        assert forall|v: usize| (v as int) < density@.len() implies base@.contains(v) by {
            assert(base@[v as int] == v);
        }
    }
    let out = sort_desc_by_density(density, base);
    proof {
        assert forall|p: int, q: int| 0 <= p < q < out@.len()
            implies spec_higher(density@, out@[p] as int, out@[q] as int) by {
            assert(spec_higher_eq(density@, out@[p] as int, out@[q] as int));
            assert(out@[p] != out@[q]);
        }
    }
    out
}

} // verus!
