//! The sweep as a mathematical function. A `SweepState` mirrors the
//! union-find's view (representative, mode, flags and size per vertex),
//! and the functions here replay one sweep step after another over the
//! vertices in sweep order. The executable merge is proved to land on
//! exactly this state, which pins its output down to a function of the
//! graph, the densities and the threshold.

use vstd::prelude::*;
use crate::order::spec_higher;
use crate::uf::UfTomato;

verus! {

/// A sequence of indices, read as mathematical integers.
pub open spec fn ints_of(s: Seq<usize>) -> Seq<int> {
    Seq::new(s.len(), |i: int| s[i] as int)
}

/// Membership carries over between a sequence of indices and its integer
/// reading.
pub proof fn lemma_ints_of_contains(s: Seq<usize>, x: usize)
    ensures
        ints_of(s).contains(x as int) <==> s.contains(x),
{
    if s.contains(x) {
        let k = choose|k: int| 0 <= k < s.len() && s[k] == x;
        assert(ints_of(s)[k] == x as int);
        assert(ints_of(s).contains(x as int));
    }
    if ints_of(s).contains(x as int) {
        let k = choose|k: int| 0 <= k < ints_of(s).len() && ints_of(s)[k] == x as int;
        assert(s[k] == x);
        assert(s.contains(x));
    }
}

/// The union-find as the sweep sees it.
#[verifier::ext_equal]
pub struct SweepState {
    pub rep: Seq<int>,
    pub mode: Seq<int>,
    pub active: Seq<bool>,
    pub prot: Seq<bool>,
    pub size: Seq<int>,
}

/// A sweep order: a permutation of the vertices, densest first, ties by
/// ascending index. The strictness makes it unique.
pub open spec fn is_sweep_order(dens: Seq<i64>, ord: Seq<usize>) -> bool {
    &&& ord.len() == dens.len()
    &&& forall|i: int| 0 <= i < ord.len() ==> (#[trigger] ord[i] as int) < dens.len()
    &&& forall|v: usize| (v as int) < dens.len() ==> ord.contains(v)
    &&& forall|i: int, j: int|
        0 <= i < j < ord.len() ==> spec_higher(dens, ord[i] as int, ord[j] as int)
}

/// Two sweep orders over the same densities are the same sequence.
pub proof fn lemma_sweep_order_unique(dens: Seq<i64>, o1: Seq<usize>, o2: Seq<usize>)
    requires
        is_sweep_order(dens, o1),
        is_sweep_order(dens, o2),
    ensures
        o1 == o2,
    decreases o1.len(),
{
    lemma_desc_sorted_same_elems(dens, o1, o2);
}

/// Two strictly descending (by the sweep order) sequences with the same
/// elements are equal.
pub proof fn lemma_desc_sorted_same_elems(dens: Seq<i64>, x: Seq<usize>, y: Seq<usize>)
    requires
        forall|i: int| 0 <= i < x.len() ==> (#[trigger] x[i] as int) < dens.len(),
        forall|i: int| 0 <= i < y.len() ==> (#[trigger] y[i] as int) < dens.len(),
        forall|i: int, j: int| 0 <= i < j < x.len() ==> spec_higher(dens, x[i] as int, x[j] as int),
        forall|i: int, j: int| 0 <= i < j < y.len() ==> spec_higher(dens, y[i] as int, y[j] as int),
        forall|e: usize| x.contains(e) <==> y.contains(e),
    ensures
        x == y,
    decreases x.len(),
{
    if x.len() == 0 {
        if y.len() > 0 {
            assert(y.contains(y[0]));
            assert(x.contains(y[0]));
        }
        assert(x =~= y);
    } else {
        assert(x.contains(x[0]));
        assert(y.len() > 0);
        assert(y.contains(y[0]));
        let kx = choose|k: int| 0 <= k < y.len() && y[k] == x[0];
        let ky = choose|k: int| 0 <= k < x.len() && x[k] == y[0];
        // each head is highest in its sequence, so the heads agree
        assert(x[0] == y[0]) by {
            if x[0] != y[0] {
                if kx > 0 {
                    assert(spec_higher(dens, y[0] as int, x[0] as int));
                }
                if ky > 0 {
                    assert(spec_higher(dens, x[0] as int, y[0] as int));
                }
            }
        }
        let xt = x.subrange(1, x.len() as int);
        let yt = y.subrange(1, y.len() as int);
        assert forall|e: usize| xt.contains(e) implies yt.contains(e) by {
            let k = choose|k: int| 0 <= k < xt.len() && xt[k] == e;
            assert(x[k + 1] == e);
            assert(spec_higher(dens, x[0] as int, e as int));
            assert(x.contains(e));
            assert(y.contains(e));
            let m = choose|m: int| 0 <= m < y.len() && y[m] == e;
            assert(m != 0);
            assert(yt[m - 1] == e);
            assert(yt.contains(e));
        }
        assert forall|e: usize| yt.contains(e) implies xt.contains(e) by {
            let k = choose|k: int| 0 <= k < yt.len() && yt[k] == e;
            assert(y[k + 1] == e);
            assert(spec_higher(dens, y[0] as int, e as int));
            assert(y.contains(e));
            assert(x.contains(e));
            let m = choose|m: int| 0 <= m < x.len() && x[m] == e;
            assert(m != 0);
            assert(xt[m - 1] == e);
            assert(xt.contains(e));
        }
        lemma_desc_sorted_same_elems(dens, xt, yt);
        assert(x =~= y) by {
            assert(forall|k: int| 1 <= k < x.len() ==> x[k] == xt[k - 1] && y[k] == yt[k - 1]);
        }
    }
}

/// The fresh state: everyone an inactive singleton root and own mode.
pub open spec fn st_init(n: int) -> SweepState {
    SweepState {
        rep: Seq::new(n as nat, |x: int| x),
        mode: Seq::new(n as nat, |x: int| x),
        active: Seq::new(n as nat, |x: int| false),
        prot: Seq::new(n as nat, |x: int| false),
        size: Seq::new(n as nat, |x: int| 1),
    }
}

/// Activating `v`: mark it active and reset it to a fresh singleton root.
pub open spec fn st_activate(s: SweepState, v: int) -> SweepState {
    SweepState {
        rep: s.rep,
        mode: s.mode.update(v, v),
        active: s.active.update(v, true),
        prot: s.prot.update(v, false),
        size: s.size.update(v, 1),
    }
}

/// Protecting the root `r`.
pub open spec fn st_protect(s: SweepState, r: int) -> SweepState {
    SweepState { rep: s.rep, mode: s.mode, active: s.active, prot: s.prot.update(r, true), size: s.size }
}

/// Merging `other` into `survivor`: the larger set's root keeps the
/// parent role (ties go to the survivor); mode and protected flag are
/// carried from the survivor. Yields the state and the new root.
pub open spec fn st_union(s: SweepState, w: int, r: int) -> (SweepState, int) {
    let new_root: int = if s.size[r] > s.size[w] {
        r
    } else {
        w
    };
    (
        SweepState {
            rep: Seq::new(s.rep.len(), |x: int| if s.rep[x] == w || s.rep[x] == r {
                new_root
            } else {
                s.rep[x]
            }),
            mode: s.mode.update(new_root, s.mode[w]),
            active: s.active,
            prot: s.prot.update(new_root, s.prot[w]),
            size: s.size.update(new_root, s.size[w] + s.size[r]),
        },
        new_root,
    )
}

/// The distinct roots of `v` and of its already active neighbors, in
/// first-encounter order, starting from `v`'s own root.
pub open spec fn st_collect(s: SweepState, row: Seq<usize>, k: int, acc: Seq<int>) -> Seq<int>
    decreases row.len() - k,
{
    if k < 0 || k >= row.len() {
        acc
    } else {
        let u = row[k] as int;
        if s.active[u] && !acc.contains(s.rep[u]) {
            st_collect(s, row, k + 1, acc.push(s.rep[u]))
        } else {
            st_collect(s, row, k + 1, acc)
        }
    }
}

/// The gathered root whose mode is highest in the sweep order, scanning
/// from position `t` with the current best `(wr, wm)`.
pub open spec fn st_select(
    dens: Seq<i64>,
    s: SweepState,
    list: Seq<int>,
    t: int,
    wr: int,
    wm: int,
) -> int
    decreases list.len() - t,
{
    if t < 0 || t >= list.len() {
        wr
    } else {
        let r = list[t];
        let m = s.mode[r];
        if spec_higher(dens, m, wm) {
            st_select(dens, s, list, t + 1, r, m)
        } else {
            st_select(dens, s, list, t + 1, wr, wm)
        }
    }
}

/// One batched merge pass at sweep level `v`: every gathered root other
/// than the winner is re-resolved and then absorbed when its mode's
/// lifetime lies strictly below `tau`, or protected otherwise.
pub open spec fn st_merge(
    dens: Seq<i64>,
    tau: int,
    v: int,
    s: SweepState,
    list: Seq<int>,
    t: int,
    wr: int,
) -> (SweepState, int)
    decreases list.len() - t,
{
    if t < 0 || t >= list.len() {
        (s, wr)
    } else {
        let r0 = list[t];
        if r0 == wr {
            st_merge(dens, tau, v, s, list, t + 1, wr)
        } else {
            let r = s.rep[r0];
            let w = s.rep[wr];
            if r == w {
                st_merge(dens, tau, v, s, list, t + 1, w)
            } else if s.prot[r] {
                st_merge(dens, tau, v, s, list, t + 1, wr)
            } else {
                let m = s.mode[r];
                if dens[m] - dens[v] < tau {
                    let (s2, nr) = st_union(s, w, r);
                    st_merge(dens, tau, v, s2, list, t + 1, nr)
                } else {
                    st_merge(dens, tau, v, st_protect(s, r), list, t + 1, wr)
                }
            }
        }
    }
}

/// One full sweep step: activate `v`, gather the roots of its active
/// neighborhood, and run the batched merge when more than one remains.
pub open spec fn st_step(
    graph: Seq<Seq<usize>>,
    dens: Seq<i64>,
    tau: int,
    s: SweepState,
    v: int,
) -> SweepState {
    let s1 = st_activate(s, v);
    let list = st_collect(s1, graph[v], 0, seq![s1.rep[v]]);
    if list.len() <= 1 {
        s1
    } else {
        let wr0 = st_select(dens, s1, list, 1, list[0], s1.mode[list[0]]);
        st_merge(dens, tau, v, s1, list, 0, wr0).0
    }
}

/// The state after the first `i` vertices of the sweep order.
pub open spec fn st_after(
    graph: Seq<Seq<usize>>,
    dens: Seq<i64>,
    tau: int,
    ord: Seq<usize>,
    i: int,
) -> SweepState
    decreases i,
{
    if i <= 0 {
        st_init(dens.len() as int)
    } else {
        st_step(graph, dens, tau, st_after(graph, dens, tau, ord, i - 1), ord[i - 1] as int)
    }
}

/// The union-find's view as a sweep state.
pub open spec fn st_of(uf: UfTomato) -> SweepState {
    SweepState {
        rep: Seq::new(uf.n() as nat, |x: int| uf.rep_of(x)),
        mode: Seq::new(uf.n() as nat, |x: int| uf.mode_at(x)),
        active: Seq::new(uf.n() as nat, |x: int| uf.active_at(x)),
        prot: Seq::new(uf.n() as nat, |x: int| uf.protected_at(x)),
        size: Seq::new(uf.n() as nat, |x: int| uf.size_at(x)),
    }
}

/// Operations that keep the union-find's view, such as a path-halving
/// find, keep its sweep state.
pub proof fn lemma_st_of_view_eq(a: UfTomato, b: UfTomato)
    requires
        b.n() == a.n(),
        forall|x: int| 0 <= x < a.n() ==> #[trigger] b.rep_of(x) == a.rep_of(x),
        forall|x: int| 0 <= x < a.n() ==> #[trigger] b.active_at(x) == a.active_at(x),
        forall|x: int| 0 <= x < a.n() ==> #[trigger] b.mode_at(x) == a.mode_at(x),
        forall|x: int| 0 <= x < a.n() ==> #[trigger] b.protected_at(x) == a.protected_at(x),
        forall|x: int| 0 <= x < a.n() ==> #[trigger] b.size_at(x) == a.size_at(x),
    ensures
        st_of(b) == st_of(a),
{
    broadcast use UfTomato::lemma_n_nonneg;

    assert forall|x: int| 0 <= x < a.n() implies st_of(b).rep[x] == st_of(a).rep[x] by {
        assert(b.rep_of(x) == a.rep_of(x));
    }
    assert(st_of(b).rep =~= st_of(a).rep);
    assert forall|x: int| 0 <= x < a.n() implies st_of(b).mode[x] == st_of(a).mode[x] by {
        assert(b.mode_at(x) == a.mode_at(x));
    }
    assert(st_of(b).mode =~= st_of(a).mode);
    assert forall|x: int| 0 <= x < a.n() implies st_of(b).active[x] == st_of(a).active[x] by {
        assert(b.active_at(x) == a.active_at(x));
    }
    assert(st_of(b).active =~= st_of(a).active);
    assert forall|x: int| 0 <= x < a.n() implies st_of(b).prot[x] == st_of(a).prot[x] by {
        assert(b.protected_at(x) == a.protected_at(x));
    }
    assert(st_of(b).prot =~= st_of(a).prot);
    assert forall|x: int| 0 <= x < a.n() implies st_of(b).size[x] == st_of(a).size[x] by {
        assert(b.size_at(x) == a.size_at(x));
    }
    assert(st_of(b).size =~= st_of(a).size);
    assert(st_of(b) =~= st_of(a));
}

/// A fresh union-find is exactly the fresh sweep state.
pub proof fn lemma_st_of_init(uf: UfTomato)
    requires
        forall|v: int| 0 <= v < uf.n() ==> #[trigger] uf.rep_of(v) == v,
        forall|v: int| 0 <= v < uf.n() ==> !(#[trigger] uf.active_at(v)),
        forall|v: int| 0 <= v < uf.n() ==> #[trigger] uf.mode_at(v) == v,
        forall|v: int| 0 <= v < uf.n() ==> !(#[trigger] uf.protected_at(v)),
        forall|v: int| 0 <= v < uf.n() ==> #[trigger] uf.size_at(v) == 1,
    ensures
        st_of(uf) == st_init(uf.n()),
{
    broadcast use UfTomato::lemma_n_nonneg;

    let s = st_init(uf.n());
    assert forall|x: int| 0 <= x < uf.n() implies st_of(uf).rep[x] == s.rep[x] by {
        assert(uf.rep_of(x) == x);
    }
    assert(st_of(uf).rep =~= s.rep);
    assert forall|x: int| 0 <= x < uf.n() implies st_of(uf).mode[x] == s.mode[x] by {
        assert(uf.mode_at(x) == x);
    }
    assert(st_of(uf).mode =~= s.mode);
    assert forall|x: int| 0 <= x < uf.n() implies st_of(uf).active[x] == s.active[x] by {
        assert(!uf.active_at(x));
    }
    assert(st_of(uf).active =~= s.active);
    assert forall|x: int| 0 <= x < uf.n() implies st_of(uf).prot[x] == s.prot[x] by {
        assert(!uf.protected_at(x));
    }
    assert(st_of(uf).prot =~= s.prot);
    assert forall|x: int| 0 <= x < uf.n() implies st_of(uf).size[x] == s.size[x] by {
        assert(uf.size_at(x) == 1);
    }
    assert(st_of(uf).size =~= s.size);
    assert(st_of(uf) =~= s);
}

/// Activation moves the union-find to exactly the activated sweep state.
pub proof fn lemma_st_activate_matches(pre: UfTomato, post: UfTomato, v: int)
    requires
        post.n() == pre.n(),
        0 <= v < pre.n(),
        forall|x: int| 0 <= x < pre.n() ==> #[trigger] post.rep_of(x) == pre.rep_of(x),
        forall|x: int|
            0 <= x < pre.n() ==> #[trigger] post.active_at(x) == (x == v || pre.active_at(x)),
        post.mode_at(v) == v,
        forall|x: int| 0 <= x < pre.n() && x != v ==> #[trigger] post.mode_at(x) == pre.mode_at(x),
        !post.protected_at(v),
        forall|x: int|
            0 <= x < pre.n() && x != v ==> #[trigger] post.protected_at(x) == pre.protected_at(x),
        post.size_at(v) == 1,
        forall|x: int| 0 <= x < pre.n() && x != v ==> #[trigger] post.size_at(x) == pre.size_at(x),
    ensures
        st_of(post) == st_activate(st_of(pre), v),
{
    let s = st_activate(st_of(pre), v);
    assert(st_of(post).rep =~= s.rep);
    assert(st_of(post).mode =~= s.mode);
    assert(st_of(post).active =~= s.active);
    assert(st_of(post).prot =~= s.prot);
    assert(st_of(post).size =~= s.size);
    assert(st_of(post) =~= s);
}

/// Protecting a root moves the union-find to exactly the protected sweep
/// state.
pub proof fn lemma_st_protect_matches(pre: UfTomato, post: UfTomato, r: int)
    requires
        post.n() == pre.n(),
        0 <= r < pre.n(),
        forall|x: int| 0 <= x < pre.n() ==> #[trigger] post.rep_of(x) == pre.rep_of(x),
        forall|x: int| 0 <= x < pre.n() ==> #[trigger] post.active_at(x) == pre.active_at(x),
        forall|x: int| 0 <= x < pre.n() ==> #[trigger] post.mode_at(x) == pre.mode_at(x),
        post.protected_at(r),
        forall|x: int|
            0 <= x < pre.n() && x != r ==> #[trigger] post.protected_at(x) == pre.protected_at(x),
        forall|x: int| 0 <= x < pre.n() ==> #[trigger] post.size_at(x) == pre.size_at(x),
    ensures
        st_of(post) == st_protect(st_of(pre), r),
{
    let s = st_protect(st_of(pre), r);
    assert(st_of(post).rep =~= s.rep);
    assert(st_of(post).mode =~= s.mode);
    assert(st_of(post).active =~= s.active);
    assert(st_of(post).prot =~= s.prot);
    assert(st_of(post).size =~= s.size);
    assert(st_of(post) =~= s);
}

/// A union moves the union-find to exactly the merged sweep state, and
/// returns its root.
pub proof fn lemma_st_union_matches(pre: UfTomato, post: UfTomato, w: int, r: int, nr: int)
    requires
        post.n() == pre.n(),
        0 <= w < pre.n(),
        0 <= r < pre.n(),
        w != r,
        nr == (if pre.size_at(r) > pre.size_at(w) {
            r
        } else {
            w
        }),
        forall|x: int|
            0 <= x < pre.n() ==> #[trigger] post.rep_of(x) == (if pre.rep_of(x) == w
                || pre.rep_of(x) == r {
                nr
            } else {
                pre.rep_of(x)
            }),
        forall|x: int| 0 <= x < pre.n() ==> #[trigger] post.active_at(x) == pre.active_at(x),
        post.mode_at(nr) == pre.mode_at(w),
        forall|x: int| 0 <= x < pre.n() && x != nr ==> #[trigger] post.mode_at(x) == pre.mode_at(x),
        post.protected_at(nr) == pre.protected_at(w),
        forall|x: int|
            0 <= x < pre.n() && x != nr ==> #[trigger] post.protected_at(x) == pre.protected_at(x),
        post.size_at(nr) == pre.size_at(w) + pre.size_at(r),
        forall|x: int| 0 <= x < pre.n() && x != nr ==> #[trigger] post.size_at(x) == pre.size_at(x),
    ensures
        st_of(post) == st_union(st_of(pre), w, r).0,
        nr == st_union(st_of(pre), w, r).1,
{
    let s = st_union(st_of(pre), w, r).0;
    assert(st_of(post).rep =~= s.rep);
    assert(st_of(post).mode =~= s.mode);
    assert(st_of(post).active =~= s.active);
    assert(st_of(post).prot =~= s.prot);
    assert(st_of(post).size =~= s.size);
    assert(st_of(post) =~= s);
}

/// Every root gathered by `st_collect` is an in-range active vertex,
/// provided the accumulator starts that way and representatives are
/// still the vertices themselves.
proof fn lemma_collect_active(s: SweepState, row: Seq<usize>, k: int, acc: Seq<int>)
    requires
        forall|kk: int| 0 <= kk < row.len() ==> (#[trigger] row[kk] as int) < s.rep.len(),
        forall|x: int| 0 <= x < s.rep.len() ==> #[trigger] s.rep[x] == x,
        forall|p: int|
            0 <= p < acc.len() ==> 0 <= #[trigger] acc[p] < s.rep.len() && s.active[acc[p]],
    ensures
        forall|p: int|
            0 <= p < st_collect(s, row, k, acc).len() ==> 0 <= #[trigger] st_collect(
                s,
                row,
                k,
                acc,
            )[p] < s.rep.len() && s.active[st_collect(s, row, k, acc)[p]],
    decreases row.len() - k,
{
    if k < 0 || k >= row.len() {
        assert(st_collect(s, row, k, acc) == acc);
    } else {
        let u = row[k] as int;
        if s.active[u] && !acc.contains(s.rep[u]) {
            assert forall|p: int|
                0 <= p < acc.push(s.rep[u]).len() implies 0 <= #[trigger] acc.push(s.rep[u])[p]
                < s.rep.len() && s.active[acc.push(s.rep[u])[p]] by {
                if p < acc.len() {
                    assert(acc[p] == acc.push(s.rep[u])[p]);
                }
            }
            lemma_collect_active(s, row, k + 1, acc.push(s.rep[u]));
            assert(st_collect(s, row, k, acc) == st_collect(s, row, k + 1, acc.push(s.rep[u])));
        } else {
            lemma_collect_active(s, row, k + 1, acc);
            assert(st_collect(s, row, k, acc) == st_collect(s, row, k + 1, acc));
        }
    }
}

/// When the threshold is not positive, the batched merge only protects:
/// every gathered root's lifetime is at least zero, never strictly below
/// the threshold, so representatives, modes and activity are untouched.
proof fn lemma_merge_no_op(
    dens: Seq<i64>,
    tau: int,
    v: int,
    s: SweepState,
    list: Seq<int>,
    t: int,
    wr: int,
)
    requires
        tau <= 0,
        0 <= v < dens.len(),
        s.rep.len() == dens.len(),
        s.mode.len() == dens.len(),
        forall|x: int| 0 <= x < s.rep.len() ==> #[trigger] s.rep[x] == x,
        forall|x: int| 0 <= x < s.mode.len() ==> #[trigger] s.mode[x] == x,
        forall|p: int|
            0 <= p < list.len() ==> 0 <= #[trigger] list[p] < dens.len() && dens[list[p]]
                >= dens[v],
    ensures
        st_merge(dens, tau, v, s, list, t, wr).0.rep == s.rep,
        st_merge(dens, tau, v, s, list, t, wr).0.mode == s.mode,
        st_merge(dens, tau, v, s, list, t, wr).0.active == s.active,
    decreases list.len() - t,
{
    if t < 0 || t >= list.len() {
    } else {
        let r0 = list[t];
        if r0 == wr {
            lemma_merge_no_op(dens, tau, v, s, list, t + 1, wr);
        } else {
            let r = s.rep[r0];
            let w = s.rep[wr];
            assert(r == r0);
            if r == w {
                lemma_merge_no_op(dens, tau, v, s, list, t + 1, w);
            } else if s.prot[r] {
                lemma_merge_no_op(dens, tau, v, s, list, t + 1, wr);
            } else {
                assert(dens[s.mode[r]] - dens[v] >= 0);
                let s2 = st_protect(s, r);
                lemma_merge_no_op(dens, tau, v, s2, list, t + 1, wr);
            }
        }
    }
}

/// When the threshold is not positive, the whole sweep keeps every
/// vertex its own representative and mode, activating one prefix vertex
/// per step.
proof fn lemma_zero_tau_pristine(
    graph: Seq<Seq<usize>>,
    dens: Seq<i64>,
    tau: int,
    ord: Seq<usize>,
    i: int,
)
    requires
        is_sweep_order(dens, ord),
        crate::graph::graph_valid(graph),
        graph.len() == dens.len(),
        tau <= 0,
        0 <= i <= ord.len(),
    ensures
        st_after(graph, dens, tau, ord, i).rep.len() == dens.len(),
        st_after(graph, dens, tau, ord, i).mode.len() == dens.len(),
        st_after(graph, dens, tau, ord, i).active.len() == dens.len(),
        forall|x: int|
            0 <= x < dens.len() ==> #[trigger] st_after(graph, dens, tau, ord, i).rep[x] == x,
        forall|x: int|
            0 <= x < dens.len() ==> #[trigger] st_after(graph, dens, tau, ord, i).mode[x] == x,
        forall|x: int|
            0 <= x < dens.len() ==> ((#[trigger] st_after(graph, dens, tau, ord, i).active[x])
                <==> exists|j: int| 0 <= j < i && ord[j] == x),
    decreases i,
{
    let n = dens.len() as int;
    if i <= 0 {
    } else {
        lemma_zero_tau_pristine(graph, dens, tau, ord, i - 1);
        let s = st_after(graph, dens, tau, ord, i - 1);
        let v = ord[i - 1] as int;
        let s1 = st_activate(s, v);
        assert forall|x: int| 0 <= x < n implies #[trigger] s1.mode[x] == x by {
            if x != v {
                assert(s.mode[x] == x);
            }
        }
        assert forall|x: int| 0 <= x < n implies ((#[trigger] s1.active[x]) <==> exists|j: int|
            0 <= j < i && ord[j] == x) by {
            if x == v {
                assert(ord[i - 1] == x);
            } else {
                if s.active[x] {
                    let j = choose|j: int| 0 <= j < i - 1 && ord[j] == x;
                    assert(0 <= j < i && ord[j] == x);
                } else {
                    if exists|j: int| 0 <= j < i && ord[j] == x {
                        let j = choose|j: int| 0 <= j < i && ord[j] == x;
                        assert(j < i - 1);
                    }
                }
            }
        }
        let row = graph[v];
        assert(forall|kk: int| 0 <= kk < row.len() ==> (#[trigger] row[kk] as int) < n);
        let acc0 = seq![s1.rep[v]];
        assert(forall|p: int|
            0 <= p < acc0.len() ==> 0 <= #[trigger] acc0[p] < n && s1.active[acc0[p]]);
        lemma_collect_active(s1, row, 0, acc0);
        let list = st_collect(s1, row, 0, acc0);
        if list.len() <= 1 {
            assert(st_after(graph, dens, tau, ord, i) == s1);
        } else {
            assert forall|p: int|
                0 <= p < list.len() implies 0 <= #[trigger] list[p] < dens.len() && dens[list[p]]
                >= dens[v] by {
                let e = list[p];
                assert(s1.active[e]);
                if e != v {
                    let j = choose|j: int| 0 <= j < i && ord[j] == e as usize;
                    assert(j < i - 1);
                    assert(spec_higher(dens, ord[j] as int, ord[i - 1] as int));
                }
            }
            let wr0 = st_select(dens, s1, list, 1, list[0], s1.mode[list[0]]);
            lemma_merge_no_op(dens, tau, v, s1, list, 0, wr0);
            assert(st_after(graph, dens, tau, ord, i) == st_merge(
                dens,
                tau,
                v,
                s1,
                list,
                0,
                wr0,
            ).0);
        }
    }
}

/// Law: with a threshold of zero nothing is ever absorbed. Every root
/// the sweep meets has a lifetime of at least zero, never strictly below
/// the threshold, so every vertex ends up labeled by itself.
pub proof fn lemma_zero_tau_never_merges(
    graph: Seq<Seq<usize>>,
    dens: Seq<i64>,
    tau: int,
    ord: Seq<usize>,
    v: int,
)
    requires
        is_sweep_order(dens, ord),
        crate::graph::graph_valid(graph),
        graph.len() == dens.len(),
        tau <= 0,
        0 <= v < dens.len(),
    ensures
        sweep_label(graph, dens, tau, ord, v) == v,
{
    lemma_zero_tau_pristine(graph, dens, tau, ord, ord.len() as int);
}

/// The label the finished sweep assigns to `v`: the mode of `v`'s root.
pub open spec fn sweep_label(
    graph: Seq<Seq<usize>>,
    dens: Seq<i64>,
    tau: int,
    ord: Seq<usize>,
    v: int,
) -> int {
    let fs = st_after(graph, dens, tau, ord, ord.len() as int);
    fs.mode[fs.rep[v]]
}

} // verus!
