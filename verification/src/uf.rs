//! The tomato-specialized union-find: disjoint sets over the vertices with
//! path halving, union by size, and per-root bookkeeping (mode, protected
//! flag, set size) plus a per-vertex active flag.

use vstd::prelude::*;
use vstd::set_lib::lemma_int_range;
use vstd::set_lib::lemma_len_subset;
use vstd::set_lib::set_int_range;
use crate::order::spec_higher;

verus! {

/// A union of disjoint finite sets is as large as the two together.
proof fn lemma_disjoint_union_len<A>(s1: Set<A>, s2: Set<A>)
    requires
        s1.finite(),
        s2.finite(),
        s1.disjoint(s2),
    ensures
        s1.union(s2).len() == s1.len() + s2.len(),
    decreases s1.len(),
{
    if s1.is_empty() {
        assert(s1.union(s2) =~= s2);
    } else {
        let a = s1.choose();
        assert(s1.contains(a));
        assert(s1.union(s2).remove(a) =~= s1.remove(a).union(s2));
        assert(s1.remove(a).disjoint(s2));
        lemma_disjoint_union_len(s1.remove(a), s2);
        assert(s1.union(s2).contains(a));
        assert(s1.union(s2).len() == s1.union(s2).remove(a).len() + 1);
        assert(s1.len() == s1.remove(a).len() + 1);
    }
}

/// Disjoint sets over vertices `0..n`. Each root carries the mode (the
/// densest member of its set), a protected flag and its set's size; each
/// vertex carries an active flag. The ghost fields mirror the parent
/// forest: `rep` maps every vertex to its root, and `rank` strictly
/// decreases along parent edges, which bounds every parent chain.
pub struct UfTomato {
    parent: Vec<usize>,
    size: Vec<usize>,
    mode: Vec<usize>,
    protected: Vec<bool>,
    active: Vec<bool>,
    rep: Ghost<Seq<int>>,
    rank: Ghost<Seq<nat>>,
}

impl UfTomato {
    /// The number of vertices.
    pub closed spec fn n(self) -> int {
        self.parent@.len() as int
    }

    /// The representative (root) of the set `v` belongs to.
    pub closed spec fn rep_of(self, v: int) -> int {
        self.rep@[v]
    }

    /// Has the sweep activated `v`?
    pub closed spec fn active_at(self, v: int) -> bool {
        self.active@[v]
    }

    /// The mode stored at `r`; meaningful when `r` is a root.
    pub closed spec fn mode_at(self, r: int) -> int {
        self.mode@[r] as int
    }

    /// The protected flag stored at `r`; meaningful when `r` is a root.
    pub closed spec fn protected_at(self, r: int) -> bool {
        self.protected@[r]
    }

    /// The set size stored at `r`; meaningful when `r` is a root.
    pub closed spec fn size_at(self, r: int) -> int {
        self.size@[r] as int
    }

    /// The members of the set rooted at `r`.
    pub closed spec fn members(self, r: int) -> Set<int> {
        Set::new(|v: int| 0 <= v < self.n() && self.rep_of(v) == r)
    }

    /// Is `r` its own representative?
    pub open spec fn is_root(self, r: int) -> bool {
        self.rep_of(r) == r
    }

    /// The structural invariant: the parent array is a forest whose
    /// chains follow `rep` to a parent-fixed root, ranks decrease along
    /// parent edges, and every root's stored size is its set's size.
    pub closed spec fn wf(self) -> bool {
        let n = self.parent@.len() as int;
        &&& self.size@.len() == n
        &&& self.mode@.len() == n
        &&& self.protected@.len() == n
        &&& self.active@.len() == n
        &&& self.rep@.len() == n
        &&& self.rank@.len() == n
        &&& forall|v: int| 0 <= v < n ==> (#[trigger] self.parent@[v] as int) < n
        &&& forall|v: int| 0 <= v < n ==> (#[trigger] self.mode@[v] as int) < n
        &&& forall|v: int| 0 <= v < n ==> 0 <= #[trigger] self.rep@[v] < n
        &&& forall|v: int|
            0 <= v < n ==> self.rep@[#[trigger] self.parent@[v] as int] == self.rep@[v]
        &&& forall|v: int|
            0 <= v < n && (#[trigger] self.parent@[v] as int) != v ==> self.rank@[self.parent@[v] as int]
                < self.rank@[v]
        &&& forall|v: int| 0 <= v < n && (#[trigger] self.parent@[v] as int) == v ==> self.rep@[v] == v
        &&& forall|v: int|
            0 <= v < n ==> (#[trigger] self.parent@[self.rep@[v]] as int) == self.rep@[v]
        &&& forall|r: int|
            0 <= r < n && (#[trigger] self.parent@[r] as int) == r ==> self.size@[r] as int
                == self.members(r).len() as int
    }

    /// The vertex count is a length, hence never negative.
    pub broadcast proof fn lemma_n_nonneg(self)
        ensures
            #[trigger] self.n() >= 0,
    {
    }

    /// Fresh state over `n` vertices: everyone an inactive singleton root
    /// that is its own mode.
    pub fn new(n: usize) -> (uf: UfTomato)
        ensures
            uf.wf(),
            uf.n() == n,
            forall|v: int| 0 <= v < n ==> #[trigger] uf.rep_of(v) == v,
            forall|v: int| 0 <= v < n ==> !(#[trigger] uf.active_at(v)),
            forall|v: int| 0 <= v < n ==> #[trigger] uf.mode_at(v) == v,
            forall|v: int| 0 <= v < n ==> !(#[trigger] uf.protected_at(v)),
            forall|v: int| 0 <= v < n ==> #[trigger] uf.size_at(v) == 1,
    {
        let mut parent: Vec<usize> = Vec::new();
        let mut size: Vec<usize> = Vec::new();
        let mut mode: Vec<usize> = Vec::new();
        let mut protected: Vec<bool> = Vec::new();
        let mut active: Vec<bool> = Vec::new();
        let mut i: usize = 0;
        while i < n
            invariant
                i <= n,
                parent@.len() == i,
                size@.len() == i,
                mode@.len() == i,
                protected@.len() == i,
                active@.len() == i,
                forall|t: int| 0 <= t < i ==> #[trigger] parent@[t] == t,
                forall|t: int| 0 <= t < i ==> #[trigger] size@[t] == 1,
                forall|t: int| 0 <= t < i ==> #[trigger] mode@[t] == t,
                forall|t: int| 0 <= t < i ==> !(#[trigger] protected@[t]),
                forall|t: int| 0 <= t < i ==> !(#[trigger] active@[t]),
            decreases n - i,
        {
            parent.push(i);
            size.push(1);
            mode.push(i);
            protected.push(false);
            active.push(false);
            i = i + 1;
        }
        let uf = UfTomato {
            parent,
            size,
            mode,
            protected,
            active,
            rep: Ghost(Seq::new(n as nat, |x: int| x)),
            rank: Ghost(Seq::new(n as nat, |x: int| 0 as nat)),
        };
        proof {
            assert forall|r: int| 0 <= r < n implies uf.members(r).len() == 1 by {
                assert(uf.members(r) =~= Set::empty().insert(r));
            }
        }
        uf
    }

    /// Is `v` active?
    pub fn is_active(&self, v: usize) -> (b: bool)
        requires
            self.wf(),
            (v as int) < self.n(),
        ensures
            b == self.active_at(v as int),
    {
        self.active[v]
    }

    /// Marks `v` active and resets it to a fresh singleton root. The
    /// sweep activates each vertex exactly once, before any union can
    /// reach it, so `v` is required to still be isolated.
    pub fn activate(&mut self, v: usize)
        requires
            old(self).wf(),
            (v as int) < old(self).n(),
            old(self).is_root(v as int),
            forall|w: int|
                0 <= w < old(self).n() && w != v as int ==> #[trigger] old(self).rep_of(w)
                    != v as int,
        ensures
            final(self).wf(),
            final(self).n() == old(self).n(),
            forall|x: int|
                0 <= x < old(self).n() ==> #[trigger] final(self).rep_of(x) == old(self).rep_of(x),
            forall|x: int|
                0 <= x < old(self).n() ==> #[trigger] final(self).active_at(x) == (x == v as int
                    || old(self).active_at(x)),
            final(self).mode_at(v as int) == v as int,
            forall|x: int|
                0 <= x < old(self).n() && x != v as int ==> #[trigger] final(self).mode_at(x)
                    == old(self).mode_at(x),
            !final(self).protected_at(v as int),
            forall|x: int|
                0 <= x < old(self).n() && x != v as int ==> #[trigger] final(self).protected_at(x)
                    == old(self).protected_at(x),
            final(self).size_at(v as int) == 1,
            forall|x: int|
                0 <= x < old(self).n() && x != v as int ==> #[trigger] final(self).size_at(x)
                    == old(self).size_at(x),
    {
        proof {
            assert(old(self).parent@[v as int] as int == v as int);
        }
        self.active[v] = true;
        self.parent[v] = v;
        self.size[v] = 1;
        self.mode[v] = v;
        self.protected[v] = false;
        proof {
            assert(self.parent@ =~= old(self).parent@);
            assert(self.rep@ == old(self).rep@);
            assert forall|r: int| 0 <= r < self.n() implies self.members(r)
                =~= old(self).members(r) by {}
            assert(self.members(v as int) =~= Set::empty().insert(v as int));
            assert forall|r: int|
                0 <= r < self.n() && (#[trigger] self.parent@[r] as int) == r implies self.size@[r]
                as int == self.members(r).len() as int by {
                if r == v as int {
                    assert(self.members(v as int).len() == 1);
                } else {
                    assert(self.members(r) =~= old(self).members(r));
                }
            }
        }
    }

    /// Is the root `r` protected?
    pub fn is_protected_root(&self, r: usize) -> (b: bool)
        requires
            self.wf(),
            (r as int) < self.n(),
        ensures
            b == self.protected_at(r as int),
    {
        self.protected[r]
    }

    /// Marks the root `r` protected: from here on the sweep will never
    /// absorb it.
    pub fn protect_root(&mut self, r: usize)
        requires
            old(self).wf(),
            (r as int) < old(self).n(),
        ensures
            final(self).wf(),
            final(self).n() == old(self).n(),
            forall|x: int|
                0 <= x < old(self).n() ==> #[trigger] final(self).rep_of(x) == old(self).rep_of(x),
            forall|x: int|
                0 <= x < old(self).n() ==> #[trigger] final(self).active_at(x) == old(
                    self,
                ).active_at(x),
            forall|x: int|
                0 <= x < old(self).n() ==> #[trigger] final(self).mode_at(x) == old(self).mode_at(
                    x,
                ),
            final(self).protected_at(r as int),
            forall|x: int|
                0 <= x < old(self).n() && x != r as int ==> #[trigger] final(self).protected_at(x)
                    == old(self).protected_at(x),
            forall|x: int|
                0 <= x < old(self).n() ==> #[trigger] final(self).size_at(x) == old(self).size_at(
                    x,
                ),
    {
        self.protected[r] = true;
        proof {
            assert forall|rt: int| 0 <= rt < self.n() implies self.members(rt)
                =~= old(self).members(rt) by {}
        }
    }

    /// The mode stored at the root `r`.
    pub fn mode_of_root(&self, r: usize) -> (m: usize)
        requires
            self.wf(),
            (r as int) < self.n(),
        ensures
            m as int == self.mode_at(r as int),
            (m as int) < self.n(),
    {
        self.mode[r]
    }

    /// The root of `v`'s set, compressing the walked path by halving.
    pub fn find(&mut self, v: usize) -> (r: usize)
        requires
            old(self).wf(),
            (v as int) < old(self).n(),
        ensures
            final(self).wf(),
            final(self).n() == old(self).n(),
            forall|x: int|
                0 <= x < old(self).n() ==> #[trigger] final(self).rep_of(x) == old(self).rep_of(x),
            forall|x: int|
                0 <= x < old(self).n() ==> #[trigger] final(self).active_at(x) == old(
                    self,
                ).active_at(x),
            forall|x: int|
                0 <= x < old(self).n() ==> #[trigger] final(self).mode_at(x) == old(self).mode_at(
                    x,
                ),
            forall|x: int|
                0 <= x < old(self).n() ==> #[trigger] final(self).protected_at(x) == old(
                    self,
                ).protected_at(x),
            forall|x: int|
                0 <= x < old(self).n() ==> #[trigger] final(self).size_at(x) == old(self).size_at(
                    x,
                ),
            r as int == old(self).rep_of(v as int),
            (r as int) < old(self).n(),
            final(self).is_root(r as int),
    {
        let mut cur = v;
        while self.parent[cur] != cur
            invariant
                self.wf(),
                self.n() == old(self).n(),
                (cur as int) < self.n(),
                self.rep@ == old(self).rep@,
                self.active@ == old(self).active@,
                self.mode@ == old(self).mode@,
                self.protected@ == old(self).protected@,
                self.size@ == old(self).size@,
                self.rep_of(cur as int) == old(self).rep_of(v as int),
            decreases self.rank@[cur as int],
        {
            let p = self.parent[cur];
            let gp = self.parent[p];
            let ghost pre = *self;
            self.parent[cur] = gp;
            proof {
                assert(pre.rep@[gp as int] == pre.rep@[cur as int]);
                assert(pre.rank@[p as int] < pre.rank@[cur as int]);
                if gp as int == cur as int {
                    assert(pre.parent@[p as int] as int != p as int);
                    assert(pre.rank@[gp as int] < pre.rank@[p as int]);
                    assert(false);
                }
                if pre.parent@[p as int] as int != p as int {
                    assert(pre.rank@[gp as int] < pre.rank@[p as int]);
                }
                assert forall|x: int|
                    0 <= x < self.n() implies self.rep@[#[trigger] self.parent@[x] as int]
                    == self.rep@[x] by {
                    if x != cur as int {
                        assert(self.parent@[x] == pre.parent@[x]);
                    }
                }
                assert forall|x: int|
                    0 <= x < self.n() && (#[trigger] self.parent@[x] as int) != x implies self.rank@[self.parent@[x] as int]
                    < self.rank@[x] by {
                    if x != cur as int {
                        assert(self.parent@[x] == pre.parent@[x]);
                    }
                }
                assert forall|x: int|
                    0 <= x < self.n() && (#[trigger] self.parent@[x] as int) == x implies self.rep@[x]
                    == x by {
                    if x != cur as int {
                        assert(self.parent@[x] == pre.parent@[x]);
                    }
                }
                assert forall|x: int|
                    0 <= x < self.n() implies (#[trigger] self.parent@[self.rep@[x]] as int)
                    == self.rep@[x] by {
                    assert(pre.parent@[pre.rep@[x] as int] as int == pre.rep@[x]);
                    if pre.rep@[x] == cur as int {
                        assert(pre.parent@[cur as int] as int == cur as int);
                        assert(false);
                    }
                }
                assert forall|rt: int| 0 <= rt < self.n() implies self.members(rt)
                    =~= pre.members(rt) by {}
                assert forall|rt: int|
                    0 <= rt < self.n() && (#[trigger] self.parent@[rt] as int) == rt implies self.size@[rt]
                    as int == self.members(rt).len() as int by {
                    if rt != cur as int {
                        assert(self.parent@[rt] == pre.parent@[rt]);
                    }
                    assert(self.members(rt) =~= pre.members(rt));
                }
            }
            cur = p;
        }
        proof {
            assert(self.rep@[cur as int] == cur as int);
        }
        cur
    }

    /// Merges the set of `other_root` into the set of `survivor_root`.
    /// The larger set's root keeps the parent role (ties go to the
    /// survivor), while the mode and the protected flag are carried from
    /// the survivor, whose mode precedes the other's in the sweep order.
    pub fn union_survivor(
        &mut self,
        density: &Vec<i64>,
        survivor_root: usize,
        other_root: usize,
    ) -> (new_root: usize)
        requires
            old(self).wf(),
            density@.len() == old(self).n(),
            (survivor_root as int) < old(self).n(),
            (other_root as int) < old(self).n(),
            survivor_root != other_root,
            old(self).is_root(survivor_root as int),
            old(self).is_root(other_root as int),
            old(self).active_at(survivor_root as int),
            old(self).active_at(other_root as int),
            spec_higher(
                density@,
                old(self).mode_at(survivor_root as int),
                old(self).mode_at(other_root as int),
            ),
        ensures
            final(self).wf(),
            final(self).n() == old(self).n(),
            new_root == survivor_root || new_root == other_root,
            new_root == (if old(self).size_at(other_root as int) > old(self).size_at(
                survivor_root as int,
            ) {
                other_root
            } else {
                survivor_root
            }),
            forall|x: int|
                0 <= x < old(self).n() ==> #[trigger] final(self).rep_of(x) == (if old(
                    self,
                ).rep_of(x) == survivor_root as int || old(self).rep_of(x) == other_root as int {
                    new_root as int
                } else {
                    old(self).rep_of(x)
                }),
            forall|x: int|
                0 <= x < old(self).n() ==> #[trigger] final(self).active_at(x) == old(
                    self,
                ).active_at(x),
            final(self).mode_at(new_root as int) == old(self).mode_at(survivor_root as int),
            forall|x: int|
                0 <= x < old(self).n() && x != new_root as int ==> #[trigger] final(self).mode_at(
                    x,
                ) == old(self).mode_at(x),
            final(self).protected_at(new_root as int) == old(self).protected_at(
                survivor_root as int,
            ),
            forall|x: int|
                0 <= x < old(self).n() && x != new_root as int
                    ==> #[trigger] final(self).protected_at(x) == old(self).protected_at(x),
            final(self).size_at(new_root as int) == old(self).size_at(survivor_root as int) + old(
                self,
            ).size_at(other_root as int),
            forall|x: int|
                0 <= x < old(self).n() && x != new_root as int ==> #[trigger] final(self).size_at(
                    x,
                ) == old(self).size_at(x),
    {
        let nn = self.parent.len();
        let survivor_mode = self.mode[survivor_root];
        let pflag = self.protected[survivor_root];
        let mut new_root = survivor_root;
        let mut child = other_root;
        if self.size[new_root] < self.size[child] {
            let t = new_root;
            new_root = child;
            child = t;
        }
        proof {
            assert(self.parent@[survivor_root as int] as int == survivor_root as int);
            assert(self.parent@[other_root as int] as int == other_root as int);
            let mw = self.members(new_root as int);
            let mc = self.members(child as int);
            assert(mw.disjoint(mc));
            lemma_int_range(0, nn as int);
            assert(mw.subset_of(set_int_range(0, nn as int)));
            assert(mc.subset_of(set_int_range(0, nn as int)));
            lemma_len_subset(mw, set_int_range(0, nn as int));
            lemma_len_subset(mc, set_int_range(0, nn as int));
            assert(mw.union(mc).subset_of(set_int_range(0, nn as int)));
            lemma_len_subset(mw.union(mc), set_int_range(0, nn as int));
            lemma_disjoint_union_len(mw, mc);
            assert(self.size@[new_root as int] + self.size@[child as int] <= nn);
        }
        let s = self.size[new_root] + self.size[child];
        let ghost pre = *self;
        self.parent[child] = new_root;
        self.size[new_root] = s;
        self.mode[new_root] = survivor_mode;
        self.protected[new_root] = pflag;
        let ghost n = pre.n();
        let ghost new_rep = Seq::new(
            n as nat,
            |x: int|
                if pre.rep@[x] == child as int {
                    new_root as int
                } else {
                    pre.rep@[x]
                },
        );
        let ghost new_rank = Seq::new(
            n as nat,
            |x: int|
                if pre.rep@[x] == child as int {
                    (pre.rank@[x] + pre.rank@[new_root as int] + 1) as nat
                } else {
                    pre.rank@[x]
                },
        );
        self.rep = Ghost(new_rep);
        self.rank = Ghost(new_rank);
        proof {
            assert(new_root as int != child as int);
            assert(pre.rep@[new_root as int] == new_root as int);
            assert(pre.rep@[child as int] == child as int);
            assert forall|x: int|
                0 <= x < n implies self.rep@[#[trigger] self.parent@[x] as int] == self.rep@[x] by {
                if x == child as int {
                    assert(self.parent@[x] == new_root);
                    assert(self.rep@[new_root as int] == new_root as int);
                } else {
                    assert(self.parent@[x] == pre.parent@[x]);
                    assert(pre.rep@[pre.parent@[x] as int] == pre.rep@[x]);
                }
            }
            assert forall|x: int|
                0 <= x < n && (#[trigger] self.parent@[x] as int) != x implies self.rank@[self.parent@[x] as int]
                < self.rank@[x] by {
                if x == child as int {
                    assert(self.rank@[x] == pre.rank@[x] + pre.rank@[new_root as int] + 1);
                    assert(self.rank@[new_root as int] == pre.rank@[new_root as int]);
                } else {
                    assert(self.parent@[x] == pre.parent@[x]);
                    assert(pre.rank@[pre.parent@[x] as int] < pre.rank@[x]);
                    assert(pre.rep@[pre.parent@[x] as int] == pre.rep@[x]);
                }
            }
            assert forall|x: int|
                0 <= x < n && (#[trigger] self.parent@[x] as int) == x implies self.rep@[x] == x by {
                assert(x != child as int);
                assert(self.parent@[x] == pre.parent@[x]);
                if pre.rep@[x] == child as int {
                    assert(pre.parent@[child as int] as int == child as int);
                    assert(x == child as int);
                }
            }
            assert forall|x: int|
                0 <= x < n implies (#[trigger] self.parent@[self.rep@[x]] as int)
                == self.rep@[x] by {
                if pre.rep@[x] == child as int {
                    assert(self.rep@[x] == new_root as int);
                    assert(self.parent@[new_root as int] == pre.parent@[new_root as int]);
                } else {
                    assert(self.rep@[x] == pre.rep@[x]);
                    assert(pre.rep@[x] != child as int);
                    assert(self.parent@[pre.rep@[x]] == pre.parent@[pre.rep@[x]]);
                }
            }
            assert(self.members(new_root as int) =~= pre.members(new_root as int).union(
                pre.members(child as int),
            ));
            lemma_int_range(0, n);
            lemma_len_subset(pre.members(new_root as int), set_int_range(0, n));
            lemma_len_subset(pre.members(child as int), set_int_range(0, n));
            lemma_disjoint_union_len(pre.members(new_root as int), pre.members(child as int));
            assert forall|rt: int|
                0 <= rt < n && (#[trigger] self.parent@[rt] as int) == rt implies self.size@[rt]
                as int == self.members(rt).len() as int by {
                assert(rt != child as int);
                assert(self.parent@[rt] == pre.parent@[rt]);
                if rt == new_root as int {
                    assert(self.size@[rt] as int == pre.size@[new_root as int] + pre.size@[child as int]);
                } else {
                    assert(self.members(rt) =~= pre.members(rt));
                }
            }
            assert forall|x: int|
                0 <= x < n implies #[trigger] self.rep_of(x) == (if pre.rep_of(x)
                    == survivor_root as int || pre.rep_of(x) == other_root as int {
                    new_root as int
                } else {
                    pre.rep_of(x)
                }) by {}
        }
        new_root
    }
}

} // verus!
