//! Small facts about sequences that several modules share: swapping two
//! positions is a permutation, inserting adds one member, a strictly
//! increasing sequence is determined by the set of its elements, and a
//! linear scan decides membership in a vector.

use vstd::prelude::*;

verus! {

/// `s` with positions `i` and `j` exchanged.
pub open spec fn swap_at<A>(s: Seq<A>, i: int, j: int) -> Seq<A> {
    s.update(i, s[j]).update(j, s[i])
}

/// Swapping two positions keeps the length, the elements, and freedom
/// from duplicates.
pub proof fn lemma_swap_perm<A>(s: Seq<A>, i: int, j: int)
    requires
        0 <= i < s.len(),
        0 <= j < s.len(),
    ensures
        swap_at(s, i, j).len() == s.len(),
        forall|x: A| swap_at(s, i, j).contains(x) <==> s.contains(x),
        s.no_duplicates() ==> swap_at(s, i, j).no_duplicates(),
{
    let t = swap_at(s, i, j);
    assert forall|x: A| t.contains(x) implies s.contains(x) by {
        let k = choose|k: int| 0 <= k < t.len() && t[k] == x;
        if k == j {
            assert(s[i] == x);
            assert(s.contains(x));
        } else if k == i {
            assert(s[j] == x);
            assert(s.contains(x));
        } else {
            assert(s[k] == x);
            assert(s.contains(x));
        }
    }
    assert forall|x: A| s.contains(x) implies t.contains(x) by {
        let k = choose|k: int| 0 <= k < s.len() && s[k] == x;
        if k == i {
            assert(t[j] == x);
            assert(t.contains(x));
        } else if k == j {
            assert(t[i] == x);
            assert(t.contains(x));
        } else {
            assert(t[k] == x);
            assert(t.contains(x));
        }
    }
    if s.no_duplicates() {
        assert forall|p: int, q: int|
            0 <= p < t.len() && 0 <= q < t.len() && p != q implies t[p] != t[q] by {
            let p2: int = if p == i { j } else if p == j { i } else { p };
            let q2: int = if q == i { j } else if q == j { i } else { q };
            assert(t[p] == s[p2]);
            assert(t[q] == s[q2]);
            assert(p2 != q2);
        }
    }
}

/// Inserting an element adds exactly that element to a sequence's members.
pub proof fn lemma_insert_membership<A>(s: Seq<A>, i: int, x: A)
    requires
        0 <= i <= s.len(),
    ensures
        forall|y: A| s.insert(i, x).contains(y) <==> (s.contains(y) || y == x),
{
    let t = s.insert(i, x);
    s.insert_ensures(i, x);
    assert forall|y: A| t.contains(y) implies s.contains(y) || y == x by {
        let k = choose|k: int| 0 <= k < t.len() && t[k] == y;
        if k < i {
            assert(s[k] == y);
        } else if k > i {
            assert(s[k - 1] == y);
        }
    }
    assert forall|y: A| s.contains(y) || y == x implies t.contains(y) by {
        if s.contains(y) {
            let k = choose|k: int| 0 <= k < s.len() && s[k] == y;
            if k < i {
                assert(t[k] == y);
            } else {
                assert(t[k + 1] == y);
            }
        } else {
            assert(t[i] == y);
        }
    }
}

/// Does the vector hold this value?
pub fn vec_contains(v: &Vec<usize>, x: usize) -> (b: bool)
    ensures
        b == v@.contains(x),
{
    let mut i: usize = 0;
    while i < v.len()
        invariant
            i <= v@.len(),
            forall|t: int| 0 <= t < i ==> v@[t] != x,
        decreases v@.len() - i,
    {
        if v[i] == x {
            return true;
        }
        i = i + 1;
    }
    false
}

/// Strictly ascending, as a property of a sequence of indices.
pub open spec fn strictly_inc(s: Seq<usize>) -> bool {
    forall|p: int, q: int| 0 <= p < q < s.len() ==> s[p] < s[q]
}

/// Two strictly ascending sequences with the same elements are equal.
pub proof fn lemma_strictly_inc_same_elems(x: Seq<usize>, y: Seq<usize>)
    requires
        strictly_inc(x),
        strictly_inc(y),
        forall|e: usize| x.contains(e) <==> y.contains(e),
    ensures
        x == y,
    decreases x.len(),
{
    if x.len() == 0 {
        if y.len() > 0 {
            assert(y.contains(y[0]));
            assert(x.contains(y[0]));
        }
        assert(x =~= y);
    } else {
        assert(x.contains(x[0]));
        assert(y.len() > 0);
        assert(y.contains(y[0]));
        // The heads are both the unique minimum, hence equal.
        let kx = choose|k: int| 0 <= k < y.len() && y[k] == x[0];
        assert(y[0] <= x[0]);
        let ky = choose|k: int| 0 <= k < x.len() && x[k] == y[0];
        assert(x[0] <= y[0]);
        assert(x[0] == y[0]);
        let xt = x.subrange(1, x.len() as int);
        let yt = y.subrange(1, y.len() as int);
        assert forall|e: usize| xt.contains(e) implies yt.contains(e) by {
            let k = choose|k: int| 0 <= k < xt.len() && xt[k] == e;
            assert(x[k + 1] == e);
            assert(x.contains(e));
            assert(e > x[0]);
            assert(y.contains(e));
            let m = choose|m: int| 0 <= m < y.len() && y[m] == e;
            assert(m != 0);
            assert(yt[m - 1] == e);
            assert(yt.contains(e));
        }
        assert forall|e: usize| yt.contains(e) implies xt.contains(e) by {
            let k = choose|k: int| 0 <= k < yt.len() && yt[k] == e;
            assert(y[k + 1] == e);
            assert(y.contains(e));
            assert(e > y[0]);
            assert(x.contains(e));
            let m = choose|m: int| 0 <= m < x.len() && x[m] == e;
            assert(m != 0);
            assert(xt[m - 1] == e);
            assert(xt.contains(e));
        }
        lemma_strictly_inc_same_elems(xt, yt);
        assert(x =~= y) by {
            assert(x.len() == 1 + xt.len());
            assert(y.len() == 1 + yt.len());
            assert(forall|k: int| 1 <= k < x.len() ==> x[k] == xt[k - 1] && y[k] == yt[k - 1]);
        }
    }
}

} // verus!
