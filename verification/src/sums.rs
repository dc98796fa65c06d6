//! Finite sums of integers, and their invariance under reordering.

use vstd::prelude::*;

verus! {

/// The sum of the entries of `s`.
pub open spec fn total(s: Seq<int>) -> int
    decreases s.len(),
{
    if s.len() == 0 {
        0
    } else {
        total(s.drop_last()) + s.last()
    }
}

/// `p` lists every index below its length exactly once.
pub open spec fn is_permutation(p: Seq<int>) -> bool {
    &&& forall|i: int| 0 <= i < p.len() ==> 0 <= #[trigger] p[i] < p.len()
    &&& forall|i: int, j: int| 0 <= i < j < p.len() ==> p[i] != p[j]
}

/// `v` read in the order that `p` gives.
pub open spec fn permuted(v: Seq<int>, p: Seq<int>) -> Seq<int> {
    Seq::new(p.len(), |i: int| v[p[i]])
}

/// A sum is no more than another whose terms are no less, one by one.
pub proof fn lemma_total_le(a: Seq<int>, b: Seq<int>)
    requires
        a.len() == b.len(),
        forall|i: int| 0 <= i < a.len() ==> a[i] <= b[i],
    ensures
        total(a) <= total(b),
    decreases a.len(),
{
    if a.len() > 0 {
        lemma_total_le(a.drop_last(), b.drop_last());
    }
}

/// Sums of the same terms are the same.
pub proof fn lemma_total_eq(a: Seq<int>, b: Seq<int>)
    requires
        a.len() == b.len(),
        forall|i: int| 0 <= i < a.len() ==> a[i] == b[i],
    ensures
        total(a) == total(b),
{
    assert(a =~= b);
}

/// Sums can be added term by term.
pub proof fn lemma_total_add(a: Seq<int>, b: Seq<int>, c: Seq<int>)
    requires
        a.len() == b.len(),
        a.len() == c.len(),
        forall|i: int| 0 <= i < a.len() ==> c[i] == a[i] + b[i],
    ensures
        total(c) == total(a) + total(b),
    decreases a.len(),
{
    if a.len() > 0 {
        lemma_total_add(a.drop_last(), b.drop_last(), c.drop_last());
    }
}

/// A sum of terms between two bounds lies between as many times the bounds.
pub proof fn lemma_total_bounds(s: Seq<int>, lo: int, hi: int)
    requires
        forall|i: int| 0 <= i < s.len() ==> lo <= #[trigger] s[i] && s[i] <= hi,
    ensures
        s.len() * lo <= total(s) <= s.len() * hi,
    decreases s.len(),
{
    if s.len() > 0 {
        lemma_total_bounds(s.drop_last(), lo, hi);
        assert(s.len() * lo == (s.len() - 1) * lo + lo) by (nonlinear_arith);
        assert(s.len() * hi == (s.len() - 1) * hi + hi) by (nonlinear_arith);
    } else {
        assert(s.len() * lo == 0) by (nonlinear_arith)
            requires
                s.len() == 0,
        ;
        assert(s.len() * hi == 0) by (nonlinear_arith)
            requires
                s.len() == 0,
        ;
    }
}

/// Taking a term out lowers the sum by that term.
pub proof fn lemma_total_remove(s: Seq<int>, k: int)
    requires
        0 <= k < s.len(),
    ensures
        total(s.remove(k)) == total(s) - s[k],
    decreases s.len(),
{
    if k == s.len() - 1 {
        assert(s.remove(k) =~= s.drop_last());
    } else {
        lemma_total_remove(s.drop_last(), k);
        assert(s.remove(k).drop_last() =~= s.drop_last().remove(k));
        assert(s.remove(k).last() == s.last());
    }
}

/// A sum does not depend on the order of its terms.
pub proof fn lemma_total_permuted(v: Seq<int>, p: Seq<int>)
    requires
        is_permutation(p),
        v.len() == p.len(),
    ensures
        total(permuted(v, p)) == total(v),
    decreases p.len(),
{
    let m = p.len() as int;
    if m > 0 {
        let c = p[m - 1];
        let shifted = Seq::new(
            (m - 1) as nat,
            |i: int|
                if p[i] > c {
                    p[i] - 1
                } else {
                    p[i]
                },
        );
        let rest = v.remove(c);
        assert forall|i: int| 0 <= i < shifted.len() implies 0 <= #[trigger] shifted[i] < shifted.len() by {
            assert(p[i] != p[m - 1]);
        }
        assert forall|i: int, j: int| 0 <= i < j < shifted.len() implies shifted[i] != shifted[j] by {
            assert(p[i] != p[j]);
            assert(p[i] != p[m - 1]);
            assert(p[j] != p[m - 1]);
        }
        lemma_total_permuted(rest, shifted);
        lemma_total_remove(v, c);
        let w = permuted(v, p);
        let below = permuted(rest, shifted);
        assert forall|i: int| 0 <= i < m - 1 implies w[i] == below[i] by {
            assert(p[i] != p[m - 1]);
        }
        assert(w.drop_last() =~= below);
        assert(w.last() == v[c]);
    }
}

/// A list of indices without repetition that has as many entries as there are
/// indices reaches each of them.
pub proof fn lemma_permutation_onto(p: Seq<int>, k: int)
    requires
        is_permutation(p),
        0 <= k < p.len(),
    ensures
        exists|i: int| 0 <= i < p.len() && p[i] == k,
{
    let v = Seq::new(p.len(), |j: int| if j == k { 1int } else { 0int });
    lemma_total_permuted(v, p);
    let w = permuted(v, p);
    if !(exists|i: int| 0 <= i < p.len() && p[i] == k) {
        assert forall|i: int| 0 <= i < w.len() implies 0 <= #[trigger] w[i] && w[i] <= 0 by {
            assert(p[i] != k);
        }
        lemma_total_bounds(w, 0, 0);
        lemma_total_remove(v, k);
        let rest = v.remove(k);
        assert forall|i: int| 0 <= i < rest.len() implies 0 <= #[trigger] rest[i] && rest[i] <= 0 by {}
        lemma_total_bounds(rest, 0, 0);
        assert(total(w) == 0) by (nonlinear_arith)
            requires
                w.len() * 0 <= total(w) <= w.len() * 0,
        ;
        assert(total(rest) == 0) by (nonlinear_arith)
            requires
                rest.len() * 0 <= total(rest) <= rest.len() * 0,
        ;
        assert(false);
    }
}

} // verus!
