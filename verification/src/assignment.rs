//! Assignments of rows to columns over a cost matrix whose row and column 0
//! are not used, and what it means for one to be cheapest.

use vstd::prelude::*;
use crate::sums::{total, is_permutation, permuted, lemma_total_permuted, lemma_total_add,
    lemma_total_le, lemma_total_eq, lemma_permutation_onto};

verus! {

/// `cost` has `n` rows of `n` entries each.
pub open spec fn is_square(cost: Seq<Seq<int>>, n: int) -> bool {
    &&& cost.len() == n
    &&& forall|i: int| 0 <= i < n ==> (#[trigger] cost[i]).len() == n
}

/// `sigma` gives each row `1..n` a column in `1..n`, and no column twice.
pub open spec fn is_assignment(sigma: Seq<int>, n: int) -> bool {
    &&& sigma.len() == n
    &&& forall|r: int| 1 <= r < n ==> 1 <= #[trigger] sigma[r] < n
    &&& forall|r1: int, r2: int| 1 <= r1 < r2 < n ==> sigma[r1] != sigma[r2]
}

/// Some row has column `c`.
pub open spec fn reaches(sigma: Seq<int>, c: int) -> bool {
    exists|r: int| 1 <= r < sigma.len() && #[trigger] sigma[r] == c
}

/// The costs that `sigma` selects, row by row.
pub open spec fn chosen_costs(cost: Seq<Seq<int>>, sigma: Seq<int>) -> Seq<int> {
    if sigma.len() <= 1 {
        Seq::empty()
    } else {
        Seq::new((sigma.len() - 1) as nat, |i: int| cost[i + 1][sigma[i + 1]])
    }
}

/// The sum of the costs that `sigma` selects.
pub open spec fn assignment_cost(cost: Seq<Seq<int>>, sigma: Seq<int>) -> int {
    total(chosen_costs(cost, sigma))
}

/// `sigma` is an assignment, and no assignment on `cost` is cheaper.
pub open spec fn is_optimal(cost: Seq<Seq<int>>, sigma: Seq<int>, n: int) -> bool {
    &&& is_assignment(sigma, n)
    &&& forall|other: Seq<int>|
        is_assignment(other, n) ==> assignment_cost(cost, sigma) <= #[trigger] assignment_cost(
            cost,
            other,
        )
}

/// The columns of an assignment, counted from 0.
pub open spec fn columns_from_zero(sigma: Seq<int>) -> Seq<int> {
    if sigma.len() <= 1 {
        Seq::empty()
    } else {
        Seq::new((sigma.len() - 1) as nat, |i: int| sigma[i + 1] - 1)
    }
}

/// The columns of an assignment, counted from 0, list each column once.
pub proof fn lemma_assignment_permutation(sigma: Seq<int>, n: int)
    requires
        is_assignment(sigma, n),
    ensures
        is_permutation(columns_from_zero(sigma)),
        n >= 1 ==> columns_from_zero(sigma).len() == n - 1,
{
    let p = columns_from_zero(sigma);
    if n > 1 {
        assert forall|i: int| 0 <= i < p.len() implies 0 <= #[trigger] p[i] < p.len() by {
            assert(1 <= sigma[i + 1] < n);
        }
        assert forall|i: int, j: int| 0 <= i < j < p.len() implies p[i] != p[j] by {
            assert(sigma[i + 1] != sigma[j + 1]);
        }
    }
}

/// Every column `1..n` is the column of some row: an assignment is a
/// bijection between the rows and the columns.
pub proof fn lemma_assignment_onto(sigma: Seq<int>, n: int, c: int)
    requires
        is_assignment(sigma, n),
        1 <= c < n,
    ensures
        exists|r: int| 1 <= r < n && sigma[r] == c,
        reaches(sigma, c),
{
    let p = columns_from_zero(sigma);
    lemma_assignment_permutation(sigma, n);
    lemma_permutation_onto(p, c - 1);
    let i = choose|i: int| 0 <= i < p.len() && p[i] == c - 1;
    assert(sigma[i + 1] == c);
}

/// With a number `u[r]` for each row and `v[c]` for each column such that no
/// cell costs less than the two numbers of its row and column together, no
/// assignment costs less than all these numbers together.
pub proof fn lemma_potentials_below(
    cost: Seq<Seq<int>>,
    n: int,
    u: Seq<int>,
    v: Seq<int>,
    sigma: Seq<int>,
)
    requires
        is_assignment(sigma, n),
        u.len() == n,
        v.len() == n,
        n >= 1,
        forall|r: int, c: int| 1 <= r < n && 1 <= c < n ==> u[r] + v[c] <= #[trigger] cost[r][c],
    ensures
        total(u.subrange(1, n)) + total(v.subrange(1, n)) <= assignment_cost(cost, sigma),
{
    let a = u.subrange(1, n);
    let v0 = v.subrange(1, n);
    let p = columns_from_zero(sigma);
    lemma_assignment_permutation(sigma, n);
    lemma_total_permuted(v0, p);
    let b = permuted(v0, p);
    let c = Seq::new((n - 1) as nat, |i: int| a[i] + b[i]);
    lemma_total_add(a, b, c);
    let k = chosen_costs(cost, sigma);
    if n > 1 {
        assert forall|i: int| 0 <= i < c.len() implies c[i] <= k[i] by {
            assert(1 <= sigma[i + 1] < n);
            assert(u[i + 1] + v[sigma[i + 1]] <= cost[i + 1][sigma[i + 1]]);
        }
        lemma_total_le(c, k);
    } else {
        assert(c =~= k);
    }
}

/// Where moreover each selected cell costs exactly the two numbers of its row
/// and column together, the assignment costs exactly all the numbers together.
pub proof fn lemma_potentials_tight(
    cost: Seq<Seq<int>>,
    n: int,
    u: Seq<int>,
    v: Seq<int>,
    sigma: Seq<int>,
)
    requires
        is_assignment(sigma, n),
        u.len() == n,
        v.len() == n,
        n >= 1,
        forall|r: int| 1 <= r < n ==> u[r] + v[sigma[r]] == #[trigger] cost[r][sigma[r]],
    ensures
        total(u.subrange(1, n)) + total(v.subrange(1, n)) == assignment_cost(cost, sigma),
{
    let a = u.subrange(1, n);
    let v0 = v.subrange(1, n);
    let p = columns_from_zero(sigma);
    lemma_assignment_permutation(sigma, n);
    lemma_total_permuted(v0, p);
    let b = permuted(v0, p);
    let c = Seq::new((n - 1) as nat, |i: int| a[i] + b[i]);
    lemma_total_add(a, b, c);
    let k = chosen_costs(cost, sigma);
    if n > 1 {
        assert forall|i: int| 0 <= i < c.len() implies c[i] == k[i] by {
            assert(1 <= sigma[i + 1] < n);
            assert(u[i + 1] + v[sigma[i + 1]] == cost[i + 1][sigma[i + 1]]);
        }
        lemma_total_eq(c, k);
    } else {
        assert(c =~= k);
    }
}

/// Two cheapest assignments on one matrix cost the same, whichever cells each
/// of them selects.
pub proof fn lemma_optimal_cost_unique(
    cost: Seq<Seq<int>>,
    n: int,
    first: Seq<int>,
    second: Seq<int>,
)
    requires
        is_optimal(cost, first, n),
        is_optimal(cost, second, n),
    ensures
        assignment_cost(cost, first) == assignment_cost(cost, second),
{
}

/// Where some assignment costs less than `limit` in all, a cheapest
/// assignment on a matrix without negative entries selects no cell that costs
/// `limit` or more.
pub proof fn lemma_optimal_avoids_costly_cells(
    cost: Seq<Seq<int>>,
    n: int,
    best: Seq<int>,
    other: Seq<int>,
    limit: int,
    r: int,
)
    requires
        is_square(cost, n),
        forall|i: int, j: int| 1 <= i < n && 1 <= j < n ==> 0 <= #[trigger] cost[i][j],
        is_optimal(cost, best, n),
        is_assignment(other, n),
        assignment_cost(cost, other) < limit,
        1 <= r < n,
    ensures
        cost[r][best[r]] < limit,
{
    let k = chosen_costs(cost, best);
    assert(assignment_cost(cost, best) <= assignment_cost(cost, other));
    crate::sums::lemma_total_remove(k, r - 1);
    let rest = k.remove(r - 1);
    assert forall|i: int| 0 <= i < rest.len() implies 0 <= #[trigger] rest[i] by {
        let j = if i < r - 1 { i } else { i + 1 };
        assert(rest[i] == k[j]);
        assert(1 <= best[j + 1] < n);
        assert(0 <= cost[j + 1][best[j + 1]]);
    }
    lemma_nonneg_total(rest);
    assert(k[r - 1] == cost[r][best[r]]);
}

/// A sum of numbers that are not negative is not negative.
pub proof fn lemma_nonneg_total(s: Seq<int>)
    requires
        forall|i: int| 0 <= i < s.len() ==> 0 <= s[i],
    ensures
        0 <= total(s),
    decreases s.len(),
{
    if s.len() > 0 {
        lemma_nonneg_total(s.drop_last());
    }
}

} // verus!
