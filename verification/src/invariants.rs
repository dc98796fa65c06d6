//! What holds of the solver's state between its steps, and why each step
//! keeps it.

use vstd::prelude::*;
use crate::assignment::{is_square, is_assignment, is_optimal, assignment_cost,
    lemma_assignment_onto, lemma_potentials_below, lemma_potentials_tight};
use crate::munkres::{State, Matrix, STAR, PRIME, is_grid, same_shape, uncovered, uncovered_zero,
    is_least_uncovered, least_uncovered, shifted, covered_count,
    lemma_covered_count_update};

verus! {

/// The largest cost that a cell of the input can hold.
pub open spec fn limit() -> int {
    0x7fff_ffff
}

/// The row holds `val` in a column that counts.
pub open spec fn holds(row: Seq<usize>, val: usize) -> bool {
    exists|j: int| 1 <= j < row.len() && #[trigger] row[j] == val
}

/// Column `c` holds `val` in a row that counts.
pub open spec fn col_has(mask: Matrix<usize>, c: int, val: usize) -> bool {
    exists|r: int| 1 <= r < mask.len() && #[trigger] mask[r][c] == val
}

/// No row and no column holds two stars.
pub open spec fn is_matching(mask: Matrix<usize>) -> bool {
    let n = mask.len();
    &&& forall|r: int, c1: int, c2: int|
        #![trigger mask[r][c1], mask[r][c2]]
        1 <= r < n && 1 <= c1 < n && 1 <= c2 < n && mask[r][c1] == STAR && mask[r][c2] == STAR
            ==> c1 == c2
    &&& forall|r1: int, r2: int, c: int|
        #![trigger mask[r1][c], mask[r2][c]]
        1 <= r1 < n && 1 <= r2 < n && 1 <= c < n && mask[r1][c] == STAR && mask[r2][c] == STAR
            ==> r1 == r2
}

/// The two masks star the same cells.
pub open spec fn same_stars(a: Matrix<usize>, b: Matrix<usize>) -> bool {
    forall|i: int, j: int|
        1 <= i < a.len() && 1 <= j < a.len() ==> (#[trigger] a[i][j] == STAR) == (b[i][j] == STAR)
}

/// No cell is primed.
pub open spec fn no_primes(mask: Matrix<usize>) -> bool {
    forall|i: int, j: int| 1 <= i < mask.len() && 1 <= j < mask.len() ==> #[trigger] mask[i][j] != PRIME
}

/// Every cell holds 0, `STAR` or `PRIME`, and row and column 0 hold 0.
pub open spec fn mask_clean(mask: Matrix<usize>) -> bool {
    forall|i: int, j: int|
        0 <= i < mask.len() && 0 <= j < mask.len() ==> (#[trigger] mask[i][j] == 0 || mask[i][j]
            == STAR || mask[i][j] == PRIME) && (i == 0 || j == 0 ==> mask[i][j] == 0)
}

/// `m` differs from `m0` only in cells that count, and only by a star or a 0.
pub open spec fn turned_from(m0: Matrix<usize>, m: Matrix<usize>) -> bool {
    forall|x: int, y: int|
        0 <= x < m0.len() && 0 <= y < m0.len() ==> #[trigger] m[x][y] == m0[x][y] || (x >= 1 && y
            >= 1 && (m[x][y] == STAR || m[x][y] == 0))
}

/// Which rows hold a star.
pub open spec fn star_rows(mask: Matrix<usize>) -> Seq<bool> {
    Seq::new(mask.len() as nat, |r: int| r >= 1 && holds(mask[r]@, STAR))
}

/// The number of rows that hold a star.
pub open spec fn star_count(mask: Matrix<usize>) -> nat {
    covered_count(star_rows(mask))
}

/// `m1` is `m` with `val` in one cell.
pub open spec fn marked(m: Matrix<usize>, m1: Matrix<usize>, r: int, c: int, val: usize) -> bool {
    &&& is_grid(m1, m.len() as int, m.len() as int)
    &&& m1[r]@ == m[r]@.update(c, val)
    &&& forall|i: int| 0 <= i < m.len() && i != r ==> #[trigger] m1[i] == m[i]
}

/// What holds of the state throughout: the working matrix is the cost matrix
/// less a number `u[r]` for each row and a number `v[c]` for each column, it
/// holds no negative value, and the stars stand on zeros, no two of them in
/// one row or column.
pub open spec fn core_inv(cost: Seq<Seq<int>>, s: State, u: Seq<int>, v: Seq<int>) -> bool {
    let n = s.size();
    &&& s.wf()
    &&& is_square(cost, n)
    &&& u.len() == n
    &&& v.len() == n
    &&& forall|i: int, j: int| 1 <= i < n && 1 <= j < n ==> 0 <= #[trigger] cost[i][j] <= limit()
    &&& forall|i: int, j: int|
        1 <= i < n && 1 <= j < n ==> #[trigger] s.array[i][j] == cost[i][j] - u[i] - v[j]
    &&& forall|i: int, j: int| 1 <= i < n && 1 <= j < n ==> 0 <= #[trigger] s.array[i][j]
    &&& forall|r: int| 1 <= r < n ==> 0 <= #[trigger] u[r] <= limit()
    &&& forall|c: int| 1 <= c < n ==> -limit() <= #[trigger] v[c] <= 0
    &&& forall|c: int| 1 <= c < n && !col_has(s.mask, c, STAR) ==> #[trigger] v[c] == 0
    &&& is_matching(s.mask)
    &&& mask_clean(s.mask)
    &&& forall|i: int, j: int|
        1 <= i < n && 1 <= j < n && #[trigger] s.mask[i][j] == STAR ==> s.array[i][j] == 0
}

/// What holds while zeros are primed: each star has either its row or its
/// column covered, a covered row holds a star and a prime, and a star that
/// shares the column of a prime had its row covered before the prime's row.
pub open spec fn stage_inv(s: State, rank: Seq<int>, t: int) -> bool {
    let n = s.size();
    &&& rank.len() == n
    &&& 0 <= t
    &&& forall|r: int, c: int|
        1 <= r < n && 1 <= c < n && #[trigger] s.mask[r][c] == STAR ==> s.row_cover[r]
            != s.column_cover[c]
    &&& forall|c: int| 1 <= c < n && #[trigger] s.column_cover[c] ==> col_has(s.mask, c, STAR)
    &&& forall|r: int|
        1 <= r < n && #[trigger] s.row_cover[r] ==> holds(s.mask[r]@, STAR) && holds(
            s.mask[r]@,
            PRIME,
        ) && 0 <= rank[r] < t
    &&& forall|r: int, p: int|
        1 <= r < n && 1 <= p < n && #[trigger] s.mask[r][p] == PRIME ==> s.row_cover[r]
            && !s.column_cover[p] && s.array[r][p] == 0
    &&& forall|r: int, p: int, r2: int|
        #![trigger s.mask[r][p], s.mask[r2][p]]
        1 <= r < n && 1 <= p < n && 1 <= r2 < n && s.mask[r][p] == PRIME && s.mask[r2][p] == STAR
            ==> rank[r2] < rank[r]
}

/// The rows of the stars that stand in the column of a prime hold a prime
/// themselves and come before the prime's row.
pub open spec fn ranked(mask: Matrix<usize>, rank: Seq<int>) -> bool {
    let n = mask.len();
    &&& rank.len() == n
    &&& forall|r: int, p: int, r2: int|
        #![trigger mask[r][p], mask[r2][p]]
        1 <= r < n && 1 <= p < n && 1 <= r2 < n && mask[r][p] == PRIME && mask[r2][p] == STAR
            ==> holds(mask[r2]@, PRIME) && 0 <= rank[r2] < rank[r]
}

/// The primed zero `(row, col)` starts an alternating path: its row holds no
/// star.
pub open spec fn head_ready(s: State, rank: Seq<int>, row: int, col: int) -> bool {
    let n = s.size();
    &&& 1 <= row < n
    &&& 1 <= col < n
    &&& s.mask[row][col] == PRIME
    &&& !holds(s.mask[row]@, STAR)
    &&& ranked(s.mask, rank)
    &&& forall|r: int, p: int|
        1 <= r < n && 1 <= p < n && #[trigger] s.mask[r][p] == PRIME ==> s.array[r][p] == 0
}

/// Column `y` held a star in a row of rank `k` or more.
pub open spec fn star_above(m0: Matrix<usize>, rank: Seq<int>, y: int, k: int) -> bool {
    exists|x: int| 1 <= x < m0.len() && #[trigger] m0[x][y] == STAR && rank[x] >= k
}

/// What holds while the path from `head` is followed and its cells are
/// turned, when the primed zero `(r, c)` is the next to be starred: `m0` is
/// the mask before the first cell was turned, `m` the mask now.
pub open spec fn path_inv(
    m0: Matrix<usize>,
    m: Matrix<usize>,
    rank: Seq<int>,
    head: int,
    r: int,
    c: int,
) -> bool {
    let n = m0.len();
    &&& is_grid(m0, n as int, n as int)
    &&& is_grid(m, n as int, n as int)
    &&& 1 <= r < n
    &&& 1 <= c < n
    &&& 1 <= head < n
    &&& is_matching(m)
    &&& is_matching(m0)
    &&& ranked(m0, rank)
    &&& !holds(m0[head]@, STAR)
    &&& m[r][c] == PRIME
    &&& m0[r][c] == PRIME
    &&& !holds(m[r]@, STAR)
    &&& (r != head ==> holds(m0[r]@, STAR) && holds(m[head]@, STAR))
    &&& m[0] == m0[0]
    &&& turned_from(m0, m)
    &&& forall|x: int| 1 <= x < n && rank[x] < rank[r] ==> #[trigger] m[x] == m0[x]
    &&& forall|x: int, y: int|
        1 <= x < n && 1 <= y < n && #[trigger] m[x][y] != m0[x][y] ==> star_above(
            m0,
            rank,
            y,
            rank[r],
        )
    &&& forall|x: int, y: int|
        1 <= x < n && 1 <= y < n && #[trigger] m[x][y] == STAR ==> m0[x][y] == STAR || m0[x][y]
            == PRIME
    &&& forall|x: int, y: int|
        1 <= x < n && 1 <= y < n && #[trigger] m[x][y] == PRIME ==> m0[x][y] == PRIME
    &&& forall|x: int|
        1 <= x < n && x != r ==> #[trigger] m[x] == m0[x] || (holds(m[x]@, STAR) && (holds(
            m0[x]@,
            STAR,
        ) || x == head))
    &&& forall|y: int| 1 <= y < n && #[trigger] col_has(m0, y, STAR) ==> col_has(m, y, STAR)
}

/// What the turned path leaves: `m1` stars one row more than `m0`, the row
/// `head`, and every column that held a star holds one.
pub open spec fn path_kept(m0: Matrix<usize>, m1: Matrix<usize>, head: int) -> bool {
    let n = m0.len();
    &&& is_grid(m1, n as int, n as int)
    &&& is_matching(m1)
    &&& m1[0] == m0[0]
    &&& turned_from(m0, m1)
    &&& forall|x: int, y: int|
        1 <= x < n && 1 <= y < n && #[trigger] m1[x][y] == STAR ==> m0[x][y] == STAR || m0[x][y]
            == PRIME
    &&& forall|x: int, y: int|
        1 <= x < n && 1 <= y < n && #[trigger] m1[x][y] == PRIME ==> m0[x][y] == PRIME
    &&& forall|x: int| 1 <= x < n ==> #[trigger] holds(m1[x]@, STAR) == (holds(m0[x]@, STAR) || x == head)
    &&& forall|y: int| 1 <= y < n && #[trigger] col_has(m0, y, STAR) ==> col_has(m1, y, STAR)
}

/// Masks that star the same cells as a third star the same cells.
pub(crate) proof fn lemma_same_stars_chain(a: Matrix<usize>, b: Matrix<usize>, c: Matrix<usize>)
    requires
        a.len() == b.len(),
        same_stars(a, b),
        same_stars(b, c),
    ensures
        same_stars(a, c),
{
    assert forall|i: int, j: int| 1 <= i < a.len() && 1 <= j < a.len() implies (#[trigger] a[i][j]
        == STAR) == (c[i][j] == STAR) by {
        assert((a[i][j] == STAR) == (b[i][j] == STAR));
        assert((b[i][j] == STAR) == (c[i][j] == STAR));
    }
}

/// Column `y` is the first in which the row holds a prime.
pub open spec fn first_prime(row: Seq<usize>, y: int) -> bool {
    &&& 1 <= y < row.len()
    &&& row[y] == PRIME
    &&& forall|b: int| 1 <= b < y ==> #[trigger] row[b] != PRIME
}

/// What the turned path leaves, cell by cell: the head `(head, col)` is
/// starred, a cell that changed was a prime and is a star or was a star and
/// is empty, and a prime that was starred in another row than the head's was
/// the first of its row.
pub open spec fn path_done(m0: Matrix<usize>, m1: Matrix<usize>, head: int, col: int) -> bool {
    let n = m0.len();
    &&& path_kept(m0, m1, head)
    &&& m1[head][col] == STAR
    &&& forall|x: int, y: int|
        0 <= x < n && 0 <= y < n && #[trigger] m1[x][y] != m0[x][y] ==> x >= 1 && y >= 1 && ((
        m0[x][y] == PRIME && m1[x][y] == STAR) || (m0[x][y] == STAR && m1[x][y] == 0))
    &&& forall|x: int, y: int|
        1 <= x < n && 1 <= y < n && x != head && m0[x][y] == PRIME && #[trigger] m1[x][y] == STAR
            ==> first_prime(m0[x]@, y)
}

/// The row that entry `k` of the path buffer holds.
pub open spec fn path_row(p: Matrix<usize>, k: int) -> int {
    p[k][STAR as int] as int
}

/// The column that entry `k` of the path buffer holds.
pub open spec fn path_col(p: Matrix<usize>, k: int) -> int {
    p[k][PRIME as int] as int
}

/// Entry `k` of the path buffer is a primed cell of `m0`.
pub open spec fn prime_at(m0: Matrix<usize>, p: Matrix<usize>, k: int) -> bool {
    &&& 1 <= path_row(p, k) < m0.len()
    &&& 1 <= path_col(p, k) < m0.len()
    &&& m0[path_row(p, k)][path_col(p, k)] == PRIME
}

/// Entry `k` of the path buffer is the star of `m0` in the column of the
/// entry before it, and the entry after it is the first prime in the row of
/// that star.
pub open spec fn star_at(m0: Matrix<usize>, p: Matrix<usize>, k: int) -> bool {
    &&& 1 <= path_row(p, k) < m0.len()
    &&& 1 <= path_col(p, k) < m0.len()
    &&& m0[path_row(p, k)][path_col(p, k)] == STAR
    &&& path_col(p, k) == path_col(p, k - 1)
    &&& path_row(p, k + 1) == path_row(p, k)
    &&& first_prime(m0[path_row(p, k)]@, path_col(p, k + 1))
}

/// The entries `1..=len` of the path buffer are the alternating path over
/// `m0` that starts at the primed cell `(row, col)`: primes at the odd
/// entries, stars at the even ones.
pub open spec fn is_path(m0: Matrix<usize>, p: Matrix<usize>, row: int, col: int, len: int) -> bool {
    &&& 1 <= len < p.len()
    &&& len % 2 == 1
    &&& path_row(p, 1) == row
    &&& path_col(p, 1) == col
    &&& forall|k: int| 1 <= k <= len && k % 2 == 1 ==> #[trigger] prime_at(m0, p, k)
    &&& forall|k: int| 2 <= k < len && k % 2 == 0 ==> #[trigger] star_at(m0, p, k)
}

/// One of the entries `1..=len` of the path buffer is the cell `(x, y)`.
pub open spec fn on_path(p: Matrix<usize>, len: int, x: int, y: int) -> bool {
    exists|k: int| 1 <= k <= len && path_row(p, k) == x && #[trigger] path_col(p, k) == y
}

/// `m1` is `m0` with the cells of the entries `1..=len` of the path buffer
/// turned: a prime to a star, a star to 0.
pub open spec fn turned_along(m0: Matrix<usize>, m1: Matrix<usize>, p: Matrix<usize>, len: int) -> bool {
    forall|x: int, y: int|
        0 <= x < m0.len() && 0 <= y < m0.len() ==> #[trigger] m1[x][y] == if on_path(p, len, x, y) {
            if m0[x][y] == PRIME {
                STAR
            } else {
                0
            }
        } else {
            m0[x][y]
        }
}

/// The path buffer `newer` is `older` but for slots 1 and 2 of its entries
/// `1..=len`, and as long as it takes to hold them.
pub open spec fn buffer_kept(older: Matrix<usize>, newer: Matrix<usize>, len: int) -> bool {
    &&& newer.len() == if older.len() > len {
        older.len() as int
    } else {
        len + 1
    }
    &&& forall|i: int| 0 <= i < older.len() && (i == 0 || i > len) ==> #[trigger] newer[i] == older[i]
    &&& forall|k: int|
        1 <= k <= len ==> (#[trigger] newer[k])[0] == if k < older.len() {
            older[k][0]
        } else {
            0
        }
}

/// `b` is the path buffer `a` with the cell `(row, col)` in entry `k`, which
/// is a new entry where `a` ends there.
pub open spec fn recorded(a: Matrix<usize>, b: Matrix<usize>, k: int, row: int, col: int) -> bool {
    &&& is_grid(b, b.len() as int, 3)
    &&& b.len() == if k == a.len() {
        a.len() + 1
    } else {
        a.len() as int
    }
    &&& path_row(b, k) == row
    &&& path_col(b, k) == col
    &&& b[k][0] == if k == a.len() {
        0
    } else {
        a[k][0]
    }
    &&& forall|i: int| 0 <= i < a.len() && i != k ==> #[trigger] b[i] == a[i]
}

/// The path that starts at `(row, col)` stands in the entries `1..=len` of
/// `newer` and ends there, in a column without a star; `m1` is `m0` with that
/// path turned; and the rest of the buffer is as in `older`.
pub open spec fn path_ends(
    m0: Matrix<usize>,
    older: Matrix<usize>,
    m1: Matrix<usize>,
    newer: Matrix<usize>,
    row: int,
    col: int,
    len: int,
) -> bool {
    &&& is_path(m0, newer, row, col, len)
    &&& !col_has(m0, path_col(newer, len), STAR)
    &&& forall|k: int|
        1 <= k <= len && k % 2 == 1 ==> (k < len) == col_has(m0, #[trigger] path_col(newer, k), STAR)
    &&& turned_along(m0, m1, newer, len)
    &&& buffer_kept(older, newer, len)
}

/// The alternating path from `(row, col)` was written to the buffer and
/// turned in the mask, and nothing else was changed.
pub open spec fn path_exact(
    m0: Matrix<usize>,
    older: Matrix<usize>,
    m1: Matrix<usize>,
    newer: Matrix<usize>,
    row: int,
    col: int,
) -> bool {
    exists|len: int| #[trigger] path_ends(m0, older, m1, newer, row, col, len)
}

/// What one search for a head leaves of the covers and the mask of the state
/// `a` in the state `b`: covered rows stay covered and uncovered columns
/// uncovered, a row covered since holds a star and a prime, each star has
/// either its row or its column covered, a covered column holds a star, and
/// the mask has changed only where an empty cell on a zero was primed.
pub open spec fn covers_kept(a: State, b: State) -> bool {
    let n = a.size();
    &&& forall|i: int| 1 <= i < n && a.row_cover[i] ==> #[trigger] b.row_cover[i]
    &&& forall|i: int| 1 <= i < n && #[trigger] b.column_cover[i] ==> a.column_cover[i]
    &&& forall|i: int|
        1 <= i < n && #[trigger] b.row_cover[i] && !a.row_cover[i] ==> holds(b.mask[i]@, STAR)
            && holds(b.mask[i]@, PRIME)
    &&& forall|r: int, c: int|
        1 <= r < n && 1 <= c < n && #[trigger] b.mask[r][c] == STAR ==> b.row_cover[r]
            != b.column_cover[c]
    &&& forall|c: int| 1 <= c < n && #[trigger] b.column_cover[c] ==> col_has(b.mask, c, STAR)
    &&& primed_from(a, b)
}

/// Every prime stands on a zero in an uncovered column, and in a covered row
/// unless it is the head `(row, col)`.
pub open spec fn primes_placed(s: State, row: int, col: int) -> bool {
    forall|r: int, p: int|
        1 <= r < s.size() && 1 <= p < s.size() && #[trigger] s.mask[r][p] == PRIME
            ==> !s.column_cover[p] && s.array[r][p] == 0 && (s.row_cover[r] || (r == row && p
            == col))
}

/// The mask of `b` is that of `a` but for cells that were empty, hold a
/// zero and are primed.
pub open spec fn primed_from(a: State, b: State) -> bool {
    forall|i: int, j: int|
        0 <= i < a.size() && 0 <= j < a.size() ==> #[trigger] b.mask[i][j] == a.mask[i][j] || (i
            >= 1 && j >= 1 && b.mask[i][j] == PRIME && a.mask[i][j] == 0 && a.array[i][j] == 0)
}

/// Masks that star the same cells agree in all that is said of stars alone.
pub(crate) proof fn lemma_same_stars(a: Matrix<usize>, b: Matrix<usize>)
    requires
        is_grid(a, a.len() as int, a.len() as int),
        is_grid(b, a.len() as int, a.len() as int),
        same_stars(a, b),
    ensures
        is_matching(a) == is_matching(b),
        forall|y: int| 1 <= y < a.len() ==> #[trigger] col_has(a, y, STAR) == col_has(b, y, STAR),
        forall|x: int| 1 <= x < a.len() ==> #[trigger] holds(a[x]@, STAR) == holds(b[x]@, STAR),
        star_count(a) == star_count(b),
{
    let n = a.len();
    assert forall|y: int| 1 <= y < n implies #[trigger] col_has(a, y, STAR) == col_has(b, y, STAR) by {
        if col_has(a, y, STAR) {
            let r = choose|r: int| 1 <= r < a.len() && #[trigger] a[r][y] == STAR;
            assert(b[r][y] == STAR);
        }
        if col_has(b, y, STAR) {
            let r = choose|r: int| 1 <= r < b.len() && #[trigger] b[r][y] == STAR;
            assert((a[r][y] == STAR) == (b[r][y] == STAR));
        }
    }
    assert forall|x: int| 1 <= x < n implies #[trigger] holds(a[x]@, STAR) == holds(b[x]@, STAR) by {
        if holds(a[x]@, STAR) {
            let j = choose|j: int| 1 <= j < a[x]@.len() && #[trigger] a[x]@[j] == STAR;
            assert(a[x][j] == STAR);
            assert(b[x]@[j] == STAR);
        }
        if holds(b[x]@, STAR) {
            let j = choose|j: int| 1 <= j < b[x]@.len() && #[trigger] b[x]@[j] == STAR;
            assert((a[x][j] == STAR) == (b[x][j] == STAR));
            assert(a[x]@[j] == STAR);
        }
    }
    assert(star_rows(a) =~= star_rows(b));
    if is_matching(a) {
        assert forall|r: int, c1: int, c2: int|
            #![trigger b[r][c1], b[r][c2]]
            1 <= r < n && 1 <= c1 < n && 1 <= c2 < n && b[r][c1] == STAR && b[r][c2]
                == STAR implies c1 == c2 by {
            assert((a[r][c1] == STAR) == (b[r][c1] == STAR));
            assert((a[r][c2] == STAR) == (b[r][c2] == STAR));
        }
        assert forall|r1: int, r2: int, c: int|
            #![trigger b[r1][c], b[r2][c]]
            1 <= r1 < n && 1 <= r2 < n && 1 <= c < n && b[r1][c] == STAR && b[r2][c]
                == STAR implies r1 == r2 by {
            assert((a[r1][c] == STAR) == (b[r1][c] == STAR));
            assert((a[r2][c] == STAR) == (b[r2][c] == STAR));
        }
    }
    if is_matching(b) {
        assert(is_matching(a));
    }
}

/// Where a column holds no star, a row holds none either.
pub(crate) proof fn lemma_unstarred_row(mask: Matrix<usize>, c0: int) -> (r0: int)
    requires
        is_grid(mask, mask.len() as int, mask.len() as int),
        is_matching(mask),
        1 <= c0 < mask.len(),
        !col_has(mask, c0, STAR),
    ensures
        1 <= r0 < mask.len(),
        !holds(mask[r0]@, STAR),
{
    let n = mask.len() as int;
    if forall|r: int| 1 <= r < n ==> holds(#[trigger] mask[r]@, STAR) {
        let sigma = Seq::new(
            n as nat,
            |r: int| choose|c: int| 1 <= c < mask[r]@.len() && #[trigger] mask[r]@[c] == STAR,
        );
        assert forall|r: int| 1 <= r < n implies 1 <= #[trigger] sigma[r] < n && mask[r][sigma[r]]
            == STAR by {
            assert(holds(mask[r]@, STAR));
        }
        assert forall|r1: int, r2: int| 1 <= r1 < r2 < n implies sigma[r1] != sigma[r2] by {
            assert(mask[r1][sigma[r1]] == STAR);
            assert(mask[r2][sigma[r2]] == STAR);
        }
        lemma_assignment_onto(sigma, n, c0);
        let r = choose|r: int| 1 <= r < n && sigma[r] == c0;
        assert(mask[r][c0] == STAR);
        assert(false);
        1
    } else {
        choose|r: int| 1 <= r < n && !holds(#[trigger] mask[r]@, STAR)
    }
}

/// Where every column holds a star, every row holds one.
pub(crate) proof fn lemma_all_rows_starred(mask: Matrix<usize>)
    requires
        is_grid(mask, mask.len() as int, mask.len() as int),
        is_matching(mask),
        forall|c: int| 1 <= c < mask.len() ==> #[trigger] col_has(mask, c, STAR),
    ensures
        forall|r: int| 1 <= r < mask.len() ==> holds(#[trigger] mask[r]@, STAR),
{
    let n = mask.len() as int;
    let tau = Seq::new(
        n as nat,
        |c: int| choose|r: int| 1 <= r < mask.len() && #[trigger] mask[r][c] == STAR,
    );
    assert forall|c: int| 1 <= c < n implies 1 <= #[trigger] tau[c] < n && mask[tau[c]][c]
        == STAR by {
        assert(col_has(mask, c, STAR));
    }
    assert forall|c1: int, c2: int| 1 <= c1 < c2 < n implies tau[c1] != tau[c2] by {
        assert(mask[tau[c1]][c1] == STAR);
        assert(mask[tau[c2]][c2] == STAR);
    }
    assert forall|r: int| 1 <= r < n implies holds(#[trigger] mask[r]@, STAR) by {
        lemma_assignment_onto(tau, n, r);
        let c = choose|c: int| 1 <= c < n && tau[c] == r;
        assert(mask[tau[c]][c] == STAR);
        assert(mask[r]@[c] == STAR);
    }
}

/// The stars of a state in which every row holds one are a cheapest
/// assignment.
pub(crate) proof fn lemma_terminal(cost: Seq<Seq<int>>, s: State, u: Seq<int>, v: Seq<int>, sigma: Seq<int>)
    requires
        core_inv(cost, s, u, v),
        sigma.len() == s.size(),
        forall|r: int|
            1 <= r < s.size() ==> 1 <= #[trigger] sigma[r] < s.size() && s.mask[r][sigma[r]]
                == STAR,
    ensures
        is_optimal(cost, sigma, s.size()),
{
    let n = s.size();
    assert forall|r1: int, r2: int| 1 <= r1 < r2 < n implies sigma[r1] != sigma[r2] by {
        assert(s.mask[r1][sigma[r1]] == STAR);
        assert(s.mask[r2][sigma[r2]] == STAR);
    }
    assert(is_assignment(sigma, n));
    if n >= 1 {
        assert forall|r: int| 1 <= r < n implies u[r] + v[sigma[r]] == #[trigger] cost[r][sigma[r]] by {
            assert(s.mask[r][sigma[r]] == STAR);
            assert(s.array[r][sigma[r]] == 0);
        }
        lemma_potentials_tight(cost, n, u, v, sigma);
        assert forall|other: Seq<int>| is_assignment(other, n) implies assignment_cost(cost, sigma)
            <= #[trigger] assignment_cost(cost, other) by {
            assert forall|r: int, c: int| 1 <= r < n && 1 <= c < n implies u[r] + v[c]
                <= #[trigger] cost[r][c] by {
                assert(0 <= s.array[r][c]);
            }
            lemma_potentials_below(cost, n, u, v, other);
        }
    } else {
        assert forall|other: Seq<int>| is_assignment(other, n) implies assignment_cost(cost, sigma)
            <= #[trigger] assignment_cost(cost, other) by {}
    }
}

/// Once the columns of the stars are covered and nothing else, the priming
/// can begin.
pub(crate) proof fn lemma_stage_start(cost: Seq<Seq<int>>, s: State, u: Seq<int>, v: Seq<int>)
    requires
        core_inv(cost, s, u, v),
        no_primes(s.mask),
        forall|r: int| 1 <= r < s.size() ==> !#[trigger] s.row_cover[r],
        forall|c: int| 1 <= c < s.size() ==> #[trigger] s.column_cover[c] == col_has(s.mask, c, STAR),
    ensures
        stage_inv(s, Seq::new(s.size() as nat, |i: int| 0int), 0),
{
    let n = s.size();
    assert forall|r: int, c: int|
        1 <= r < n && 1 <= c < n && #[trigger] s.mask[r][c] == STAR implies s.row_cover[r]
            != s.column_cover[c] by {
        assert(col_has(s.mask, c, STAR));
        assert(s.column_cover[c]);
        assert(!s.row_cover[r]);
    }
}

/// Cells primed one after another were all empty before the first.
pub(crate) proof fn lemma_primed_chain(a: State, b: State, c: State)
    requires
        a.size() == b.size(),
        a.array == b.array,
        primed_from(a, b),
        primed_from(b, c),
    ensures
        primed_from(a, c),
{
    assert forall|i: int, j: int| 0 <= i < a.size() && 0 <= j < a.size() implies #[trigger] c.mask[i][j]
        == a.mask[i][j] || (i >= 1 && j >= 1 && c.mask[i][j] == PRIME && a.mask[i][j] == 0
        && a.array[i][j] == 0) by {
        assert(b.mask[i][j] == a.mask[i][j] || (i >= 1 && j >= 1 && b.mask[i][j] == PRIME
            && a.mask[i][j] == 0 && a.array[i][j] == 0));
        assert(c.mask[i][j] == b.mask[i][j] || (i >= 1 && j >= 1 && c.mask[i][j] == PRIME
            && b.mask[i][j] == 0 && b.array[i][j] == 0));
    }
}

/// Priming an uncovered zero changes one cell of the mask, which was empty.
proof fn lemma_marked_prime(s: State, s2: State, zr: int, zc: int)
    requires
        s.wf(),
        mask_clean(s.mask),
        1 <= zr < s.size(),
        1 <= zc < s.size(),
        uncovered_zero(s.array, s.row_cover@, s.column_cover@, zr, zc),
        forall|r: int, c: int|
            1 <= r < s.size() && 1 <= c < s.size() && #[trigger] s.mask[r][c] == STAR
                ==> s.row_cover[r] != s.column_cover[c],
        forall|r: int, p: int|
            1 <= r < s.size() && 1 <= p < s.size() && #[trigger] s.mask[r][p] == PRIME
                ==> s.row_cover[r],
        marked(s.mask, s2.mask, zr, zc, PRIME),
    ensures
        primed_from(s, s2),
{
    let n = s.size();
    assert(s.mask[zr][zc] == 0) by {
        assert(s.mask[zr][zc] == 0 || s.mask[zr][zc] == STAR || s.mask[zr][zc] == PRIME);
        if s.mask[zr][zc] == STAR {
            assert(s.row_cover[zr] != s.column_cover[zc]);
        }
        if s.mask[zr][zc] == PRIME {
            assert(s.row_cover[zr]);
        }
    }
    assert forall|i: int, j: int| 0 <= i < n && 0 <= j < n implies #[trigger] s2.mask[i][j]
        == s.mask[i][j] || (i >= 1 && j >= 1 && s2.mask[i][j] == PRIME && s.mask[i][j] == 0
        && s.array[i][j] == 0) by {
        if i != zr {
            assert(s2.mask[i] == s.mask[i]);
        }
    }
}

/// Priming an uncovered zero whose row holds a star, covering that row and
/// uncovering the star's column keeps what holds of the state.
pub(crate) proof fn lemma_prime_covers(
    cost: Seq<Seq<int>>,
    s: State,
    s2: State,
    u: Seq<int>,
    v: Seq<int>,
    rank: Seq<int>,
    t: int,
    zr: int,
    zc: int,
    sc: int,
)
    requires
        core_inv(cost, s, u, v),
        stage_inv(s, rank, t),
        1 <= zr < s.size(),
        1 <= zc < s.size(),
        1 <= sc < s.size(),
        uncovered_zero(s.array, s.row_cover@, s.column_cover@, zr, zc),
        s2.array == s.array,
        s2.path == s.path,
        marked(s.mask, s2.mask, zr, zc, PRIME),
        s2.mask[zr][sc] == STAR,
        s2.row_cover@ == s.row_cover@.update(zr, true),
        s2.column_cover@ == s.column_cover@.update(sc, false),
    ensures
        core_inv(cost, s2, u, v),
        stage_inv(s2, rank.update(zr, t), t + 1),
        same_stars(s.mask, s2.mask),
        covered_count(s2.row_cover@) == covered_count(s.row_cover@) + 1,
        primed_from(s, s2),
{
    let n = s.size();
    let rank2 = rank.update(zr, t);
    lemma_marked_prime(s, s2, zr, zc);
    assert(s.mask[zr][zc] != STAR) by {
        if s.mask[zr][zc] == STAR {
            assert(s.row_cover[zr] != s.column_cover[zc]);
        }
    }
    assert forall|i: int, j: int| 1 <= i < n && 1 <= j < n implies (#[trigger] s.mask[i][j] == STAR)
        == (s2.mask[i][j] == STAR) by {
        if i != zr {
            assert(s2.mask[i] == s.mask[i]);
        }
    }
    lemma_same_stars(s.mask, s2.mask);
    lemma_covered_count_update(s.row_cover@, zr);
    assert(sc != zc);
    assert(s.mask[zr][sc] == STAR);
    assert forall|i: int, j: int|
        1 <= i < n && 1 <= j < n && #[trigger] s2.mask[i][j] == STAR implies s2.array[i][j] == 0 by {
        assert((s.mask[i][j] == STAR) == (s2.mask[i][j] == STAR));
    }
    assert forall|c: int| 1 <= c < n && !col_has(s2.mask, c, STAR) implies #[trigger] v[c] == 0 by {
        assert(col_has(s.mask, c, STAR) == col_has(s2.mask, c, STAR));
    }
    assert(mask_clean(s2.mask)) by {
        assert forall|i: int, j: int| 0 <= i < n && 0 <= j < n implies (#[trigger] s2.mask[i][j]
            == 0 || s2.mask[i][j] == STAR || s2.mask[i][j] == PRIME) && (i == 0 || j == 0
            ==> s2.mask[i][j] == 0) by {
            if i != zr {
                assert(s2.mask[i] == s.mask[i]);
            }
            assert(s.mask[i][j] == 0 || s.mask[i][j] == STAR || s.mask[i][j] == PRIME);
        }
    }
    assert(core_inv(cost, s2, u, v));
    assert forall|r: int, c: int|
        1 <= r < n && 1 <= c < n && #[trigger] s2.mask[r][c] == STAR implies s2.row_cover[r]
            != s2.column_cover[c] by {
        assert((s.mask[r][c] == STAR) == (s2.mask[r][c] == STAR));
        assert(s.row_cover[r] != s.column_cover[c]);
        if r == zr {
            assert(c == sc);
        } else if c == sc {
            assert(r == zr);
        }
    }
    assert forall|c: int| 1 <= c < n && #[trigger] s2.column_cover[c] implies col_has(
        s2.mask,
        c,
        STAR,
    ) by {
        assert(s.column_cover[c]);
        assert(col_has(s.mask, c, STAR) == col_has(s2.mask, c, STAR));
    }
    assert forall|r: int| 1 <= r < n && #[trigger] s2.row_cover[r] implies holds(s2.mask[r]@, STAR)
        && holds(s2.mask[r]@, PRIME) && 0 <= rank2[r] < t + 1 by {
        if r == zr {
            assert(s2.mask[zr]@[sc] == STAR);
            assert(s2.mask[zr]@[zc] == PRIME);
        } else {
            assert(s.row_cover[r]);
            assert(s2.mask[r] == s.mask[r]);
        }
    }
    assert forall|r: int, p: int|
        1 <= r < n && 1 <= p < n && #[trigger] s2.mask[r][p] == PRIME implies s2.row_cover[r]
            && !s2.column_cover[p] && s2.array[r][p] == 0 by {
        if r == zr && p == zc {
        } else {
            if r != zr {
                assert(s2.mask[r] == s.mask[r]);
            }
            assert(s.mask[r][p] == PRIME);
        }
    }
    assert forall|r: int, p: int, r2: int|
        #![trigger s2.mask[r][p], s2.mask[r2][p]]
        1 <= r < n && 1 <= p < n && 1 <= r2 < n && s2.mask[r][p] == PRIME && s2.mask[r2][p]
            == STAR implies rank2[r2] < rank2[r] by {
        assert((s.mask[r2][p] == STAR) == (s2.mask[r2][p] == STAR));
        if r == zr && p == zc {
            assert(s.row_cover[r2] != s.column_cover[p]);
            assert(s.row_cover[r2]);
        } else {
            if r != zr {
                assert(s2.mask[r] == s.mask[r]);
            }
            assert(s.mask[r][p] == PRIME);
            assert(!s.column_cover[p]);
            assert(s.row_cover[r2] != s.column_cover[p]);
            assert(s.row_cover[r2]);
            assert(s.row_cover[r]);
        }
    }
}

/// Priming an uncovered zero whose row holds no star makes it the head of an
/// alternating path.
pub(crate) proof fn lemma_prime_head(
    cost: Seq<Seq<int>>,
    s: State,
    s2: State,
    u: Seq<int>,
    v: Seq<int>,
    rank: Seq<int>,
    t: int,
    zr: int,
    zc: int,
)
    requires
        core_inv(cost, s, u, v),
        stage_inv(s, rank, t),
        1 <= zr < s.size(),
        1 <= zc < s.size(),
        uncovered_zero(s.array, s.row_cover@, s.column_cover@, zr, zc),
        s2.array == s.array,
        s2.path == s.path,
        marked(s.mask, s2.mask, zr, zc, PRIME),
        forall|j: int| 1 <= j < s.size() ==> #[trigger] s2.mask[zr][j] != STAR,
        s2.row_cover == s.row_cover,
        s2.column_cover == s.column_cover,
    ensures
        core_inv(cost, s2, u, v),
        head_ready(s2, rank.update(zr, t), zr, zc),
        same_stars(s.mask, s2.mask),
        primed_from(s, s2),
        forall|i: int|
            1 <= i < s.size() && #[trigger] s2.row_cover[i] ==> holds(s2.mask[i]@, STAR) && holds(
                s2.mask[i]@,
                PRIME,
            ),
        forall|r: int, c: int|
            1 <= r < s.size() && 1 <= c < s.size() && #[trigger] s2.mask[r][c] == STAR
                ==> s2.row_cover[r] != s2.column_cover[c],
        forall|c: int|
            1 <= c < s.size() && #[trigger] s2.column_cover[c] ==> col_has(s2.mask, c, STAR),
        primes_placed(s2, zr, zc),
{
    let n = s.size();
    let rank2 = rank.update(zr, t);
    lemma_marked_prime(s, s2, zr, zc);
    assert forall|r: int, p: int|
        1 <= r < n && 1 <= p < n && #[trigger] s2.mask[r][p] == PRIME implies !s2.column_cover[p]
        && s2.array[r][p] == 0 && (s2.row_cover[r] || (r == zr && p == zc)) by {
        if !(r == zr && p == zc) {
            if r != zr {
                assert(s2.mask[r] == s.mask[r]);
            }
            assert(s.mask[r][p] == PRIME);
        }
    }
    assert forall|i: int| 1 <= i < n && #[trigger] s2.row_cover[i] implies holds(s2.mask[i]@, STAR)
        && holds(s2.mask[i]@, PRIME) by {
        assert(s.row_cover[i]);
        assert(i != zr);
        assert(s2.mask[i] == s.mask[i]);
    }
    assert(s.mask[zr][zc] != STAR) by {
        if s.mask[zr][zc] == STAR {
            assert(s.row_cover[zr] != s.column_cover[zc]);
        }
    }
    assert forall|i: int, j: int| 1 <= i < n && 1 <= j < n implies (#[trigger] s.mask[i][j] == STAR)
        == (s2.mask[i][j] == STAR) by {
        if i != zr {
            assert(s2.mask[i] == s.mask[i]);
        }
    }
    lemma_same_stars(s.mask, s2.mask);
    assert forall|i: int, j: int|
        1 <= i < n && 1 <= j < n && #[trigger] s2.mask[i][j] == STAR implies s2.array[i][j] == 0 by {
        assert((s.mask[i][j] == STAR) == (s2.mask[i][j] == STAR));
    }
    assert forall|c: int| 1 <= c < n && !col_has(s2.mask, c, STAR) implies #[trigger] v[c] == 0 by {
        assert(col_has(s.mask, c, STAR) == col_has(s2.mask, c, STAR));
    }
    assert(mask_clean(s2.mask)) by {
        assert forall|i: int, j: int| 0 <= i < n && 0 <= j < n implies (#[trigger] s2.mask[i][j]
            == 0 || s2.mask[i][j] == STAR || s2.mask[i][j] == PRIME) && (i == 0 || j == 0
            ==> s2.mask[i][j] == 0) by {
            if i != zr {
                assert(s2.mask[i] == s.mask[i]);
            }
            assert(s.mask[i][j] == 0 || s.mask[i][j] == STAR || s.mask[i][j] == PRIME);
        }
    }
    assert(core_inv(cost, s2, u, v));
    assert(!holds(s2.mask[zr]@, STAR)) by {
        if holds(s2.mask[zr]@, STAR) {
            let j = choose|j: int| 1 <= j < s2.mask[zr]@.len() && #[trigger] s2.mask[zr]@[j] == STAR;
            assert(s2.mask[zr][j] != STAR);
        }
    }
    assert forall|r: int, p: int|
        1 <= r < n && 1 <= p < n && #[trigger] s2.mask[r][p] == PRIME implies s2.array[r][p] == 0 by {
        if r == zr && p == zc {
        } else {
            if r != zr {
                assert(s2.mask[r] == s.mask[r]);
            }
            assert(s.mask[r][p] == PRIME);
        }
    }
    assert forall|r: int, p: int, r2: int|
        #![trigger s2.mask[r][p], s2.mask[r2][p]]
        1 <= r < n && 1 <= p < n && 1 <= r2 < n && s2.mask[r][p] == PRIME && s2.mask[r2][p]
            == STAR implies holds(s2.mask[r2]@, PRIME) && 0 <= rank2[r2] < rank2[r] by {
        assert((s.mask[r2][p] == STAR) == (s2.mask[r2][p] == STAR));
        if r == zr && p == zc {
        } else {
            if r != zr {
                assert(s2.mask[r] == s.mask[r]);
            }
            assert(s.mask[r][p] == PRIME);
            assert(!s.column_cover[p]);
            assert(s.row_cover[r]);
        }
        assert(s.row_cover[r2] != s.column_cover[p]);
        assert(s.row_cover[r2]);
        assert(r2 != zr);
        assert(s2.mask[r2] == s.mask[r2]);
    }
}

/// The mask in which a head was found is where its path starts.
pub(crate) proof fn lemma_path_start(mask: Matrix<usize>, rank: Seq<int>, head: int, col: int)
    requires
        is_grid(mask, mask.len() as int, mask.len() as int),
        is_matching(mask),
        ranked(mask, rank),
        1 <= head < mask.len(),
        1 <= col < mask.len(),
        mask[head][col] == PRIME,
        !holds(mask[head]@, STAR),
    ensures
        path_inv(mask, mask, rank, head, head, col),
{
}

/// Starring the last primed zero of a path, in whose column no star stands,
/// ends the path.
pub(crate) proof fn lemma_path_end(
    m0: Matrix<usize>,
    m: Matrix<usize>,
    m1: Matrix<usize>,
    rank: Seq<int>,
    head: int,
    r: int,
    c: int,
)
    requires
        path_inv(m0, m, rank, head, r, c),
        forall|i: int| 1 <= i < m.len() ==> #[trigger] m[i][c] != STAR,
        marked(m, m1, r, c, STAR),
    ensures
        path_kept(m0, m1, head),
        m0[r][c] == PRIME,
        !col_has(m0, c, STAR),
        forall|x: int, y: int|
            0 <= x < m0.len() && 0 <= y < m0.len() ==> #[trigger] m1[x][y] == if x == r && y == c {
                STAR
            } else {
                m[x][y]
            },
{
    let n = m0.len() as int;
    assert(!col_has(m0, c, STAR)) by {
        if col_has(m0, c, STAR) {
            let x = choose|x: int| 1 <= x < m0.len() && #[trigger] m0[x][c] == STAR;
            assert(m[x][c] != STAR);
            assert(m[x][c] != m0[x][c]);
            assert(star_above(m0, rank, c, rank[r]));
            let w = choose|w: int| 1 <= w < m0.len() && #[trigger] m0[w][c] == STAR && rank[w] >= rank[r];
            assert(m0[r][c] == PRIME && m0[w][c] == STAR);
        }
    }
    assert forall|j: int| 1 <= j < n implies #[trigger] m[r][j] != STAR by {
        if m[r][j] == STAR {
            assert(m[r]@[j] == STAR);
            assert(holds(m[r]@, STAR));
        }
    }
    assert forall|x: int, y: int| 0 <= x < n && 0 <= y < n implies #[trigger] m1[x][y] == if x == r
        && y == c {
        STAR
    } else {
        m[x][y]
    } by {
        if x != r {
            assert(m1[x] == m[x]);
        }
    }
    assert(turned_from(m0, m1)) by {
        assert forall|x: int, y: int| 0 <= x < n && 0 <= y < n implies #[trigger] m1[x][y]
            == m0[x][y] || (x >= 1 && y >= 1 && (m1[x][y] == STAR || m1[x][y] == 0)) by {
            assert(m[x][y] == m0[x][y] || (x >= 1 && y >= 1 && (m[x][y] == STAR || m[x][y] == 0)));
        }
    }
    assert(is_matching(m1)) by {
        assert forall|x: int, c1: int, c2: int|
            #![trigger m1[x][c1], m1[x][c2]]
            1 <= x < n && 1 <= c1 < n && 1 <= c2 < n && m1[x][c1] == STAR && m1[x][c2]
                == STAR implies c1 == c2 by {
            if x == r {
                assert(m[r][c1] != STAR);
                assert(m[r][c2] != STAR);
            } else {
                assert(m[x][c1] == STAR && m[x][c2] == STAR);
            }
        }
        assert forall|r1: int, r2: int, y: int|
            #![trigger m1[r1][y], m1[r2][y]]
            1 <= r1 < n && 1 <= r2 < n && 1 <= y < n && m1[r1][y] == STAR && m1[r2][y]
                == STAR implies r1 == r2 by {
            if y == c {
                assert(m[r1][c] != STAR);
                assert(m[r2][c] != STAR);
            } else {
                assert(m[r1][y] == STAR && m[r2][y] == STAR);
            }
        }
    }
    assert forall|x: int, y: int|
        1 <= x < n && 1 <= y < n && #[trigger] m1[x][y] == STAR implies m0[x][y] == STAR
            || m0[x][y] == PRIME by {
        if !(x == r && y == c) {
            assert(m[x][y] == STAR);
        }
    }
    assert forall|x: int, y: int|
        1 <= x < n && 1 <= y < n && #[trigger] m1[x][y] == PRIME implies m0[x][y] == PRIME by {
        assert(m[x][y] == PRIME);
    }
    assert forall|x: int| 1 <= x < n implies #[trigger] holds(m1[x]@, STAR) == (holds(m0[x]@, STAR)
        || x == head) by {
        if x == r {
            assert(m1[r]@[c] == STAR);
        } else {
            assert(m1[x] == m[x]);
            assert(m[x] == m0[x] || (holds(m[x]@, STAR) && (holds(m0[x]@, STAR) || x == head)));
        }
    }
    assert forall|y: int| 1 <= y < n && #[trigger] col_has(m0, y, STAR) implies col_has(
        m1,
        y,
        STAR,
    ) by {
        assert(col_has(m, y, STAR));
        let x = choose|x: int| 1 <= x < m.len() && #[trigger] m[x][y] == STAR;
        assert(m1[x][y] == STAR);
    }
}

/// Starring a primed zero of a path and removing the star that stood in its
/// column leads to a primed zero in the row of that star.
pub(crate) proof fn lemma_path_next(
    m0: Matrix<usize>,
    m: Matrix<usize>,
    m1: Matrix<usize>,
    m2: Matrix<usize>,
    rank: Seq<int>,
    head: int,
    r: int,
    c: int,
    r2: int,
)
    requires
        path_inv(m0, m, rank, head, r, c),
        1 <= r2 < m.len(),
        m[r2][c] == STAR,
        marked(m, m1, r, c, STAR),
        marked(m1, m2, r2, c, 0),
    ensures
        holds(m2[r2]@, PRIME),
        0 <= rank[r2] < rank[r],
        m0[r][c] == PRIME,
        m0[r2][c] == STAR,
        forall|y: int|
            1 <= y < m0.len() ==> (#[trigger] m2[r2][y] == PRIME) == (m0[r2][y] == PRIME),
        forall|x: int, y: int|
            0 <= x < m0.len() && 0 <= y < m0.len() ==> #[trigger] m2[x][y] == if x == r && y == c {
                STAR
            } else if x == r2 && y == c {
                0
            } else {
                m[x][y]
            },
        forall|c2: int|
            1 <= c2 < m.len() && #[trigger] m2[r2][c2] == PRIME ==> path_inv(
                m0,
                m2,
                rank,
                head,
                r2,
                c2,
            ),
{
    let n = m0.len() as int;
    assert forall|j: int| 1 <= j < n implies #[trigger] m[r][j] != STAR by {
        if m[r][j] == STAR {
            assert(m[r]@[j] == STAR);
            assert(holds(m[r]@, STAR));
        }
    }
    assert(r2 != r);
    assert(m0[r2][c] == STAR) by {
        if m0[r2][c] != STAR {
            assert(m[r2][c] != m0[r2][c]);
            assert(star_above(m0, rank, c, rank[r]));
            let x = choose|x: int| 1 <= x < m0.len() && #[trigger] m0[x][c] == STAR && rank[x] >= rank[r];
            assert(m0[r][c] == PRIME && m0[x][c] == STAR);
        }
    }
    assert(m0[r][c] == PRIME && m0[r2][c] == STAR);
    assert(holds(m0[r2]@, PRIME) && 0 <= rank[r2] < rank[r]);
    assert(m[r2] == m0[r2]);
    assert(m1[r2] == m[r2]);
    assert forall|x: int, y: int| 0 <= x < n && 0 <= y < n implies #[trigger] m2[x][y] == if x == r
        && y == c {
        STAR
    } else if x == r2 && y == c {
        0
    } else {
        m[x][y]
    } by {
        if x != r2 {
            assert(m2[x] == m1[x]);
        }
        if x != r {
            assert(m1[x] == m[x]);
        }
    }
    assert(turned_from(m0, m2)) by {
        assert forall|x: int, y: int| 0 <= x < n && 0 <= y < n implies #[trigger] m2[x][y]
            == m0[x][y] || (x >= 1 && y >= 1 && (m2[x][y] == STAR || m2[x][y] == 0)) by {
            assert(m[x][y] == m0[x][y] || (x >= 1 && y >= 1 && (m[x][y] == STAR || m[x][y] == 0)));
        }
    }
    assert forall|y: int| 1 <= y < n implies (#[trigger] m2[r2][y] == PRIME) == (m0[r2][y]
        == PRIME) by {
        assert(m[r2][y] == m0[r2][y]);
    }
    let p = choose|p: int| 1 <= p < m0[r2]@.len() && #[trigger] m0[r2]@[p] == PRIME;
    assert(m2[r2]@[p] == PRIME) by {
        assert(m2[r2][p] == m[r2][p]);
    }
    assert(is_matching(m2)) by {
        assert forall|x: int, c1: int, c2: int|
            #![trigger m2[x][c1], m2[x][c2]]
            1 <= x < n && 1 <= c1 < n && 1 <= c2 < n && m2[x][c1] == STAR && m2[x][c2]
                == STAR implies c1 == c2 by {
            if x == r {
                assert(m[r][c1] != STAR);
                assert(m[r][c2] != STAR);
            } else {
                assert(m[x][c1] == STAR && m[x][c2] == STAR);
            }
        }
        assert forall|r1: int, r3: int, y: int|
            #![trigger m2[r1][y], m2[r3][y]]
            1 <= r1 < n && 1 <= r3 < n && 1 <= y < n && m2[r1][y] == STAR && m2[r3][y]
                == STAR implies r1 == r3 by {
            if y == c {
                if r1 != r {
                    assert(m[r1][c] == STAR && m[r2][c] == STAR);
                }
                if r3 != r {
                    assert(m[r3][c] == STAR && m[r2][c] == STAR);
                }
            } else {
                assert(m[r1][y] == STAR && m[r3][y] == STAR);
            }
        }
    }
    assert(!holds(m2[r2]@, STAR)) by {
        if holds(m2[r2]@, STAR) {
            let j = choose|j: int| 1 <= j < m2[r2]@.len() && #[trigger] m2[r2]@[j] == STAR;
            assert(m2[r2][j] == STAR);
            assert(m[r2][j] == STAR && m[r2][c] == STAR);
        }
    }
    assert(holds(m0[r2]@, STAR)) by {
        assert(m0[r2]@[c] == STAR);
    }
    assert(r2 != head);
    assert(holds(m2[head]@, STAR)) by {
        if r == head {
            assert(m2[r]@[c] == STAR) by {
                assert(m2[r][c] == STAR);
            }
        } else {
            assert(m2[head] == m1[head]);
            assert(m1[head] == m[head]);
        }
    }
    assert forall|x: int| 1 <= x < n && rank[x] < rank[r2] implies #[trigger] m2[x] == m0[x] by {
        assert(m[x] == m0[x]);
        assert(m1[x] == m[x]);
        assert(m2[x] == m1[x]);
    }
    assert forall|x: int, y: int|
        1 <= x < n && 1 <= y < n && #[trigger] m2[x][y] != m0[x][y] implies star_above(
            m0,
            rank,
            y,
            rank[r2],
        ) by {
        if m[x][y] != m0[x][y] {
            assert(star_above(m0, rank, y, rank[r]));
            let w = choose|w: int| 1 <= w < m0.len() && #[trigger] m0[w][y] == STAR && rank[w] >= rank[r];
            assert(m0[w][y] == STAR && rank[w] >= rank[r2]);
        } else {
            assert(y == c);
            assert(m0[r2][c] == STAR && rank[r2] >= rank[r2]);
        }
    }
    assert forall|x: int, y: int|
        1 <= x < n && 1 <= y < n && #[trigger] m2[x][y] == STAR implies m0[x][y] == STAR
            || m0[x][y] == PRIME by {
        if !(x == r && y == c) {
            assert(m[x][y] == STAR);
        }
    }
    assert forall|x: int, y: int|
        1 <= x < n && 1 <= y < n && #[trigger] m2[x][y] == PRIME implies m0[x][y] == PRIME by {
        assert(m[x][y] == PRIME);
    }
    assert forall|x: int| 1 <= x < n && x != r2 implies #[trigger] m2[x] == m0[x] || (holds(
        m2[x]@,
        STAR,
    ) && (holds(m0[x]@, STAR) || x == head)) by {
        if x == r {
            assert(m2[r][c] == STAR);
            assert(m2[r]@[c] == STAR);
        } else {
            assert(m2[x] == m1[x]);
            assert(m1[x] == m[x]);
            assert(m[x] == m0[x] || (holds(m[x]@, STAR) && (holds(m0[x]@, STAR) || x == head)));
        }
    }
    assert forall|y: int| 1 <= y < n && #[trigger] col_has(m0, y, STAR) implies col_has(
        m2,
        y,
        STAR,
    ) by {
        assert(col_has(m, y, STAR));
        let x = choose|x: int| 1 <= x < m.len() && #[trigger] m[x][y] == STAR;
        if y == c {
            assert(m2[r][c] == STAR);
        } else {
            assert(m2[x][y] == STAR);
        }
    }
    assert(m2[0] == m0[0]) by {
        assert(m2[0] == m1[0]);
        assert(m1[0] == m[0]);
    }
    assert forall|c2: int| 1 <= c2 < m.len() && #[trigger] m2[r2][c2] == PRIME implies path_inv(
        m0,
        m2,
        rank,
        head,
        r2,
        c2,
    ) by {
        assert(c2 != c);
        assert(m2[r2][c2] == m[r2][c2]);
        assert(m0[r2][c2] == PRIME);
    }
}

/// After the path is turned, the covers are cleared and the primes are
/// erased, one row more holds a star.
pub(crate) proof fn lemma_augmented(
    cost: Seq<Seq<int>>,
    s0: State,
    s1: State,
    u: Seq<int>,
    v: Seq<int>,
    turned: Matrix<usize>,
    head: int,
    col: int,
)
    requires
        core_inv(cost, s0, u, v),
        forall|r: int, p: int|
            1 <= r < s0.size() && 1 <= p < s0.size() && #[trigger] s0.mask[r][p] == PRIME
                ==> s0.array[r][p] == 0,
        1 <= head < s0.size(),
        !holds(s0.mask[head]@, STAR),
        path_done(s0.mask, turned, head, col),
        s1.wf(),
        s1.array == s0.array,
        forall|i: int, j: int|
            0 <= i < s0.size() && 0 <= j < s0.size() ==> #[trigger] s1.mask[i][j] == if i >= 1 && j
                >= 1 && turned[i][j] == PRIME {
                0
            } else {
                turned[i][j]
            },
    ensures
        core_inv(cost, s1, u, v),
        no_primes(s1.mask),
        star_count(s1.mask) == star_count(s0.mask) + 1,
{
    let n = s0.size();
    assert(mask_clean(s1.mask)) by {
        assert forall|i: int, j: int| 0 <= i < n && 0 <= j < n implies (#[trigger] s1.mask[i][j]
            == 0 || s1.mask[i][j] == STAR || s1.mask[i][j] == PRIME) && (i == 0 || j == 0
            ==> s1.mask[i][j] == 0) by {
            assert(turned[i][j] == s0.mask[i][j] || (i >= 1 && j >= 1 && (turned[i][j] == STAR
                || turned[i][j] == 0)));
            assert(s0.mask[i][j] == 0 || s0.mask[i][j] == STAR || s0.mask[i][j] == PRIME);
        }
    }
    assert forall|i: int, j: int| 1 <= i < n && 1 <= j < n implies (#[trigger] turned[i][j] == STAR)
        == (s1.mask[i][j] == STAR) by {}
    lemma_same_stars(turned, s1.mask);
    assert(star_rows(turned) =~= star_rows(s0.mask).update(head, true));
    lemma_covered_count_update(star_rows(s0.mask), head);
    assert forall|i: int, j: int|
        1 <= i < n && 1 <= j < n && #[trigger] s1.mask[i][j] == STAR implies s1.array[i][j] == 0 by {
        assert(turned[i][j] == STAR);
        assert(s0.mask[i][j] == STAR || s0.mask[i][j] == PRIME);
    }
    assert forall|c: int| 1 <= c < n && !col_has(s1.mask, c, STAR) implies #[trigger] v[c] == 0 by {
        assert(col_has(turned, c, STAR) == col_has(s1.mask, c, STAR));
        if col_has(s0.mask, c, STAR) {
            assert(col_has(turned, c, STAR));
        }
    }
}

/// Shifting the weights by the least uncovered value keeps what holds of the
/// state, with other numbers for the rows and columns, and leaves an
/// uncovered zero.
pub(crate) proof fn lemma_weights(
    cost: Seq<Seq<int>>,
    s0: State,
    s1: State,
    u: Seq<int>,
    v: Seq<int>,
    rank: Seq<int>,
    t: int,
    r0: int,
    c0: int,
) -> (out: (Seq<int>, Seq<int>))
    requires
        core_inv(cost, s0, u, v),
        stage_inv(s0, rank, t),
        1 <= r0 < s0.size(),
        !holds(s0.mask[r0]@, STAR),
        1 <= c0 < s0.size(),
        !col_has(s0.mask, c0, STAR),
        forall|i: int, j: int|
            1 <= i < s0.size() && 1 <= j < s0.size() ==> !#[trigger] uncovered_zero(
                s0.array,
                s0.row_cover@,
                s0.column_cover@,
                i,
                j,
            ),
        s1.mask == s0.mask,
        s1.path == s0.path,
        s1.row_cover == s0.row_cover,
        s1.column_cover == s0.column_cover,
        same_shape(s1.array, s0.array),
        is_least_uncovered(
            s0.array,
            s0.row_cover@,
            s0.column_cover@,
            least_uncovered(s0.array, s0.row_cover@, s0.column_cover@),
        ),
        forall|i: int, j: int|
            1 <= i < s0.size() && 1 <= j < s0.size() ==> #[trigger] s1.array[i][j] == shifted(
                s0.array[i][j],
                least_uncovered(s0.array, s0.row_cover@, s0.column_cover@),
                s0.row_cover[i],
                s0.column_cover[j],
            ),
    ensures
        core_inv(cost, s1, out.0, out.1),
        stage_inv(s1, rank, t),
        exists|i: int, j: int|
            1 <= i < s0.size() && 1 <= j < s0.size() && #[trigger] uncovered_zero(
                s1.array,
                s1.row_cover@,
                s1.column_cover@,
                i,
                j,
            ),
        exists|i: int, j: int|
            1 <= i < s0.size() && 1 <= j < s0.size() && #[trigger] s1.array[i][j]
                != s0.array[i][j],
{
    let n = s0.size();
    let rc = s0.row_cover@;
    let cc = s0.column_cover@;
    let m = least_uncovered(s0.array, rc, cc);
    assert(!rc[r0]);
    assert(!cc[c0]);
    let (mi, mj) = choose|i: int, j: int|
        1 <= i < s0.array.len() && 1 <= j < s0.array.len() && #[trigger] uncovered(rc, cc, i, j)
            && s0.array[i][j] == m;
    assert(!uncovered_zero(s0.array, rc, cc, mi, mj));
    assert(0 <= s0.array[mi][mj]);
    assert(m >= 1);
    assert forall|i: int, j: int| 1 <= i < n && 1 <= j < n implies #[trigger] s0.array[i][j] <= 2
        * limit() by {
        assert(0 <= cost[i][j] <= limit());
        assert(0 <= u[i]);
        assert(-limit() <= v[j]);
    }
    assert(uncovered(rc, cc, r0, c0));
    assert(m <= s0.array[r0][c0]);
    let u2 = Seq::new(
        n as nat,
        |i: int|
            if !rc[i] {
                u[i] + m
            } else {
                u[i]
            },
    );
    let v2 = Seq::new(
        n as nat,
        |j: int|
            if cc[j] {
                v[j] - m
            } else {
                v[j]
            },
    );
    assert forall|i: int, j: int| 1 <= i < n && 1 <= j < n implies #[trigger] s1.array[i][j]
        == cost[i][j] - u2[i] - v2[j] && 0 <= s1.array[i][j] by {
        assert(s1.array[i][j] == shifted(s0.array[i][j], m, rc[i], cc[j]));
        assert(s0.array[i][j] == cost[i][j] - u[i] - v[j]);
        assert(0 <= s0.array[i][j] <= 2 * limit());
        if !rc[i] && !cc[j] {
            assert(uncovered(rc, cc, i, j));
            assert(m <= s0.array[i][j]);
        }
    }
    assert forall|r: int| 1 <= r < n implies 0 <= #[trigger] u2[r] <= limit() by {
        assert(0 <= u[r] <= limit());
        if !rc[r] {
            assert(uncovered(rc, cc, r, c0));
            assert(m <= s0.array[r][c0]);
            assert(s0.array[r][c0] == cost[r][c0] - u[r] - v[c0]);
            assert(v[c0] == 0);
            assert(0 <= cost[r][c0] <= limit());
        }
    }
    assert forall|c: int| 1 <= c < n implies -limit() <= #[trigger] v2[c] <= 0 by {
        assert(-limit() <= v[c] <= 0);
        if cc[c] {
            assert(s0.column_cover[c]);
            assert(col_has(s0.mask, c, STAR));
            let x = choose|x: int| 1 <= x < s0.mask.len() && #[trigger] s0.mask[x][c] == STAR;
            assert(s0.row_cover[x] != s0.column_cover[c]);
            assert(s0.array[x][c] == 0);
            assert(s0.array[x][c] == cost[x][c] - u[x] - v[c]);
            assert(0 <= u2[x] <= limit());
            assert(0 <= cost[x][c] <= limit());
        }
    }
    assert forall|c: int| 1 <= c < n && !col_has(s1.mask, c, STAR) implies #[trigger] v2[c] == 0 by {
        assert(v[c] == 0);
        if cc[c] {
            assert(s0.column_cover[c]);
        }
    }
    assert forall|i: int, j: int|
        1 <= i < n && 1 <= j < n && #[trigger] s1.mask[i][j] == STAR implies s1.array[i][j] == 0 by {
        assert(s0.row_cover[i] != s0.column_cover[j]);
        assert(s0.array[i][j] == 0);
        assert(s1.array[i][j] == shifted(s0.array[i][j], m, rc[i], cc[j]));
    }
    assert(core_inv(cost, s1, u2, v2));
    assert forall|r: int, p: int|
        1 <= r < n && 1 <= p < n && #[trigger] s1.mask[r][p] == PRIME implies s1.row_cover[r]
            && !s1.column_cover[p] && s1.array[r][p] == 0 by {
        assert(s0.mask[r][p] == PRIME);
        assert(s1.array[r][p] == shifted(s0.array[r][p], m, rc[r], cc[p]));
    }
    assert(stage_inv(s1, rank, t));
    assert(s1.array[mi][mj] == shifted(s0.array[mi][mj], m, rc[mi], cc[mj]));
    assert(uncovered_zero(s1.array, s1.row_cover@, s1.column_cover@, mi, mj));
    assert(s1.array[mi][mj] != s0.array[mi][mj]);
    (u2, v2)
}

/// With the head in entry 1 of the buffer, the path so far is the head, and
/// nothing is turned yet.
pub(crate) proof fn lemma_exact_start(
    m0: Matrix<usize>,
    older: Matrix<usize>,
    newer: Matrix<usize>,
    row: int,
    col: int,
)
    requires
        1 <= row < m0.len(),
        1 <= col < m0.len(),
        m0[row][col] == PRIME,
        1 <= older.len(),
        recorded(older, newer, 1, row, col),
    ensures
        is_path(m0, newer, row, col, 1),
        turned_along(m0, m0, newer, 0),
        buffer_kept(older, newer, 1),
{
    assert(prime_at(m0, newer, 1));
    assert forall|x: int, y: int| 0 <= x < m0.len() && 0 <= y < m0.len() implies !on_path(
        newer,
        0,
        x,
        y,
    ) by {}
}

/// Two entries more in the buffer, the star in the column of the last prime
/// and the first prime in the row of that star, and the last prime and that
/// star turned, carry the path on.
pub(crate) proof fn lemma_exact_step(
    m0: Matrix<usize>,
    m: Matrix<usize>,
    m2: Matrix<usize>,
    older: Matrix<usize>,
    p: Matrix<usize>,
    pa: Matrix<usize>,
    pb: Matrix<usize>,
    row: int,
    col: int,
    count: int,
    r: int,
    c: int,
    r2: int,
    c2: int,
)
    requires
        is_path(m0, p, row, col, count),
        path_row(p, count) == r,
        path_col(p, count) == c,
        turned_along(m0, m, p, count - 1),
        buffer_kept(older, p, count),
        recorded(p, pa, count + 1, r2, c),
        recorded(pa, pb, count + 2, r2, c2),
        m0[r][c] == PRIME,
        1 <= r2 < m0.len(),
        m0[r2][c] == STAR,
        m0[r2].len() == m0.len(),
        first_prime(m0[r2]@, c2),
        forall|x: int, y: int|
            0 <= x < m0.len() && 0 <= y < m0.len() ==> #[trigger] m2[x][y] == if x == r && y == c {
                STAR
            } else if x == r2 && y == c {
                0
            } else {
                m[x][y]
            },
    ensures
        is_path(m0, pb, row, col, count + 2),
        path_row(pb, count + 2) == r2,
        path_col(pb, count + 2) == c2,
        turned_along(m0, m2, pb, count + 1),
        buffer_kept(older, pb, count + 2),
{
    let n = m0.len() as int;
    assert forall|k: int| 0 <= k <= count implies #[trigger] pb[k] == p[k] by {
        assert(pa[k] == p[k]);
        assert(pb[k] == pa[k]);
    }
    assert(pb[count + 1] == pa[count + 1]);
    assert(path_row(pb, count + 1) == r2 && path_col(pb, count + 1) == c);
    assert(prime_at(m0, p, count));
    assert forall|k: int| 1 <= k <= count + 2 && k % 2 == 1 implies #[trigger] prime_at(
        m0,
        pb,
        k,
    ) by {
        if k <= count {
            assert(prime_at(m0, p, k));
            assert(pb[k] == p[k]);
        }
    }
    assert forall|k: int| 2 <= k < count + 2 && k % 2 == 0 implies #[trigger] star_at(m0, pb, k) by {
        if k < count {
            assert(star_at(m0, p, k));
            assert(pb[k] == p[k]);
            assert(pb[k - 1] == p[k - 1]);
            assert(pb[k + 1] == p[k + 1]);
        } else {
            assert(k == count + 1);
            assert(pb[count] == p[count]);
        }
    }
    assert(pb[1] == p[1]);
    assert forall|x: int, y: int| 0 <= x < n && 0 <= y < n implies #[trigger] m2[x][y] == if on_path(
        pb,
        count + 1,
        x,
        y,
    ) {
        if m0[x][y] == PRIME {
            STAR
        } else {
            0
        }
    } else {
        m0[x][y]
    } by {
        assert(m[x][y] == if on_path(p, count - 1, x, y) {
            if m0[x][y] == PRIME {
                STAR
            } else {
                0
            }
        } else {
            m0[x][y]
        });
        if x == r && y == c {
            assert(pb[count] == p[count]);
            assert(path_row(pb, count) == x && path_col(pb, count) == y);
        } else if x == r2 && y == c {
            assert(path_row(pb, count + 1) == x && path_col(pb, count + 1) == y);
        } else {
            if on_path(p, count - 1, x, y) {
                let k = choose|k: int|
                    1 <= k <= count - 1 && path_row(p, k) == x && #[trigger] path_col(p, k) == y;
                assert(pb[k] == p[k]);
                assert(path_row(pb, k) == x && path_col(pb, k) == y);
            }
            if on_path(pb, count + 1, x, y) {
                let k = choose|k: int|
                    1 <= k <= count + 1 && path_row(pb, k) == x && #[trigger] path_col(pb, k) == y;
                if k <= count {
                    assert(pb[k] == p[k]);
                }
                assert(k <= count - 1);
                assert(path_row(p, k) == x && path_col(p, k) == y);
            }
        }
    }
    assert forall|i: int| 0 <= i < older.len() && (i == 0 || i > count + 2) implies #[trigger] pb[i]
        == older[i] by {
        assert(p[i] == older[i]);
        assert(pa[i] == p[i]);
        assert(pb[i] == pa[i]);
    }
    assert forall|k: int| 1 <= k <= count + 2 implies (#[trigger] pb[k])[0] == if k < older.len() {
        older[k][0]
    } else {
        0
    } by {
        if k <= count {
            assert(pb[k] == p[k]);
            assert(p[k][0] == if k < older.len() {
                older[k][0]
            } else {
                0
            });
        } else if k == count + 1 {
            assert(pb[k] == pa[k]);
            if k < p.len() {
                assert(p[k] == older[k]);
            }
        } else {
            if k < pa.len() {
                if k < p.len() {
                    assert(pa[k] == p[k]);
                    assert(p[k] == older[k]);
                }
            }
        }
    }
}

/// Where the column of the last prime holds no star, turning that prime ends
/// the path: the mask is the one before with exactly the cells of the path
/// turned.
pub(crate) proof fn lemma_exact_end(
    m0: Matrix<usize>,
    m: Matrix<usize>,
    m1: Matrix<usize>,
    older: Matrix<usize>,
    p: Matrix<usize>,
    row: int,
    col: int,
    count: int,
    r: int,
    c: int,
)
    requires
        is_path(m0, p, row, col, count),
        path_row(p, count) == r,
        path_col(p, count) == c,
        turned_along(m0, m, p, count - 1),
        buffer_kept(older, p, count),
        m0[r][c] == PRIME,
        !col_has(m0, c, STAR),
        1 <= row < m0.len(),
        1 <= col < m0.len(),
        forall|x: int, y: int|
            0 <= x < m0.len() && 0 <= y < m0.len() ==> #[trigger] m1[x][y] == if x == r && y == c {
                STAR
            } else {
                m[x][y]
            },
    ensures
        path_ends(m0, older, m1, p, row, col, count),
        path_exact(m0, older, m1, p, row, col),
        m1[row][col] == STAR,
        forall|x: int, y: int|
            0 <= x < m0.len() && 0 <= y < m0.len() && #[trigger] m1[x][y] != m0[x][y] ==> x >= 1
                && y >= 1 && ((m0[x][y] == PRIME && m1[x][y] == STAR) || (m0[x][y] == STAR
                && m1[x][y] == 0)),
        forall|x: int, y: int|
            1 <= x < m0.len() && 1 <= y < m0.len() && x != row && m0[x][y] == PRIME
                && #[trigger] m1[x][y] == STAR ==> first_prime(m0[x]@, y),
{
    let n = m0.len() as int;
    assert(prime_at(m0, p, count));
    assert(prime_at(m0, p, 1));
    assert forall|x: int, y: int| 0 <= x < n && 0 <= y < n implies #[trigger] m1[x][y] == if on_path(
        p,
        count,
        x,
        y,
    ) {
        if m0[x][y] == PRIME {
            STAR
        } else {
            0
        }
    } else {
        m0[x][y]
    } by {
        assert(m[x][y] == if on_path(p, count - 1, x, y) {
            if m0[x][y] == PRIME {
                STAR
            } else {
                0
            }
        } else {
            m0[x][y]
        });
        if x == r && y == c {
            assert(path_row(p, count) == x && path_col(p, count) == y);
        } else {
            if on_path(p, count - 1, x, y) {
                let k = choose|k: int|
                    1 <= k <= count - 1 && path_row(p, k) == x && #[trigger] path_col(p, k) == y;
                assert(path_row(p, k) == x && path_col(p, k) == y);
            }
            if on_path(p, count, x, y) {
                let k = choose|k: int|
                    1 <= k <= count && path_row(p, k) == x && #[trigger] path_col(p, k) == y;
                assert(k <= count - 1);
                assert(path_row(p, k) == x && path_col(p, k) == y);
            }
        }
    }
    assert(turned_along(m0, m1, p, count));
    assert forall|k: int| 1 <= k <= count && k % 2 == 1 implies (k < count) == col_has(
        m0,
        #[trigger] path_col(p, k),
        STAR,
    ) by {
        if k < count {
            assert(star_at(m0, p, k + 1));
            assert(m0[path_row(p, k + 1)][path_col(p, k)] == STAR);
        }
    }
    assert(path_ends(m0, older, m1, p, row, col, count));
    assert(m1[row][col] == STAR) by {
        assert(path_row(p, 1) == row && path_col(p, 1) == col);
        assert(on_path(p, count, row, col));
    }
    assert forall|x: int, y: int|
        0 <= x < n && 0 <= y < n && #[trigger] m1[x][y] != m0[x][y] implies x >= 1 && y >= 1 && ((
    m0[x][y] == PRIME && m1[x][y] == STAR) || (m0[x][y] == STAR && m1[x][y] == 0)) by {
        assert(on_path(p, count, x, y));
        let k = choose|k: int|
            1 <= k <= count && path_row(p, k) == x && #[trigger] path_col(p, k) == y;
        if k % 2 == 1 {
            assert(prime_at(m0, p, k));
        } else {
            assert(star_at(m0, p, k));
        }
    }
    assert forall|x: int, y: int|
        1 <= x < n && 1 <= y < n && x != row && m0[x][y] == PRIME && #[trigger] m1[x][y]
            == STAR implies first_prime(m0[x]@, y) by {
        assert(m1[x][y] != m0[x][y]);
        assert(on_path(p, count, x, y));
        let k = choose|k: int|
            1 <= k <= count && path_row(p, k) == x && #[trigger] path_col(p, k) == y;
        if k % 2 == 1 {
            assert(k != 1);
            assert(star_at(m0, p, k - 1));
        } else {
            assert(star_at(m0, p, k));
        }
    }
}

} // verus!
