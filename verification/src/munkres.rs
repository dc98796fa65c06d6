//! The assignment problem on a square cost matrix, solved by the method of
//! Munkres: zeros of a reduced matrix are starred until every column holds a
//! starred zero.
//!
//! Every matrix keeps row 0 and column 0 unused: the rows and columns that
//! count are `1..size`.

use vstd::prelude::*;
use std::collections::HashMap;
use crate::assignment::{is_square, is_assignment, is_optimal, assignment_cost, chosen_costs,
    reaches};
use crate::sums::total;
use crate::invariants::{limit, holds, col_has, is_matching, same_stars, no_primes,
    mask_clean,
    star_count, star_rows, core_inv, stage_inv, ranked, head_ready, path_inv, path_done,
    lemma_same_stars, lemma_same_stars_chain, lemma_unstarred_row, lemma_all_rows_starred, lemma_terminal,
    lemma_stage_start, lemma_prime_covers, lemma_prime_head, lemma_path_start, lemma_path_end,
    lemma_path_next, lemma_augmented, lemma_weights, lemma_primed_chain, lemma_exact_start,
    lemma_exact_step, lemma_exact_end, covers_kept, primed_from, path_exact, is_path, path_row,
    path_col, turned_along, buffer_kept, recorded, first_prime, primes_placed};

verus! {

/// The cost that stands for "no connection".
pub const MAX: i32 = 1000000;

/// Mask value of a starred zero.
pub const STAR: usize = 1;

/// Mask value of a primed zero.
pub const PRIME: usize = 2;

/// What a search returns when it finds nothing.
pub const NOT_FOUND: usize = 0;

/// The width of a row of the path buffer: slot `STAR` holds a row, slot
/// `PRIME` a column.
pub const NODE_TYPES: usize = 3;

/// One value for each row, or for each column.
pub type Column<T> = Vec<T>;

/// Rows of values.
pub type Matrix<T> = Vec<Vec<T>>;

/// `m` has `rows` rows of `cols` entries each.
pub open spec fn is_grid<T>(m: Matrix<T>, rows: int, cols: int) -> bool {
    &&& m.len() == rows
    &&& forall|i: int| 0 <= i < rows ==> (#[trigger] m[i]).len() == cols
}

/// The entries of `array` as integers.
pub open spec fn int_entries(array: Matrix<i32>) -> Seq<Seq<int>> {
    Seq::new(array.len() as nat, |i: int| Seq::new(array[i].len() as nat, |j: int| array[i][j] as int))
}

/// `a` and `b` have as many rows, and as many entries in each.
pub open spec fn same_shape<S, T>(a: Matrix<S>, b: Matrix<T>) -> bool {
    &&& a.len() == b.len()
    &&& forall|i: int| 0 <= i < a.len() ==> (#[trigger] a[i]).len() == b[i].len()
}

/// `x` is a clone of a value that `T::default()` may return.
pub open spec fn is_default_cell<T: Default + Clone>(x: T) -> bool {
    exists|d: T| call_ensures(T::default, (), d) && cloned(d, x)
}

/// A matrix of `rows` by `cols` default values.
pub fn matrix<T: Default + Clone>(rows: usize, cols: usize) -> (m: Matrix<T>)
    ensures
        is_grid(m, rows as int, cols as int),
        forall|i: int, j: int|
            0 <= i < rows && 0 <= j < cols ==> is_default_cell(#[trigger] m[i][j]),
{
    let mut m: Matrix<T> = Vec::new();
    let mut i: usize = 0;
    while i < rows
        invariant
            i <= rows,
            is_grid(m, i as int, cols as int),
            forall|a: int, b: int| 0 <= a < i && 0 <= b < cols ==> is_default_cell(#[trigger] m[a][b]),
        decreases rows - i,
    {
        let d = T::default();
        let row: Vec<T> = vec![d; cols];
        m.push(row);
        i += 1;
    }
    m
}

/// A square matrix of default values.
pub fn square<T: Default + Clone>(size: usize) -> (m: Matrix<T>)
    ensures
        is_grid(m, size as int, size as int),
        forall|i: int, j: int|
            0 <= i < size && 0 <= j < size ==> is_default_cell(#[trigger] m[i][j]),
{
    matrix(size, size)
}

/// The working state of one run of the solver.
#[derive(Debug)]
pub struct State {
    /// The cells visited by the last alternating path, from row 1 on.
    pub path: Matrix<usize>,
    /// For each cell `0`, `STAR` or `PRIME`.
    pub mask: Matrix<usize>,
    /// The reduced costs.
    pub array: Matrix<i64>,
    /// For each row whether it is covered.
    pub row_cover: Column<bool>,
    /// For each column whether it is covered.
    pub column_cover: Column<bool>,
}

impl State {
    /// The number of rows of the working matrix, the unused row 0 included.
    pub open spec fn size(&self) -> int {
        self.array.len() as int
    }

    /// All parts of the state have the dimensions that belong to one square
    /// matrix.
    pub open spec fn wf(&self) -> bool {
        let n = self.array.len() as int;
        &&& is_grid(self.array, n, n)
        &&& is_grid(self.mask, n, n)
        &&& self.path.len() >= n
        &&& is_grid(self.path, self.path.len() as int, NODE_TYPES as int)
        &&& self.row_cover.len() == n
        &&& self.column_cover.len() == n
    }

    /// A state that holds the costs of `array`, with nothing starred, primed
    /// or covered.
    pub fn new(array: Matrix<i32>) -> (s: State)
        ensures
            same_shape(s.array, array),
            forall|i: int, j: int|
                0 <= i < array.len() && 0 <= j < array[i].len() ==> #[trigger] s.array[i][j]
                    == array[i][j],
            is_grid(s.mask, array.len() as int, array.len() as int),
            forall|i: int, j: int|
                0 <= i < array.len() && 0 <= j < array.len() ==> #[trigger] s.mask[i][j] == 0,
            is_grid(s.path, array.len() as int, NODE_TYPES as int),
            forall|i: int, j: int|
                0 <= i < array.len() && 0 <= j < NODE_TYPES ==> #[trigger] s.path[i][j] == 0,
            s.row_cover.len() == array.len(),
            s.column_cover.len() == array.len(),
            forall|i: int| 0 <= i < array.len() ==> !#[trigger] s.row_cover[i],
            forall|i: int| 0 <= i < array.len() ==> !#[trigger] s.column_cover[i],
            is_grid(array, array.len() as int, array.len() as int) ==> s.wf(),
    {
        let size = array.len();
        let path: Matrix<usize> = matrix(size, NODE_TYPES);
        let mask: Matrix<usize> = square(size);
        assert forall|i: int, j: int| 0 <= i < size && 0 <= j < NODE_TYPES implies #[trigger] path[i][j]
            == 0 by {
            assert(is_default_cell(path[i][j]));
        }
        assert forall|i: int, j: int| 0 <= i < size && 0 <= j < size implies #[trigger] mask[i][j]
            == 0 by {
            assert(is_default_cell(mask[i][j]));
        }
        let mut wide: Matrix<i64> = Vec::new();
        let mut i: usize = 0;
        while i < size
            invariant
                i <= size,
                size == array.len(),
                wide.len() == i,
                forall|a: int| 0 <= a < i ==> (#[trigger] wide[a]).len() == array[a].len(),
                forall|a: int, b: int|
                    0 <= a < i && 0 <= b < array[a].len() ==> #[trigger] wide[a][b] == array[a][b],
            decreases size - i,
        {
            let width = array[i].len();
            let mut row: Vec<i64> = Vec::new();
            let mut j: usize = 0;
            while j < width
                invariant
                    i < size,
                    size == array.len(),
                    width == array[i as int].len(),
                    j <= width,
                    row.len() == j,
                    forall|b: int| 0 <= b < j ==> #[trigger] row[b] == array[i as int][b],
                decreases width - j,
            {
                row.push(array[i][j] as i64);
                j += 1;
            }
            wide.push(row);
            i += 1;
        }
        State {
            array: wide,
            path,
            mask,
            row_cover: vec![false; size],
            column_cover: vec![false; size],
        }
    }
}

/// The least value of row `row`.
pub fn row_min(array: &Matrix<i64>, row: usize) -> (min: i64)
    requires
        is_grid(*array, array.len() as int, array.len() as int),
        1 <= row < array.len(),
    ensures
        exists|j: int| 1 <= j < array.len() && array[row as int][j] == min,
        forall|j: int| 1 <= j < array.len() ==> min <= #[trigger] array[row as int][j],
{
    let size = array.len();
    let mut min: i64 = array[row][1];
    let mut i: usize = 2;
    while i < size
        invariant
            2 <= i <= size,
            size == array.len(),
            1 <= row < size,
            is_grid(*array, size as int, size as int),
            exists|j: int| 1 <= j < i && array[row as int][j] == min,
            forall|j: int| 1 <= j < i ==> min <= #[trigger] array[row as int][j],
        decreases size - i,
    {
        if min > array[row][i] {
            min = array[row][i];
        }
        i += 1;
    }
    min
}

/// Takes `num` from every value of row `row`.
pub fn subtract_row(array: &mut Matrix<i64>, row: usize, num: i64)
    requires
        is_grid(*old(array), old(array).len() as int, old(array).len() as int),
        1 <= row < old(array).len(),
        forall|j: int|
            1 <= j < old(array).len() ==> i64::MIN <= (#[trigger] old(array)[row as int][j]) - num
                <= i64::MAX,
    ensures
        same_shape(*final(array), *old(array)),
        forall|i: int, j: int|
            0 <= i < old(array).len() && 0 <= j < old(array).len() ==> #[trigger] final(array)[i][j] == if i == row && j >= 1 {
                old(array)[i][j] - num
            } else {
                old(array)[i][j] as int
            },
{
    let size = array.len();
    let ghost before = *array;
    let mut i: usize = 1;
    while i < size
        invariant
            1 <= i <= size,
            size == before.len(),
            1 <= row < size,
            is_grid(before, size as int, size as int),
            same_shape(*array, before),
            forall|j: int|
                1 <= j < size ==> i64::MIN <= (#[trigger] before[row as int][j]) - num <= i64::MAX,
            forall|a: int, b: int|
                0 <= a < size && 0 <= b < size ==> #[trigger] array[a][b] == if a == row && 1 <= b
                    < i {
                    before[a][b] - num
                } else {
                    before[a][b] as int
                },
        decreases size - i,
    {
        array[row][i] = array[row][i] - num;
        i += 1;
    }
}

/// Covers column `col`.
pub fn cover_column(column_cover: &mut Column<bool>, col: usize)
    requires
        col < old(column_cover).len(),
    ensures
        final(column_cover)@ == old(column_cover)@.update(col as int, true),
{
    column_cover[col] = true;
}

/// Stars the cell if it holds a zero and neither its row nor its column is
/// covered, and then covers both.
pub fn cover(state: &mut State, row: usize, col: usize)
    requires
        old(state).wf(),
        row < old(state).size(),
        col < old(state).size(),
    ensures
        final(state).wf(),
        final(state).array == old(state).array,
        final(state).path == old(state).path,
        old(state).array[row as int][col as int] == 0 && !old(state).row_cover[row as int]
            && !old(state).column_cover[col as int] ==> {
            &&& forall|i: int, j: int|
                0 <= i < old(state).size() && 0 <= j < old(state).size() ==> #[trigger] final(state).mask[i][j] == if i == row && j == col {
                    STAR
                } else {
                    old(state).mask[i][j]
                }
            &&& final(state).row_cover@ == old(state).row_cover@.update(row as int, true)
            &&& final(state).column_cover@ == old(state).column_cover@.update(col as int, true)
        },
        !(old(state).array[row as int][col as int] == 0 && !old(state).row_cover[row as int]
            && !old(state).column_cover[col as int]) ==> *final(state) == *old(state),
{
    if state.array[row][col] == 0 && !state.row_cover[row] && !state.column_cover[col] {
        state.mask[row][col] = STAR;
        state.row_cover[row] = true;
        state.column_cover[col] = true;
    }
}

/// The cell holds a zero, and neither its row nor its column is covered.
pub open spec fn uncovered_zero(
    array: Matrix<i64>,
    row_cover: Seq<bool>,
    column_cover: Seq<bool>,
    i: int,
    j: int,
) -> bool {
    array[i][j] == 0 && !row_cover[i] && !column_cover[j]
}

/// The first uncovered zero, rows before columns, or `(0, 0)` where there is
/// none.
pub fn find_zero(array: &Matrix<i64>, row_cover: &Column<bool>, column_cover: &Column<bool>) -> (z:
    (usize, usize))
    requires
        is_grid(*array, array.len() as int, array.len() as int),
        row_cover.len() == array.len(),
        column_cover.len() == array.len(),
    ensures
        z.0 == 0 ==> z.1 == 0 && forall|i: int, j: int|
            1 <= i < array.len() && 1 <= j < array.len() ==> !#[trigger] uncovered_zero(
                *array,
                row_cover@,
                column_cover@,
                i,
                j,
            ),
        z.0 != 0 ==> {
            &&& 1 <= z.0 < array.len()
            &&& 1 <= z.1 < array.len()
            &&& uncovered_zero(*array, row_cover@, column_cover@, z.0 as int, z.1 as int)
            &&& forall|i: int, j: int|
                1 <= i < array.len() && 1 <= j < array.len() && #[trigger] uncovered_zero(
                    *array,
                    row_cover@,
                    column_cover@,
                    i,
                    j,
                ) ==> z.0 < i || (z.0 == i && z.1 <= j)
        },
{
    let size = array.len();
    let mut i: usize = 1;
    while i < size
        invariant
            1 <= i,
            size == array.len(),
            is_grid(*array, size as int, size as int),
            row_cover.len() == size,
            column_cover.len() == size,
            forall|a: int, b: int|
                1 <= a < i && 1 <= b < size ==> !#[trigger] uncovered_zero(
                    *array,
                    row_cover@,
                    column_cover@,
                    a,
                    b,
                ),
        decreases size - i,
    {
        let mut j: usize = 1;
        while j < size
            invariant
                1 <= i < size,
                1 <= j <= size,
                size == array.len(),
                is_grid(*array, size as int, size as int),
                row_cover.len() == size,
                column_cover.len() == size,
                forall|a: int, b: int|
                    1 <= a < i && 1 <= b < size ==> !#[trigger] uncovered_zero(
                        *array,
                        row_cover@,
                        column_cover@,
                        a,
                        b,
                    ),
                forall|b: int|
                    1 <= b < j ==> !#[trigger] uncovered_zero(
                        *array,
                        row_cover@,
                        column_cover@,
                        i as int,
                        b,
                    ),
            decreases size - j,
        {
            if array[i][j] == 0 && !row_cover[i] && !column_cover[j] {
                return (i, j);
            }
            j += 1;
        }
        i += 1;
    }
    (0, 0)
}

/// The first column in which row `row` of the mask holds `val`, or
/// `NOT_FOUND`.
pub fn get_row_mask(mask: &Matrix<usize>, row: usize, val: usize) -> (col: usize)
    requires
        is_grid(*mask, mask.len() as int, mask.len() as int),
        row < mask.len(),
    ensures
        col == NOT_FOUND ==> forall|j: int|
            1 <= j < mask.len() ==> #[trigger] mask[row as int][j] != val,
        col != NOT_FOUND ==> {
            &&& 1 <= col < mask.len()
            &&& mask[row as int][col as int] == val
            &&& forall|j: int| 1 <= j < col ==> #[trigger] mask[row as int][j] != val
        },
{
    let size = mask.len();
    let mut i: usize = 1;
    while i < size
        invariant
            1 <= i <= size,
            size == mask.len(),
            row < size,
            is_grid(*mask, size as int, size as int),
            forall|j: int| 1 <= j < i ==> #[trigger] mask[row as int][j] != val,
        decreases size - i,
    {
        if mask[row][i] == val {
            return i;
        }
        i += 1;
    }
    NOT_FOUND
}

/// The first row in which column `col` of the mask holds `val`, or
/// `NOT_FOUND`.
pub fn get_col_mask(mask: &Matrix<usize>, col: usize, val: usize) -> (row: usize)
    requires
        is_grid(*mask, mask.len() as int, mask.len() as int),
        col < mask.len(),
    ensures
        row == NOT_FOUND ==> forall|i: int|
            1 <= i < mask.len() ==> #[trigger] mask[i][col as int] != val,
        row != NOT_FOUND ==> {
            &&& 1 <= row < mask.len()
            &&& mask[row as int][col as int] == val
            &&& forall|i: int| 1 <= i < row ==> #[trigger] mask[i][col as int] != val
        },
{
    let size = mask.len();
    let mut i: usize = 1;
    while i < size
        invariant
            1 <= i <= size,
            size == mask.len(),
            col < size,
            is_grid(*mask, size as int, size as int),
            forall|a: int| 1 <= a < i ==> #[trigger] mask[a][col as int] != val,
        decreases size - i,
    {
        if mask[i][col] == val {
            return i;
        }
        i += 1;
    }
    NOT_FOUND
}

/// Uncovers every row and every column.
pub fn clear_covers(row_cover: &mut Column<bool>, column_cover: &mut Column<bool>)
    requires
        old(row_cover).len() == old(column_cover).len(),
    ensures
        final(row_cover).len() == old(row_cover).len(),
        final(column_cover).len() == old(column_cover).len(),
        forall|i: int| 1 <= i < old(row_cover).len() ==> !#[trigger] final(row_cover)[i],
        forall|i: int| 1 <= i < old(row_cover).len() ==> !#[trigger] final(column_cover)[i],
        old(row_cover).len() > 0 ==> final(row_cover)[0] == old(row_cover)[0] && final(column_cover)[0] == old(column_cover)[0],
{
    let size = row_cover.len();
    let mut i: usize = 1;
    while i < size
        invariant
            1 <= i,
            i <= size || size == 0,
            row_cover.len() == size,
            column_cover.len() == size,
            forall|a: int| 1 <= a < i && a < size ==> !#[trigger] row_cover[a],
            forall|a: int| 1 <= a < i && a < size ==> !#[trigger] column_cover[a],
            size > 0 ==> row_cover[0] == old(row_cover)[0] && column_cover[0] == old(column_cover)[0],
        decreases size - i,
    {
        row_cover[i] = false;
        column_cover[i] = false;
        i += 1;
    }
}

/// Sets every cell of the mask that holds `val` to 0.
pub fn clear_mask(mask: &mut Matrix<usize>, val: usize)
    requires
        is_grid(*old(mask), old(mask).len() as int, old(mask).len() as int),
    ensures
        same_shape(*final(mask), *old(mask)),
        forall|i: int, j: int|
            0 <= i < old(mask).len() && 0 <= j < old(mask).len() ==> #[trigger] final(mask)[i][j]
                == if i >= 1 && j >= 1 && old(mask)[i][j] == val {
                0
            } else {
                old(mask)[i][j]
            },
{
    let size = mask.len();
    let ghost before = *mask;
    let mut i: usize = 1;
    while i < size
        invariant
            1 <= i,
            size == before.len(),
            is_grid(before, size as int, size as int),
            same_shape(*mask, before),
            forall|a: int, b: int|
                0 <= a < size && 0 <= b < size ==> #[trigger] mask[a][b] == if 1 <= a < i && b >= 1
                    && before[a][b] == val {
                    0
                } else {
                    before[a][b]
                },
        decreases size - i,
    {
        let mut j: usize = 1;
        while j < size
            invariant
                1 <= i < size,
                1 <= j <= size,
                size == before.len(),
                is_grid(before, size as int, size as int),
                same_shape(*mask, before),
                forall|a: int, b: int|
                    0 <= a < size && 0 <= b < size ==> #[trigger] mask[a][b] == if b >= 1 && (1 <= a
                        < i || (a == i && b < j)) && before[a][b] == val {
                        0
                    } else {
                        before[a][b]
                    },
            decreases size - j,
        {
            if mask[i][j] == val {
                mask[i][j] = 0;
            }
            j += 1;
        }
        i += 1;
    }
}

/// Whether every column is covered.
pub fn solved(column_cover: &Column<bool>) -> (done: bool)
    ensures
        done == forall|i: int| 1 <= i < column_cover.len() ==> #[trigger] column_cover[i],
{
    let size = column_cover.len();
    let mut i: usize = 1;
    while i < size
        invariant
            1 <= i,
            size == column_cover.len(),
            forall|a: int| 1 <= a < i && a < size ==> #[trigger] column_cover[a],
        decreases size - i,
    {
        if !column_cover[i] {
            return false;
        }
        i += 1;
    }
    true
}

/// Neither the row nor the column of the cell is covered.
pub open spec fn uncovered(row_cover: Seq<bool>, column_cover: Seq<bool>, i: int, j: int) -> bool {
    !row_cover[i] && !column_cover[j]
}

/// No cell is uncovered.
pub open spec fn none_uncovered(n: int, row_cover: Seq<bool>, column_cover: Seq<bool>) -> bool {
    forall|i: int, j: int| 1 <= i < n && 1 <= j < n ==> !#[trigger] uncovered(
        row_cover,
        column_cover,
        i,
        j,
    )
}

/// `m` is the least value of an uncovered cell.
pub open spec fn is_least_uncovered(
    array: Matrix<i64>,
    row_cover: Seq<bool>,
    column_cover: Seq<bool>,
    m: i64,
) -> bool {
    &&& exists|i: int, j: int|
        1 <= i < array.len() && 1 <= j < array.len() && #[trigger] uncovered(
            row_cover,
            column_cover,
            i,
            j,
        ) && array[i][j] == m
    &&& forall|i: int, j: int|
        1 <= i < array.len() && 1 <= j < array.len() && #[trigger] uncovered(
            row_cover,
            column_cover,
            i,
            j,
        ) ==> m <= array[i][j]
}

/// The least value of an uncovered cell, where there is such a cell.
pub open spec fn least_uncovered(
    array: Matrix<i64>,
    row_cover: Seq<bool>,
    column_cover: Seq<bool>,
) -> i64 {
    choose|m: i64| is_least_uncovered(array, row_cover, column_cover, m)
}

/// There is one least uncovered value at most.
pub(crate) proof fn lemma_least_uncovered_unique(
    array: Matrix<i64>,
    row_cover: Seq<bool>,
    column_cover: Seq<bool>,
    m: i64,
)
    requires
        is_least_uncovered(array, row_cover, column_cover, m),
    ensures
        least_uncovered(array, row_cover, column_cover) == m,
{
    let k = least_uncovered(array, row_cover, column_cover);
    assert(is_least_uncovered(array, row_cover, column_cover, k));
}

/// The least value of an uncovered cell, or `i64::MAX` where every cell is
/// covered.
pub fn find_min(array: &Matrix<i64>, row_cover: &Column<bool>, column_cover: &Column<bool>) -> (min:
    i64)
    requires
        is_grid(*array, array.len() as int, array.len() as int),
        row_cover.len() == array.len(),
        column_cover.len() == array.len(),
    ensures
        none_uncovered(array.len() as int, row_cover@, column_cover@) ==> min == i64::MAX,
        !none_uncovered(array.len() as int, row_cover@, column_cover@) ==> is_least_uncovered(
            *array,
            row_cover@,
            column_cover@,
            min,
        ),
{
    let size = array.len();
    let mut min: i64 = i64::MAX;
    let ghost mut seen = false;
    let mut i: usize = 1;
    while i < size
        invariant
            1 <= i,
            size == array.len(),
            is_grid(*array, size as int, size as int),
            row_cover.len() == size,
            column_cover.len() == size,
            !seen ==> min == i64::MAX,
            !seen ==> forall|a: int, b: int|
                1 <= a < i && 1 <= b < size ==> !#[trigger] uncovered(
                    row_cover@,
                    column_cover@,
                    a,
                    b,
                ),
            seen ==> exists|a: int, b: int|
                1 <= a < size && 1 <= b < size && #[trigger] uncovered(
                    row_cover@,
                    column_cover@,
                    a,
                    b,
                ) && array[a][b] == min,
            forall|a: int, b: int|
                1 <= a < i && 1 <= b < size && #[trigger] uncovered(row_cover@, column_cover@, a, b)
                    ==> min <= array[a][b],
        decreases size - i,
    {
        let mut j: usize = 1;
        while j < size
            invariant
                1 <= i < size,
                1 <= j <= size,
                size == array.len(),
                is_grid(*array, size as int, size as int),
                row_cover.len() == size,
                column_cover.len() == size,
                !seen ==> min == i64::MAX,
                !seen ==> forall|a: int, b: int|
                    1 <= a < size && 1 <= b < size && (a < i || (a == i && b < j))
                        ==> !#[trigger] uncovered(row_cover@, column_cover@, a, b),
                seen ==> exists|a: int, b: int|
                    1 <= a < size && 1 <= b < size && #[trigger] uncovered(
                        row_cover@,
                        column_cover@,
                        a,
                        b,
                    ) && array[a][b] == min,
                forall|a: int, b: int|
                    1 <= a < size && 1 <= b < size && (a < i || (a == i && b < j))
                        && #[trigger] uncovered(row_cover@, column_cover@, a, b) ==> min
                        <= array[a][b],
            decreases size - j,
        {
            if !column_cover[j] && !row_cover[i] {
                assert(uncovered(row_cover@, column_cover@, i as int, j as int));
                if array[i][j] <= min {
                    min = array[i][j];
                }
                proof {
                    seen = true;
                }
            }
            j += 1;
        }
        i += 1;
    }
    proof {
        if seen {
            let (a, b) = choose|a: int, b: int|
                1 <= a < size && 1 <= b < size && #[trigger] uncovered(
                    row_cover@,
                    column_cover@,
                    a,
                    b,
                ) && array[a][b] == min;
            assert(uncovered(row_cover@, column_cover@, a, b));
        }
    }
    min
}

/// The largest reduced cost with which `augment_weights` cannot overflow.
pub const WEIGHT_LIMIT: i64 = 0x3fff_ffff_ffff_ffff;

/// Adds the least uncovered value to every covered row and takes it from
/// every uncovered column. Where every cell is covered, nothing changes.
pub fn augment_weights(
    array: &mut Matrix<i64>,
    row_cover: &Column<bool>,
    column_cover: &Column<bool>,
)
    requires
        is_grid(*old(array), old(array).len() as int, old(array).len() as int),
        row_cover.len() == old(array).len(),
        column_cover.len() == old(array).len(),
        forall|i: int, j: int|
            1 <= i < old(array).len() && 1 <= j < old(array).len() ==> 0 <= #[trigger] old(array)[i][j] <= WEIGHT_LIMIT,
    ensures
        same_shape(*final(array), *old(array)),
        forall|i: int, j: int|
            0 <= i < old(array).len() && 0 <= j < old(array).len() && (i == 0 || j == 0)
                ==> #[trigger] final(array)[i][j] == old(array)[i][j],
        none_uncovered(old(array).len() as int, row_cover@, column_cover@) ==> forall|
            i: int,
            j: int,
        |
            1 <= i < old(array).len() && 1 <= j < old(array).len() ==> #[trigger] final(array)[i][j] == old(array)[i][j],
        !none_uncovered(old(array).len() as int, row_cover@, column_cover@) ==> is_least_uncovered(
            *old(array),
            row_cover@,
            column_cover@,
            least_uncovered(*old(array), row_cover@, column_cover@),
        ),
        !none_uncovered(old(array).len() as int, row_cover@, column_cover@) ==> forall|
            i: int,
            j: int,
        |
            1 <= i < old(array).len() && 1 <= j < old(array).len() ==> #[trigger] final(array)[i][j] == shifted(
                old(array)[i][j],
                least_uncovered(*old(array), row_cover@, column_cover@),
                row_cover[i],
                column_cover[j],
            ),
{
    let size = array.len();
    let min: i64 = find_min(array, row_cover, column_cover);
    if min == i64::MAX {
        proof {
            if !none_uncovered(size as int, row_cover@, column_cover@) {
                let (a, b) = choose|a: int, b: int|
                    1 <= a < size && 1 <= b < size && #[trigger] uncovered(
                        row_cover@,
                        column_cover@,
                        a,
                        b,
                    ) && array[a][b] == min;
                assert(array[a][b] <= WEIGHT_LIMIT);
            }
        }
        return ;
    }
    let ghost before = *array;
    proof {
        assert(!none_uncovered(size as int, row_cover@, column_cover@));
        lemma_least_uncovered_unique(before, row_cover@, column_cover@, min);
        let (a, b) = choose|a: int, b: int|
            1 <= a < size && 1 <= b < size && #[trigger] uncovered(row_cover@, column_cover@, a, b)
                && before[a][b] == min;
        assert(0 <= before[a][b] <= WEIGHT_LIMIT);
    }
    let mut i: usize = 1;
    while i < size
        invariant
            1 <= i,
            size == before.len(),
            is_grid(before, size as int, size as int),
            same_shape(*array, before),
            row_cover.len() == size,
            column_cover.len() == size,
            0 <= min <= WEIGHT_LIMIT,
            forall|a: int, b: int|
                1 <= a < size && 1 <= b < size ==> 0 <= #[trigger] before[a][b] <= WEIGHT_LIMIT,
            forall|a: int, b: int|
                1 <= a < size && 1 <= b < size && #[trigger] uncovered(row_cover@, column_cover@, a, b)
                    ==> min <= before[a][b],
            forall|a: int, b: int|
                0 <= a < size && 0 <= b < size ==> #[trigger] array[a][b] == if 1 <= a < i && 1
                    <= b {
                    shifted(before[a][b], min, row_cover[a], column_cover[b])
                } else {
                    before[a][b]
                },
        decreases size - i,
    {
        let mut j: usize = 1;
        while j < size
            invariant
                1 <= i < size,
                1 <= j <= size,
                size == before.len(),
                is_grid(before, size as int, size as int),
                same_shape(*array, before),
                row_cover.len() == size,
                column_cover.len() == size,
                0 <= min <= WEIGHT_LIMIT,
                forall|a: int, b: int|
                    1 <= a < size && 1 <= b < size ==> 0 <= #[trigger] before[a][b] <= WEIGHT_LIMIT,
                forall|a: int, b: int|
                    1 <= a < size && 1 <= b < size && #[trigger] uncovered(
                        row_cover@,
                        column_cover@,
                        a,
                        b,
                    ) ==> min <= before[a][b],
                forall|a: int, b: int|
                    0 <= a < size && 0 <= b < size ==> #[trigger] array[a][b] == if 1 <= b && (1
                        <= a < i || (a == i && b < j)) {
                        shifted(before[a][b], min, row_cover[a], column_cover[b])
                    } else {
                        before[a][b]
                    },
            decreases size - j,
        {
            assert(array[i as int][j as int] == before[i as int][j as int]);
            assert(0 <= before[i as int][j as int] <= WEIGHT_LIMIT);
            if row_cover[i] && column_cover[j] {
                array[i][j] = array[i][j] + min;
            } else if !row_cover[i] && !column_cover[j] {
                assert(uncovered(row_cover@, column_cover@, i as int, j as int));
                array[i][j] = array[i][j] - min;
            }
            j += 1;
        }
        i += 1;
    }
}

/// A reduced cost after `m` was added for a covered row and taken for an
/// uncovered column.
pub open spec fn shifted(value: i64, m: i64, row_covered: bool, column_covered: bool) -> i64 {
    if row_covered && column_covered {
        (value + m) as i64
    } else if !row_covered && !column_covered {
        (value - m) as i64
    } else {
        value
    }
}

/// How many of the entries from index 1 on are set.
pub open spec fn covered_count(cover: Seq<bool>) -> nat
    decreases cover.len(),
{
    if cover.len() <= 1 {
        0
    } else {
        covered_count(cover.drop_last()) + if cover.last() {
            1nat
        } else {
            0nat
        }
    }
}

/// No more entries are set than there are.
pub(crate) proof fn lemma_covered_count_bound(cover: Seq<bool>)
    ensures
        covered_count(cover) <= cover.len(),
    decreases cover.len(),
{
    if cover.len() > 1 {
        lemma_covered_count_bound(cover.drop_last());
    }
}

/// The number of covered columns.
pub fn col_covered_count(column_cover: &Column<bool>) -> (count: usize)
    ensures
        count == covered_count(column_cover@),
{
    let size = column_cover.len();
    let mut count: usize = 0;
    let mut i: usize = 1;
    while i < size
        invariant
            1 <= i,
            i <= size || size == 0,
            size == column_cover.len(),
            size > 0 ==> count == covered_count(column_cover@.take(i as int)),
            size == 0 ==> count == 0,
            count <= i,
        decreases size - i,
    {
        proof {
            assert(column_cover@.take(i + 1).drop_last() =~= column_cover@.take(i as int));
        }
        if column_cover[i] {
            count = count + 1;
        }
        i += 1;
    }
    proof {
        if size > 0 {
            assert(column_cover@.take(size as int) =~= column_cover@);
        }
    }
    count
}

/// The number of covered rows.
pub fn row_covered_count(row_cover: &Column<bool>) -> (count: usize)
    ensures
        count == covered_count(row_cover@),
{
    col_covered_count(row_cover)
}

/// `a` and `b` hold the same values in every row and column that counts.
pub open spec fn agree(a: State, b: State) -> bool {
    let n = b.size();
    &&& forall|i: int, j: int|
        1 <= i < n && 1 <= j < n ==> #[trigger] a.array[i][j] == b.array[i][j]
    &&& forall|i: int, j: int| 1 <= i < n && 1 <= j < n ==> #[trigger] a.mask[i][j] == b.mask[i][j]
    &&& forall|i: int| 1 <= i < n ==> #[trigger] a.column_cover[i] == b.column_cover[i]
    &&& forall|i: int| 1 <= i < n ==> #[trigger] a.row_cover[i] == b.row_cover[i]
    &&& forall|i: int, j: int|
        1 <= i < n && 1 <= j < NODE_TYPES ==> #[trigger] a.path[i][j] == b.path[i][j]
}

/// `b` holds what `a` holds in row and column 0 of every part, and in the
/// path from row `a.size()` on.
pub open spec fn kept_outside(a: State, b: State) -> bool {
    let n = a.size();
    &&& b.path.len() == a.path.len()
    &&& forall|i: int, j: int|
        0 <= i < n && 0 <= j < n && (i == 0 || j == 0) ==> #[trigger] b.array[i][j]
            == a.array[i][j]
    &&& forall|i: int, j: int|
        0 <= i < n && 0 <= j < n && (i == 0 || j == 0) ==> #[trigger] b.mask[i][j] == a.mask[i][j]
    &&& n >= 1 ==> b.row_cover[0] == a.row_cover[0] && b.column_cover[0] == a.column_cover[0]
    &&& forall|i: int, j: int|
        0 <= i < a.path.len() && 0 <= j < NODE_TYPES && (i == 0 || j == 0 || i >= n)
            ==> #[trigger] b.path[i][j] == a.path[i][j]
}

/// Copies the cells `1..rows` by `1..cols` of `src` to `dst`, and says
/// whether one of them was different there.
fn sync_costs(dst: &mut Matrix<i64>, src: &Matrix<i64>, rows: usize, cols: usize) -> (changed: bool)
    requires
        old(dst).len() >= rows,
        src.len() >= rows,
        forall|i: int| 0 <= i < rows ==> (#[trigger] old(dst)[i]).len() >= cols,
        forall|i: int| 0 <= i < rows ==> (#[trigger] src[i]).len() >= cols,
    ensures
        same_shape(*final(dst), *old(dst)),
        changed == exists|i: int, j: int|
            1 <= i < rows && 1 <= j < cols && #[trigger] old(dst)[i][j] != src[i][j],
        forall|i: int, j: int|
            0 <= i < old(dst).len() && 0 <= j < old(dst)[i].len() ==> #[trigger] final(dst)[i][j]
                == if 1 <= i < rows && 1 <= j < cols {
                src[i][j]
            } else {
                old(dst)[i][j]
            },
{
    let ghost before = *dst;
    let mut changed = false;
    let mut i: usize = 1;
    while i < rows
        invariant
            1 <= i,
            before.len() >= rows,
            src.len() >= rows,
            forall|a: int| 0 <= a < rows ==> (#[trigger] before[a]).len() >= cols,
            forall|a: int| 0 <= a < rows ==> (#[trigger] src[a]).len() >= cols,
            same_shape(*dst, before),
            changed == exists|a: int, b: int|
                1 <= a < i && a < rows && 1 <= b < cols && #[trigger] before[a][b] != src[a][b],
            forall|a: int, b: int|
                0 <= a < before.len() && 0 <= b < before[a].len() ==> #[trigger] dst[a][b] == if 1
                    <= a < i && a < rows && 1 <= b < cols {
                    src[a][b]
                } else {
                    before[a][b]
                },
        decreases rows - i,
    {
        let mut j: usize = 1;
        while j < cols
            invariant
                1 <= i < rows,
                1 <= j,
                before.len() >= rows,
                src.len() >= rows,
                forall|a: int| 0 <= a < rows ==> (#[trigger] before[a]).len() >= cols,
                forall|a: int| 0 <= a < rows ==> (#[trigger] src[a]).len() >= cols,
                same_shape(*dst, before),
                changed == exists|a: int, b: int|
                    1 <= a < rows && 1 <= b < cols && (a < i || (a == i && b < j))
                        && #[trigger] before[a][b] != src[a][b],
                forall|a: int, b: int|
                    0 <= a < before.len() && 0 <= b < before[a].len() ==> #[trigger] dst[a][b]
                        == if 1 <= a < rows && 1 <= b < cols && (a < i || (a == i && b < j)) {
                        src[a][b]
                    } else {
                        before[a][b]
                    },
            decreases cols - j,
        {
            assert(dst[i as int][j as int] == before[i as int][j as int]);
            if dst[i][j] != src[i][j] {
                changed = true;
            }
            dst[i][j] = src[i][j];
            j += 1;
        }
        i += 1;
    }
    changed
}

/// Copies the cells `1..rows` by `1..cols` of `src` to `dst`, and says
/// whether one of them was different there.
fn sync_marks(dst: &mut Matrix<usize>, src: &Matrix<usize>, rows: usize, cols: usize) -> (changed:
    bool)
    requires
        old(dst).len() >= rows,
        src.len() >= rows,
        forall|i: int| 0 <= i < rows ==> (#[trigger] old(dst)[i]).len() >= cols,
        forall|i: int| 0 <= i < rows ==> (#[trigger] src[i]).len() >= cols,
    ensures
        same_shape(*final(dst), *old(dst)),
        changed == exists|i: int, j: int|
            1 <= i < rows && 1 <= j < cols && #[trigger] old(dst)[i][j] != src[i][j],
        forall|i: int, j: int|
            0 <= i < old(dst).len() && 0 <= j < old(dst)[i].len() ==> #[trigger] final(dst)[i][j]
                == if 1 <= i < rows && 1 <= j < cols {
                src[i][j]
            } else {
                old(dst)[i][j]
            },
{
    let ghost before = *dst;
    let mut changed = false;
    let mut i: usize = 1;
    while i < rows
        invariant
            1 <= i,
            before.len() >= rows,
            src.len() >= rows,
            forall|a: int| 0 <= a < rows ==> (#[trigger] before[a]).len() >= cols,
            forall|a: int| 0 <= a < rows ==> (#[trigger] src[a]).len() >= cols,
            same_shape(*dst, before),
            changed == exists|a: int, b: int|
                1 <= a < i && a < rows && 1 <= b < cols && #[trigger] before[a][b] != src[a][b],
            forall|a: int, b: int|
                0 <= a < before.len() && 0 <= b < before[a].len() ==> #[trigger] dst[a][b] == if 1
                    <= a < i && a < rows && 1 <= b < cols {
                    src[a][b]
                } else {
                    before[a][b]
                },
        decreases rows - i,
    {
        let mut j: usize = 1;
        while j < cols
            invariant
                1 <= i < rows,
                1 <= j,
                before.len() >= rows,
                src.len() >= rows,
                forall|a: int| 0 <= a < rows ==> (#[trigger] before[a]).len() >= cols,
                forall|a: int| 0 <= a < rows ==> (#[trigger] src[a]).len() >= cols,
                same_shape(*dst, before),
                changed == exists|a: int, b: int|
                    1 <= a < rows && 1 <= b < cols && (a < i || (a == i && b < j))
                        && #[trigger] before[a][b] != src[a][b],
                forall|a: int, b: int|
                    0 <= a < before.len() && 0 <= b < before[a].len() ==> #[trigger] dst[a][b]
                        == if 1 <= a < rows && 1 <= b < cols && (a < i || (a == i && b < j)) {
                        src[a][b]
                    } else {
                        before[a][b]
                    },
            decreases cols - j,
        {
            assert(dst[i as int][j as int] == before[i as int][j as int]);
            if dst[i][j] != src[i][j] {
                changed = true;
            }
            dst[i][j] = src[i][j];
            j += 1;
        }
        i += 1;
    }
    changed
}

/// Copies the entries of `src` from index 1 on to `dst`, and says whether one
/// of them was different there.
fn sync_covers(dst: &mut Column<bool>, src: &Column<bool>) -> (changed: bool)
    requires
        old(dst).len() == src.len(),
    ensures
        final(dst).len() == old(dst).len(),
        changed == exists|i: int| 1 <= i < src.len() && #[trigger] old(dst)[i] != src[i],
        forall|i: int| 1 <= i < src.len() ==> #[trigger] final(dst)[i] == src[i],
        src.len() > 0 ==> final(dst)[0] == old(dst)[0],
{
    let size = src.len();
    let ghost before = *dst;
    let mut changed = false;
    let mut i: usize = 1;
    while i < size
        invariant
            1 <= i,
            size == src.len(),
            before.len() == size,
            dst.len() == size,
            changed == exists|a: int| 1 <= a < i && a < size && #[trigger] before[a] != src[a],
            forall|a: int| 1 <= a < i && a < size ==> #[trigger] dst[a] == src[a],
            forall|a: int| 0 <= a < size && !(1 <= a < i) ==> #[trigger] dst[a] == before[a],
        decreases size - i,
    {
        if dst[i] != src[i] {
            changed = true;
        }
        dst[i] = src[i];
        i += 1;
    }
    changed
}

/// Says whether `state` differs from `previous` in a row or column that
/// counts, and brings `previous` up to `state` there.
pub fn makes_progress(state: &State, previous: &mut State) -> (progress: bool)
    requires
        state.wf(),
        old(previous).wf(),
        old(previous).size() == state.size(),
    ensures
        final(previous).wf(),
        final(previous).size() == state.size(),
        progress == !agree(*old(previous), *state),
        agree(*final(previous), *state),
        kept_outside(*old(previous), *final(previous)),
{
    let size: usize = state.array.len();
    let ghost before = *previous;
    let mut progress: bool = false;
    if sync_costs(&mut previous.array, &state.array, size, size) {
        progress = true;
    }
    if sync_marks(&mut previous.mask, &state.mask, size, size) {
        progress = true;
    }
    if sync_covers(&mut previous.column_cover, &state.column_cover) {
        progress = true;
    }
    if sync_covers(&mut previous.row_cover, &state.row_cover) {
        progress = true;
    }
    if sync_marks(&mut previous.path, &state.path, size, NODE_TYPES) {
        progress = true;
    }
    proof {
        if !agree(before, *state) {
            assert(progress);
        }
    }
    progress
}

/// Writes `val` to one cell of the mask.
fn mark(mask: &mut Matrix<usize>, row: usize, col: usize, val: usize)
    requires
        is_grid(*old(mask), old(mask).len() as int, old(mask).len() as int),
        row < old(mask).len(),
        col < old(mask).len(),
    ensures
        is_grid(*final(mask), old(mask).len() as int, old(mask).len() as int),
        final(mask)[row as int]@ == old(mask)[row as int]@.update(col as int, val),
        forall|i: int| 0 <= i < old(mask).len() && i != row ==> #[trigger] final(mask)[i] == old(mask)[i],
{
    mask[row][col] = val;
}

/// Writes a cell to entry `count` of the path buffer, which grows by one
/// entry where it ends there.
fn record(path: &mut Matrix<usize>, count: usize, row: usize, col: usize)
    requires
        is_grid(*old(path), old(path).len() as int, NODE_TYPES as int),
        count <= old(path).len(),
    ensures
        is_grid(*final(path), final(path).len() as int, NODE_TYPES as int),
        final(path).len() >= old(path).len(),
        count < final(path).len(),
        final(path).len() == if count == old(path).len() {
            old(path).len() + 1
        } else {
            old(path).len() as int
        },
        final(path)[count as int][STAR as int] == row,
        final(path)[count as int][PRIME as int] == col,
        final(path)[count as int][0] == if count == old(path).len() {
            0
        } else {
            old(path)[count as int][0]
        },
        forall|i: int|
            0 <= i < old(path).len() && i != count ==> #[trigger] final(path)[i] == old(path)[i],
        recorded(*old(path), *final(path), count as int, row as int, col as int),
{
    if count == path.len() {
        let mut entry: Vec<usize> = vec![0usize; NODE_TYPES];
        entry[STAR] = row;
        entry[PRIME] = col;
        path.push(entry);
    } else {
        path[count][STAR] = row;
        path[count][PRIME] = col;
    }
}

/// Setting an entry that was not set raises the count by one.
pub(crate) proof fn lemma_covered_count_update(cover: Seq<bool>, i: int)
    requires
        1 <= i < cover.len(),
        !cover[i],
    ensures
        covered_count(cover.update(i, true)) == covered_count(cover) + 1,
    decreases cover.len(),
{
    let after = cover.update(i, true);
    if i == cover.len() - 1 {
        assert(after.drop_last() =~= cover.drop_last());
    } else {
        lemma_covered_count_update(cover.drop_last(), i);
        assert(after.drop_last() =~= cover.drop_last().update(i, true));
    }
}

/// `x` is the least cost of row `i`.
pub open spec fn is_row_least(cost: Seq<Seq<int>>, n: int, i: int, x: int) -> bool {
    &&& exists|j: int| 1 <= j < n && #[trigger] cost[i][j] == x
    &&& forall|j: int| 1 <= j < n ==> x <= #[trigger] cost[i][j]
}

/// Takes from each row its least value, which it hands back.
fn reduce_rows(state: &mut State, Ghost(cost): Ghost<Seq<Seq<int>>>) -> (least: Ghost<Seq<int>>)
    requires
        old(state).wf(),
        is_square(cost, old(state).size()),
        forall|i: int, j: int|
            1 <= i < old(state).size() && 1 <= j < old(state).size() ==> 0 <= #[trigger] cost[i][j]
                <= limit(),
        forall|i: int, j: int|
            1 <= i < old(state).size() && 1 <= j < old(state).size() ==> #[trigger] old(state).array[i][j] == cost[i][j],
    ensures
        final(state).wf(),
        final(state).size() == old(state).size(),
        final(state).mask == old(state).mask,
        final(state).path == old(state).path,
        final(state).row_cover == old(state).row_cover,
        final(state).column_cover == old(state).column_cover,
        least@.len() == old(state).size(),
        forall|i: int| 1 <= i < old(state).size() ==> 0 <= #[trigger] least@[i] <= limit(),
        forall|i: int|
            1 <= i < old(state).size() ==> is_row_least(
                cost,
                old(state).size(),
                i,
                #[trigger] least@[i],
            ),
        forall|i: int, j: int|
            1 <= i < old(state).size() && 1 <= j < old(state).size() ==> #[trigger] final(state).array[i][j] == cost[i][j] - least@[i] && final(state).array[i][j] >= 0,
{
    let size = state.array.len();
    let ghost start = *state;
    let ghost mut least = Seq::new(size as nat, |i: int| 0int);
    let mut i: usize = 1;
    while i < size
        invariant
            1 <= i,
            size == start.size(),
            start.wf(),
            state.wf(),
            state.size() == size,
            state.mask == start.mask,
            state.path == start.path,
            state.row_cover == start.row_cover,
            state.column_cover == start.column_cover,
            is_square(cost, size as int),
            least.len() == size,
            forall|a: int, b: int|
                1 <= a < size && 1 <= b < size ==> 0 <= #[trigger] cost[a][b] <= limit(),
            forall|a: int| 1 <= a < i && a < size ==> 0 <= #[trigger] least[a] <= limit(),
            forall|a: int|
                1 <= a < i && a < size ==> is_row_least(cost, size as int, a, #[trigger] least[a]),
            forall|a: int, b: int|
                1 <= a < size && 1 <= b < size ==> #[trigger] state.array[a][b] == if a < i {
                    cost[a][b] - least[a]
                } else {
                    cost[a][b]
                },
            forall|a: int, b: int|
                1 <= a < size && 1 <= b < size ==> 0 <= #[trigger] state.array[a][b],
        decreases size - i,
    {
        let min = row_min(&state.array, i);
        let ghost before = state.array;
        proof {
            let w = choose|j: int| 1 <= j < before.len() && before[i as int][j] == min;
            assert(before[i as int][w] == cost[i as int][w]);
            assert forall|j: int| 1 <= j < size implies i64::MIN <= (#[trigger] before[i as int][j])
                - min <= i64::MAX by {
                assert(before[i as int][j] == cost[i as int][j]);
            }
        }
        subtract_row(&mut state.array, i, min);
        proof {
            let earlier = least;
            least = least.update(i as int, min as int);
            assert(is_row_least(cost, size as int, i as int, min as int)) by {
                let w = choose|j: int| 1 <= j < before.len() && before[i as int][j] == min;
                assert(cost[i as int][w] == min);
                assert forall|j: int| 1 <= j < size implies min <= #[trigger] cost[i as int][j] by {
                    assert(before[i as int][j] == cost[i as int][j]);
                }
            }
            assert forall|a: int| 1 <= a < i + 1 && a < size implies is_row_least(
                cost,
                size as int,
                a,
                #[trigger] least[a],
            ) by {
                if a < i {
                    assert(is_row_least(cost, size as int, a, earlier[a]));
                }
            }
            assert forall|a: int, b: int| 1 <= a < size && 1 <= b < size implies #[trigger] state.array[a][b]
                == if a < i + 1 {
                cost[a][b] - least[a]
            } else {
                cost[a][b]
            } && 0 <= state.array[a][b] by {
                assert(before[a][b] == if a < i {
                    cost[a][b] - least[a]
                } else {
                    cost[a][b]
                });
                assert(0 <= before[a][b]);
                if a == i {
                    assert(min <= before[i as int][b]);
                }
            }
        }
        i += 1;
    }
    Ghost(least)
}

/// The cell holds a zero, and no star stands before it in its row or above it
/// in its column.
pub open spec fn is_free_zero(array: Matrix<i64>, mask: Matrix<usize>, i: int, j: int) -> bool {
    &&& array[i][j] == 0
    &&& forall|b: int| 1 <= b < j ==> #[trigger] mask[i][b] != STAR
    &&& forall|a: int| 1 <= a < i ==> #[trigger] mask[a][j] != STAR
}

/// The cells before `(i, j)`, rows before columns, are starred where they
/// are free zeros, the other cells are not starred, and a row or column is
/// covered where it holds a star.
pub open spec fn starred_upto(s: State, i: int, j: int) -> bool {
    let n = s.size();
    &&& forall|a: int, b: int|
        1 <= a < n && 1 <= b < n && (a < i || (a == i && b < j)) ==> (#[trigger] s.mask[a][b]
            == STAR) == is_free_zero(s.array, s.mask, a, b)
    &&& forall|a: int, b: int|
        0 <= a < n && 0 <= b < n && !(1 <= a && 1 <= b && (a < i || (a == i && b < j)))
            ==> #[trigger] s.mask[a][b] == 0
    &&& forall|a: int, b: int|
        0 <= a < n && 0 <= b < n ==> #[trigger] s.mask[a][b] == 0 || s.mask[a][b] == STAR
    &&& forall|a: int, b: int|
        1 <= a < n && 1 <= b < n && #[trigger] s.mask[a][b] == STAR ==> s.row_cover[a]
            && s.column_cover[b]
    &&& forall|a: int| 1 <= a < n && #[trigger] s.row_cover[a] ==> holds(s.mask[a]@, STAR)
    &&& forall|b: int| 1 <= b < n && #[trigger] s.column_cover[b] ==> col_has(s.mask, b, STAR)
}

/// Looking at one cell more keeps what holds of the cells looked at.
proof fn lemma_star_next(before: State, after: State, i: int, j: int)
    requires
        before.wf(),
        after.wf(),
        1 <= i < before.size(),
        1 <= j < before.size(),
        starred_upto(before, i, j),
        after.array == before.array,
        before.array[i][j] == 0 && !before.row_cover[i] && !before.column_cover[j] ==> {
            &&& forall|a: int, b: int|
                0 <= a < before.size() && 0 <= b < before.size() ==> #[trigger] after.mask[a][b]
                    == if a == i && b == j {
                    STAR
                } else {
                    before.mask[a][b]
                }
            &&& after.row_cover@ == before.row_cover@.update(i, true)
            &&& after.column_cover@ == before.column_cover@.update(j, true)
        },
        !(before.array[i][j] == 0 && !before.row_cover[i] && !before.column_cover[j]) ==> after
            == before,
    ensures
        starred_upto(after, i, j + 1),
{
    let n = before.size();
    let taken = before.array[i][j] == 0 && !before.row_cover[i] && !before.column_cover[j];
    assert forall|b: int| 1 <= b < n && #[trigger] before.mask[i][b] == STAR implies b < j
        && before.row_cover[i] by {}
    assert forall|a: int| 1 <= a < n && #[trigger] before.mask[a][j] == STAR implies a < i
        && before.column_cover[j] by {}
    assert forall|a: int, b: int|
        1 <= a < n && 1 <= b < n && (a < i || (a == i && b < j)) implies is_free_zero(
        after.array,
        after.mask,
        a,
        b,
    ) == is_free_zero(before.array, before.mask, a, b) by {
        if taken {
            assert forall|y: int| 1 <= y < b implies (#[trigger] after.mask[a][y] != STAR) == (
            before.mask[a][y] != STAR) by {}
            assert forall|x: int| 1 <= x < a implies (#[trigger] after.mask[x][b] != STAR) == (
            before.mask[x][b] != STAR) by {}
            if is_free_zero(before.array, before.mask, a, b) {
                assert forall|y: int| 1 <= y < b implies #[trigger] after.mask[a][y] != STAR by {
                    assert(before.mask[a][y] != STAR);
                }
                assert forall|x: int| 1 <= x < a implies #[trigger] after.mask[x][b] != STAR by {
                    assert(before.mask[x][b] != STAR);
                }
            }
            if is_free_zero(after.array, after.mask, a, b) {
                assert forall|y: int| 1 <= y < b implies #[trigger] before.mask[a][y] != STAR by {
                    assert(after.mask[a][y] != STAR);
                }
                assert forall|x: int| 1 <= x < a implies #[trigger] before.mask[x][b] != STAR by {
                    assert(after.mask[x][b] != STAR);
                }
            }
        }
    }
    assert((after.mask[i][j] == STAR) == is_free_zero(after.array, after.mask, i, j)) by {
        if taken {
            assert forall|y: int| 1 <= y < j implies #[trigger] after.mask[i][y] != STAR by {
                assert(before.mask[i][y] != STAR);
            }
            assert forall|x: int| 1 <= x < i implies #[trigger] after.mask[x][j] != STAR by {
                assert(before.mask[x][j] != STAR);
            }
        } else {
            assert(after.mask[i][j] == 0);
            if before.array[i][j] == 0 {
                if before.row_cover[i] {
                    let y = choose|y: int|
                        1 <= y < before.mask[i]@.len() && #[trigger] before.mask[i]@[y] == STAR;
                    assert(before.mask[i][y] == STAR);
                } else {
                    let x = choose|x: int|
                        1 <= x < before.mask.len() && #[trigger] before.mask[x][j] == STAR;
                    assert(before.mask[x][j] == STAR);
                }
            }
        }
    }
    assert forall|a: int, b: int|
        1 <= a < n && 1 <= b < n && (a < i || (a == i && b < j + 1)) implies (
    #[trigger] after.mask[a][b] == STAR) == is_free_zero(after.array, after.mask, a, b) by {
        if !(a == i && b == j) {
            assert((before.mask[a][b] == STAR) == is_free_zero(before.array, before.mask, a, b));
        }
    }
    assert forall|a: int| 1 <= a < n && #[trigger] after.row_cover[a] implies holds(
        after.mask[a]@,
        STAR,
    ) by {
        if taken && a == i {
            assert(after.mask[i]@[j] == STAR);
        } else {
            assert(before.row_cover[a]);
            let y = choose|y: int|
                1 <= y < before.mask[a]@.len() && #[trigger] before.mask[a]@[y] == STAR;
            assert(after.mask[a][y] == STAR);
            assert(after.mask[a]@[y] == STAR);
        }
    }
    assert forall|b: int| 1 <= b < n && #[trigger] after.column_cover[b] implies col_has(
        after.mask,
        b,
        STAR,
    ) by {
        if taken && b == j {
            assert(after.mask[i][j] == STAR);
        } else {
            assert(before.column_cover[b]);
            let x = choose|x: int|
                1 <= x < before.mask.len() && #[trigger] before.mask[x][b] == STAR;
            assert(after.mask[x][b] == STAR);
        }
    }
}

/// What is starred where each free zero is starred holds at most one star in
/// each row and column, all of them on zeros.
proof fn lemma_starred_is_matching(s: State)
    requires
        s.wf(),
        starred_upto(s, s.size(), 1),
    ensures
        is_matching(s.mask),
        no_primes(s.mask),
        mask_clean(s.mask),
        forall|i: int, j: int|
            1 <= i < s.size() && 1 <= j < s.size() ==> (#[trigger] s.mask[i][j] == STAR)
                == is_free_zero(s.array, s.mask, i, j),
{
    let n = s.size();
    assert forall|i: int, j: int| 1 <= i < n && 1 <= j < n implies (#[trigger] s.mask[i][j]
        == STAR) == is_free_zero(s.array, s.mask, i, j) by {}
    assert forall|r: int, c1: int, c2: int|
        #![trigger s.mask[r][c1], s.mask[r][c2]]
        1 <= r < n && 1 <= c1 < n && 1 <= c2 < n && s.mask[r][c1] == STAR && s.mask[r][c2]
            == STAR implies c1 == c2 by {
        assert(is_free_zero(s.array, s.mask, r, c1));
        assert(is_free_zero(s.array, s.mask, r, c2));
        if c1 < c2 {
            assert(s.mask[r][c1] != STAR);
        }
        if c2 < c1 {
            assert(s.mask[r][c2] != STAR);
        }
    }
    assert forall|r1: int, r2: int, c: int|
        #![trigger s.mask[r1][c], s.mask[r2][c]]
        1 <= r1 < n && 1 <= r2 < n && 1 <= c < n && s.mask[r1][c] == STAR && s.mask[r2][c]
            == STAR implies r1 == r2 by {
        assert(is_free_zero(s.array, s.mask, r1, c));
        assert(is_free_zero(s.array, s.mask, r2, c));
        if r1 < r2 {
            assert(s.mask[r1][c] != STAR);
        }
        if r2 < r1 {
            assert(s.mask[r2][c] != STAR);
        }
    }
    assert forall|i: int, j: int| 0 <= i < n && 0 <= j < n implies (#[trigger] s.mask[i][j] == 0
        || s.mask[i][j] == STAR || s.mask[i][j] == PRIME) && (i == 0 || j == 0 ==> s.mask[i][j]
        == 0) by {}
}

/// Stars each zero that has no star before it in its row or above it in its
/// column, rows before columns, and covers the rows and columns of the stars.
fn star_zeros(state: &mut State)
    requires
        old(state).wf(),
        forall|i: int, j: int|
            0 <= i < old(state).size() && 0 <= j < old(state).size() ==> #[trigger] old(state).mask[i][j] == 0,
        forall|i: int| 1 <= i < old(state).size() ==> !#[trigger] old(state).row_cover[i],
        forall|i: int| 1 <= i < old(state).size() ==> !#[trigger] old(state).column_cover[i],
    ensures
        final(state).wf(),
        final(state).array == old(state).array,
        final(state).path == old(state).path,
        is_matching(final(state).mask),
        no_primes(final(state).mask),
        mask_clean(final(state).mask),
        forall|i: int, j: int|
            1 <= i < old(state).size() && 1 <= j < old(state).size() ==> (#[trigger] final(state).mask[i][j] == STAR) == is_free_zero(final(state).array, final(state).mask, i, j),
{
    let size = state.array.len();
    let ghost start = *state;
    let mut i: usize = 1;
    while i < size
        invariant
            1 <= i,
            size == start.size(),
            state.wf(),
            state.array == start.array,
            state.path == start.path,
            i <= size ==> starred_upto(*state, i as int, 1),
            i > size ==> starred_upto(*state, size as int, 1),
        decreases size - i,
    {
        let mut j: usize = 1;
        while j < size
            invariant
                1 <= i < size,
                1 <= j <= size,
                size == start.size(),
                state.wf(),
                state.array == start.array,
                state.path == start.path,
                starred_upto(*state, i as int, j as int),
            decreases size - j,
        {
            let ghost before = *state;
            cover(state, i, j);
            proof {
                lemma_star_next(before, *state, i as int, j as int);
            }
            j += 1;
        }
        i += 1;
    }
    proof {
        lemma_starred_is_matching(*state);
    }
}

/// Covers every column that holds a star.
fn cover_starred_columns(state: &mut State)
    requires
        old(state).wf(),
        forall|c: int| 1 <= c < old(state).size() ==> !#[trigger] old(state).column_cover[c],
    ensures
        final(state).wf(),
        final(state).array == old(state).array,
        final(state).mask == old(state).mask,
        final(state).path == old(state).path,
        final(state).row_cover == old(state).row_cover,
        forall|c: int|
            1 <= c < old(state).size() ==> #[trigger] final(state).column_cover[c] == col_has(
                old(state).mask,
                c,
                STAR,
            ),
{
    let size = state.array.len();
    let ghost start = *state;
    let mut i: usize = 1;
    while i < size
        invariant
            1 <= i,
            size == start.size(),
            state.wf(),
            state.array == start.array,
            state.mask == start.mask,
            state.path == start.path,
            state.row_cover == start.row_cover,
            forall|c: int|
                1 <= c < size && #[trigger] state.column_cover[c] ==> col_has(start.mask, c, STAR),
            forall|a: int, b: int|
                1 <= a < i && a < size && 1 <= b < size && #[trigger] start.mask[a][b] == STAR
                    ==> state.column_cover[b],
        decreases size - i,
    {
        let mut j: usize = 1;
        while j < size
            invariant
                1 <= i < size,
                1 <= j <= size,
                size == start.size(),
                state.wf(),
                state.array == start.array,
                state.mask == start.mask,
                state.path == start.path,
                state.row_cover == start.row_cover,
                forall|c: int|
                    1 <= c < size && #[trigger] state.column_cover[c] ==> col_has(
                        start.mask,
                        c,
                        STAR,
                    ),
                forall|a: int, b: int|
                    1 <= a < size && 1 <= b < size && (a < i || (a == i && b < j))
                        && #[trigger] start.mask[a][b] == STAR ==> state.column_cover[b],
            decreases size - j,
        {
            if state.mask[i][j] == STAR {
                cover_column(&mut state.column_cover, j);
            }
            j += 1;
        }
        i += 1;
    }
    proof {
        assert forall|c: int| 1 <= c < size implies #[trigger] state.column_cover[c] == col_has(
            start.mask,
            c,
            STAR,
        ) by {
            if col_has(start.mask, c, STAR) {
                let r = choose|r: int| 1 <= r < start.mask.len() && #[trigger] start.mask[r][c] == STAR;
                assert(start.mask[r][c] == STAR);
            }
        }
    }
}

/// Primes uncovered zeros, covering the row and uncovering the star's column
/// of each whose row holds a star, until one is found whose row holds none,
/// which it hands back, or none is left, where `row` is 0. Each time it is the
/// first uncovered zero, rows before columns, that is primed.
///
/// The search is made only where a column is left without a star: a matrix
/// without rows never comes here.
fn prime(
    state: &mut State,
    row: &mut usize,
    col: &mut usize,
    Ghost(cost): Ghost<Seq<Seq<int>>>,
    Ghost(u): Ghost<Seq<int>>,
    Ghost(v): Ghost<Seq<int>>,
    Ghost(rank0): Ghost<Seq<int>>,
    Ghost(t0): Ghost<int>,
) -> (out: Ghost<(Seq<int>, int)>)
    requires
        core_inv(cost, *old(state), u, v),
        stage_inv(*old(state), rank0, t0),
        exists|c: int| 1 <= c < old(state).size() && !#[trigger] col_has(old(state).mask, c, STAR),
    ensures
        core_inv(cost, *final(state), u, v),
        final(state).array == old(state).array,
        final(state).path == old(state).path,
        same_stars(old(state).mask, final(state).mask),
        covers_kept(*old(state), *final(state)),
        primes_placed(*final(state), *final(row) as int, *final(col) as int),
        covered_count(final(state).row_cover@) >= covered_count(old(state).row_cover@),
        *final(row) == 0 ==> {
            &&& stage_inv(*final(state), out@.0, out@.1)
            &&& forall|i: int, j: int|
                1 <= i < old(state).size() && 1 <= j < old(state).size()
                    ==> !#[trigger] uncovered_zero(
                    final(state).array,
                    final(state).row_cover@,
                    final(state).column_cover@,
                    i,
                    j,
                )
            &&& (exists|i: int, j: int|
                1 <= i < old(state).size() && 1 <= j < old(state).size()
                    && #[trigger] uncovered_zero(
                    old(state).array,
                    old(state).row_cover@,
                    old(state).column_cover@,
                    i,
                    j,
                )) ==> covered_count(final(state).row_cover@) > covered_count(
                old(state).row_cover@,
            )
        },
        *final(row) == 0 ==> *final(col) == 0,
        *final(row) != 0 ==> head_ready(
            *final(state),
            out@.0,
            *final(row) as int,
            *final(col) as int,
        ),
        *final(row) != 0 ==> uncovered_zero(
            final(state).array,
            final(state).row_cover@,
            final(state).column_cover@,
            *final(row) as int,
            *final(col) as int,
        ),
        *final(row) != 0 ==> forall|i: int, j: int|
            1 <= i < old(state).size() && 1 <= j < old(state).size() && #[trigger] uncovered_zero(
                final(state).array,
                final(state).row_cover@,
                final(state).column_cover@,
                i,
                j,
            ) ==> *final(row) < i || (*final(row) == i && *final(col) <= j),
{
    let ghost start = *state;
    let ghost mut rank = rank0;
    let ghost mut t = t0;
    let ghost mut progressed = false;
    loop
        invariant
            start == *old(state),
            start.wf(),
            core_inv(cost, *state, u, v),
            stage_inv(*state, rank, t),
            state.array == start.array,
            state.path == start.path,
            state.size() == start.size(),
            same_stars(start.mask, state.mask),
            primed_from(start, *state),
            forall|i: int| 1 <= i < start.size() && start.row_cover[i] ==> #[trigger] state.row_cover[i],
            forall|i: int|
                1 <= i < start.size() && #[trigger] state.column_cover[i] ==> start.column_cover[i],
            covered_count(state.row_cover@) >= covered_count(start.row_cover@),
            !progressed ==> *state == start,
            progressed ==> covered_count(state.row_cover@) > covered_count(start.row_cover@),
        decreases state.size() - covered_count(state.row_cover@),
    {
        let z = find_zero(&state.array, &state.row_cover, &state.column_cover);
        if z.0 == 0 {
            *row = 0;
            *col = z.1;
            return Ghost((rank, t));
        }
        let ghost before = *state;
        mark(&mut state.mask, z.0, z.1, PRIME);
        let star_col = get_row_mask(&state.mask, z.0, STAR);
        if star_col != NOT_FOUND {
            state.row_cover[z.0] = true;
            state.column_cover[star_col] = false;
            proof {
                lemma_prime_covers(
                    cost,
                    before,
                    *state,
                    u,
                    v,
                    rank,
                    t,
                    z.0 as int,
                    z.1 as int,
                    star_col as int,
                );
                lemma_same_stars_chain(start.mask, before.mask, state.mask);
                lemma_primed_chain(start, before, *state);
                lemma_covered_count_bound(state.row_cover@);
                rank = rank.update(z.0 as int, t);
                t = t + 1;
                progressed = true;
            }
        } else {
            proof {
                lemma_prime_head(cost, before, *state, u, v, rank, t, z.0 as int, z.1 as int);
                lemma_same_stars_chain(start.mask, before.mask, state.mask);
                lemma_primed_chain(start, before, *state);
            }
            *row = z.0;
            *col = z.1;
            return Ghost((rank.update(z.0 as int, t), t + 1));
        }
    }
}

/// Follows the alternating path that starts at the primed zero `(row, col)`:
/// the star in the column of a primed zero, then the first primed zero in the
/// row of that star, until a column holds no star. Each primed zero on the
/// way is starred and each star removed, and the cells are written to `path`
/// from entry 1 on, which grows where the path is longer than it.
///
/// Nothing else changes: not a cell of the mask off the path, nor an entry of
/// `path` behind the path.
fn augment_path(
    path: &mut Matrix<usize>,
    mask: &mut Matrix<usize>,
    row: usize,
    col: usize,
    Ghost(rank): Ghost<Seq<int>>,
)
    requires
        is_grid(*old(mask), old(mask).len() as int, old(mask).len() as int),
        is_grid(*old(path), old(path).len() as int, NODE_TYPES as int),
        old(path).len() >= 1,
        is_matching(*old(mask)),
        ranked(*old(mask), rank),
        1 <= row < old(mask).len(),
        1 <= col < old(mask).len(),
        old(mask)[row as int][col as int] == PRIME,
        !holds(old(mask)[row as int]@, STAR),
    ensures
        path_done(*old(mask), *final(mask), row as int, col as int),
        path_exact(
            *old(mask),
            *old(path),
            *final(mask),
            *final(path),
            row as int,
            col as int,
        ),
        is_grid(*final(path), final(path).len() as int, NODE_TYPES as int),
        final(path).len() >= old(path).len(),
{
    let ghost m0 = *mask;
    let ghost buffer = *path;
    proof {
        lemma_path_start(m0, rank, row as int, col as int);
    }
    let mut count: usize = 1;
    record(path, count, row, col);
    proof {
        lemma_exact_start(m0, buffer, *path, row as int, col as int);
    }
    let mut r: usize = row;
    let mut c: usize = col;
    loop
        invariant_except_break
            path_inv(m0, *mask, rank, row as int, r as int, c as int),
            is_path(m0, *path, row as int, col as int, count as int),
            path_row(*path, count as int) == r,
            path_col(*path, count as int) == c,
            turned_along(m0, *mask, *path, count - 1),
            buffer_kept(buffer, *path, count as int),
        invariant
            is_grid(*path, path.len() as int, NODE_TYPES as int),
            path.len() >= buffer.len(),
            count < path.len(),
            m0.len() == mask.len(),
            is_grid(m0, m0.len() as int, m0.len() as int),
            1 <= row < m0.len(),
            1 <= col < m0.len(),
        ensures
            path_done(m0, *mask, row as int, col as int),
            path_exact(m0, buffer, *mask, *path, row as int, col as int),
        decreases rank[r as int],
    {
        let star_row = get_col_mask(mask, c, STAR);
        let ghost m = *mask;
        mark(mask, r, c, STAR);
        let ghost m1 = *mask;
        if star_row == NOT_FOUND {
            proof {
                lemma_path_end(m0, m, m1, rank, row as int, r as int, c as int);
                lemma_exact_end(
                    m0,
                    m,
                    m1,
                    buffer,
                    *path,
                    row as int,
                    col as int,
                    count as int,
                    r as int,
                    c as int,
                );
            }
            break ;
        }
        let ghost p = *path;
        let ghost before = count as int;
        count = count + 1;
        record(path, count, star_row, c);
        let ghost pa = *path;
        mark(mask, star_row, c, 0);
        proof {
            lemma_path_next(m0, m, m1, *mask, rank, row as int, r as int, c as int, star_row as int);
        }
        let prime_col = get_row_mask(mask, star_row, PRIME);
        proof {
            let w = choose|j: int|
                1 <= j < mask[star_row as int]@.len() && #[trigger] mask[star_row as int]@[j] == PRIME;
            assert(mask[star_row as int][w] == PRIME);
            assert(first_prime(m0[star_row as int]@, prime_col as int)) by {
                assert((mask[star_row as int][prime_col as int] == PRIME) == (
                m0[star_row as int][prime_col as int] == PRIME));
                assert forall|b: int| 1 <= b < prime_col implies #[trigger] m0[star_row as int]@[b]
                    != PRIME by {
                    assert((mask[star_row as int][b] == PRIME) == (m0[star_row as int][b] == PRIME));
                }
            }
        }
        count = count + 1;
        record(path, count, star_row, prime_col);
        proof {
            lemma_exact_step(
                m0,
                m,
                *mask,
                buffer,
                p,
                pa,
                *path,
                row as int,
                col as int,
                before,
                r as int,
                c as int,
                star_row as int,
                prime_col as int,
            );
        }
        r = star_row;
        c = prime_col;
    }
}

/// A cheapest assignment of the rows to the columns.
#[derive(Debug)]
pub struct Matching {
    /// `STAR` in the selected cell of each row, 0 elsewhere.
    pub mask: Matrix<usize>,
    /// For each row the selected column. Entry 0 is not used.
    pub assignment: Vec<usize>,
    /// For each row, the name of its node and the name of the node of the
    /// selected column.
    pub pairs: Vec<(String, String)>,
    /// The sum of the costs of the selected cells.
    pub cost: i128,
}

/// The solver went round once without changing anything.
#[derive(Debug)]
pub struct StallError {
    /// How many columns were covered then.
    pub col_covered_count: usize,
    /// How many rows were covered then.
    pub row_covered_count: usize,
}

/// The selected columns as integers.
pub open spec fn columns(assignment: Seq<usize>) -> Seq<int> {
    Seq::new(assignment.len(), |r: int| assignment[r] as int)
}

impl Matching {
    /// The matching is a cheapest assignment on `array`: it selects one cell
    /// in each row and one in each column, no assignment costs less in all,
    /// and the pairs name the nodes of the selected cells after `keys`.
    pub open spec fn solves(&self, array: Matrix<i32>, keys: Map<usize, (String, usize)>) -> bool {
        let n = array.len() as int;
        let sigma = columns(self.assignment@);
        &&& is_grid(self.mask, n, n)
        &&& is_assignment(sigma, n)
        &&& forall|c: int| 1 <= c < n ==> #[trigger] reaches(sigma, c)
        &&& n >= 1 ==> self.assignment[0] == 0
        &&& forall|r: int, c: int|
            0 <= r < n && 0 <= c < n ==> #[trigger] self.mask[r][c] == if r >= 1 && c >= 1 && c
                == sigma[r] {
                STAR
            } else {
                0
            }
        &&& is_optimal(int_entries(array), sigma, n)
        &&& self.cost == assignment_cost(int_entries(array), sigma)
        &&& self.pairs.len() == if n >= 1 {
            n - 1
        } else {
            0
        }
        &&& forall|r: usize|
            1 <= r < n ==> (#[trigger] self.pairs[r - 1]).0 == keys[r].0 && self.pairs[r - 1].1
                == keys[self.assignment[r as int]].0
    }
}

/// The column of the star of each row.
fn read_assignment(mask: &Matrix<usize>) -> (assignment: Vec<usize>)
    requires
        is_grid(*mask, mask.len() as int, mask.len() as int),
        forall|r: int| 1 <= r < mask.len() ==> holds(#[trigger] mask[r]@, STAR),
    ensures
        assignment.len() == mask.len(),
        mask.len() >= 1 ==> assignment[0] == 0,
        forall|r: int|
            1 <= r < mask.len() ==> 1 <= #[trigger] assignment[r] < mask.len()
                && mask[r][assignment[r] as int] == STAR,
{
    let size = mask.len();
    let mut assignment: Vec<usize> = Vec::new();
    if size > 0 {
        assignment.push(0);
    }
    let mut r: usize = 1;
    while r < size
        invariant
            1 <= r <= size || size == 0,
            size == mask.len(),
            is_grid(*mask, size as int, size as int),
            forall|a: int| 1 <= a < size ==> holds(#[trigger] mask[a]@, STAR),
            size > 0 ==> assignment.len() == r && assignment[0] == 0,
            size == 0 ==> assignment.len() == 0,
            forall|a: int|
                1 <= a < r && a < size ==> 1 <= #[trigger] assignment[a] < size
                    && mask[a][assignment[a] as int] == STAR,
        decreases size - r,
    {
        let c = get_row_mask(mask, r, STAR);
        proof {
            assert(holds(mask[r as int]@, STAR));
            let w = choose|j: int| 1 <= j < mask[r as int]@.len() && #[trigger] mask[r as int]@[j] == STAR;
            assert(mask[r as int][w] == STAR);
        }
        assignment.push(c);
        r += 1;
    }
    assignment
}

/// The sum of the costs of the cells that `assignment` selects.
fn total_cost(cost: &Matrix<i32>, assignment: &Vec<usize>) -> (sum: i128)
    requires
        is_grid(*cost, cost.len() as int, cost.len() as int),
        assignment.len() == cost.len(),
        forall|r: int| 1 <= r < cost.len() ==> 1 <= #[trigger] assignment[r] < cost.len(),
    ensures
        sum == assignment_cost(int_entries(*cost), columns(assignment@)),
{
    let size = cost.len();
    let ghost chosen = chosen_costs(int_entries(*cost), columns(assignment@));
    let mut sum: i128 = 0;
    let mut r: usize = 1;
    while r < size
        invariant
            1 <= r <= size || size == 0,
            size == cost.len(),
            is_grid(*cost, size as int, size as int),
            assignment.len() == size,
            forall|a: int| 1 <= a < size ==> 1 <= #[trigger] assignment[a] < size,
            chosen == chosen_costs(int_entries(*cost), columns(assignment@)),
            size >= 1 ==> sum == total(chosen.take(r - 1)),
            size == 0 ==> sum == 0,
            -(r as int) * 0x8000_0000 <= sum <= r * 0x8000_0000,
        decreases size - r,
    {
        let c = assignment[r];
        proof {
            assert(chosen.take(r as int).drop_last() =~= chosen.take(r - 1));
            assert(chosen.take(r as int).last() == cost[r as int][c as int]);
        }
        sum = sum + cost[r][c] as i128;
        r += 1;
    }
    proof {
        if size >= 1 {
            assert(chosen.take(size - 1) =~= chosen);
        }
    }
    sum
}

/// For each row the names of the two nodes that the assignment pairs.
fn name_pairs(assignment: &Vec<usize>, keys: &HashMap<usize, (String, usize)>) -> (pairs: Vec<
    (String, String),
>)
    requires
        forall|r: usize| 1 <= r < assignment.len() ==> #[trigger] keys@.contains_key(r),
        forall|r: int| 1 <= r < assignment.len() ==> 1 <= #[trigger] assignment[r] < assignment.len(),
    ensures
        pairs.len() == if assignment.len() >= 1 {
            assignment.len() - 1
        } else {
            0
        },
        forall|r: usize|
            1 <= r < assignment.len() ==> (#[trigger] pairs[r - 1]).0 == keys@[r].0 && pairs[r
                - 1].1 == keys@[assignment[r as int]].0,
{
    let size = assignment.len();
    let mut pairs: Vec<(String, String)> = Vec::new();
    let mut r: usize = 1;
    while r < size
        invariant
            1 <= r <= size || size == 0,
            size == assignment.len(),
            forall|a: usize| 1 <= a < size ==> #[trigger] keys@.contains_key(a),
            forall|a: int| 1 <= a < size ==> 1 <= #[trigger] assignment[a] < size,
            size > 0 ==> pairs.len() == r - 1,
            size == 0 ==> pairs.len() == 0,
            forall|a: usize|
                1 <= a < r && a < size ==> (#[trigger] pairs[a - 1]).0 == keys@[a].0 && pairs[a
                    - 1].1 == keys@[assignment[a as int]].0,
        decreases size - r,
    {
        let c = assignment[r];
        assert(keys@.contains_key(r));
        assert(keys@.contains_key(c));
        let from = keys.get(&r).unwrap().0.clone();
        let to = keys.get(&c).unwrap().0.clone();
        pairs.push((from, to));
        r += 1;
    }
    pairs
}

/// A copy of `array`.
pub(crate) fn duplicate(array: &Matrix<i32>) -> (copy: Matrix<i32>)
    ensures
        same_shape(copy, *array),
        forall|i: int, j: int|
            0 <= i < array.len() && 0 <= j < array[i].len() ==> #[trigger] copy[i][j]
                == array[i][j],
{
    let size = array.len();
    let mut copy: Matrix<i32> = Vec::new();
    let mut i: usize = 0;
    while i < size
        invariant
            i <= size,
            size == array.len(),
            copy.len() == i,
            forall|a: int| 0 <= a < i ==> (#[trigger] copy[a]).len() == array[a].len(),
            forall|a: int, b: int|
                0 <= a < i && 0 <= b < array[a].len() ==> #[trigger] copy[a][b] == array[a][b],
        decreases size - i,
    {
        let width = array[i].len();
        let mut row: Vec<i32> = Vec::new();
        let mut j: usize = 0;
        while j < width
            invariant
                i < size,
                size == array.len(),
                width == array[i as int].len(),
                j <= width,
                row.len() == j,
                forall|b: int| 0 <= b < j ==> #[trigger] row[b] == array[i as int][b],
            decreases width - j,
        {
            row.push(array[i][j]);
            j += 1;
        }
        copy.push(row);
        i += 1;
    }
    copy
}

/// Reads the solution from a state in which every column holds a star.
fn finish(
    state: State,
    costs: &Matrix<i32>,
    keys: &HashMap<usize, (String, usize)>,
    Ghost(u): Ghost<Seq<int>>,
    Ghost(v): Ghost<Seq<int>>,
) -> (m: Matching)
    requires
        core_inv(int_entries(*costs), state, u, v),
        is_grid(*costs, costs.len() as int, costs.len() as int),
        state.size() == costs.len(),
        forall|c: int| 1 <= c < state.size() ==> #[trigger] col_has(state.mask, c, STAR),
        no_primes(state.mask),
        forall|r: usize| 1 <= r < costs.len() ==> #[trigger] keys@.contains_key(r),
    ensures
        m.solves(*costs, keys@),
        costs.len() <= 1 ==> m.pairs.len() == 0 && m.cost == 0,
{
    let ghost cost = int_entries(*costs);
    let ghost n = state.size();
    proof {
        lemma_all_rows_starred(state.mask);
    }
    let assignment = read_assignment(&state.mask);
    let sum = total_cost(costs, &assignment);
    let pairs = name_pairs(&assignment, keys);
    let ghost sigma = columns(assignment@);
    proof {
        lemma_terminal(cost, state, u, v, sigma);
        assert forall|c: int| 1 <= c < n implies #[trigger] reaches(sigma, c) by {
            assert(col_has(state.mask, c, STAR));
            let r = choose|r: int| 1 <= r < state.mask.len() && #[trigger] state.mask[r][c] == STAR;
            assert(state.mask[r][sigma[r]] == STAR);
            assert(sigma[r] == c);
        }
        assert forall|r: int, c: int| 0 <= r < n && 0 <= c < n implies #[trigger] state.mask[r][c]
            == if r >= 1 && c >= 1 && c == sigma[r] {
            STAR
        } else {
            0
        } by {
            if r >= 1 && c >= 1 {
                assert(state.mask[r][sigma[r]] == STAR);
                assert(state.mask[r][c] != PRIME);
            }
        }
    }
    Matching { mask: state.mask, assignment, pairs, cost: sum }
}

/// Finds a cheapest assignment of the rows `1..size` of `array` to its
/// columns `1..size`, and names the pairs after `keys`.
///
/// The rows are reduced, zeros are starred, and then columns are covered,
/// zeros primed, paths turned and weights shifted in turn until every column
/// holds a star. After each round the state is held against that of the round
/// before; a round that changed nothing would end the search with a
/// `StallError`. On a square matrix without negative costs no round is such a
/// one, and the search ends with a matching. Without rows the matching is
/// empty and costs nothing.
pub fn solve(array: Matrix<i32>, keys: HashMap<usize, (String, usize)>) -> (result: Result<
    Matching,
    StallError,
>)
    requires
        is_grid(array, array.len() as int, array.len() as int),
        forall|i: int, j: int|
            1 <= i < array.len() && 1 <= j < array.len() ==> 0 <= #[trigger] array[i][j],
        forall|r: usize| 1 <= r < array.len() ==> #[trigger] keys@.contains_key(r),
    ensures
        match result {
            Ok(m) => m.solves(array, keys@) && (array.len() <= 1 ==> m.pairs.len() == 0 && m.cost
                == 0),
            Err(_) => false,
        },
{
    let size = array.len();
    let ghost cost = int_entries(array);
    let costs = duplicate(&array);
    assert(int_entries(costs) =~~= cost);
    let mut state: State = State::new(array);
    // The state of the round before, to see whether a round changes anything.
    let mut copy: State = State::new(square(size));
    let least = reduce_rows(&mut state, Ghost(cost));
    star_zeros(&mut state);
    clear_covers(&mut state.row_cover, &mut state.column_cover);
    // Whether no round has begun yet, so that `copy` does not hold a state.
    let mut fresh = true;
    let ghost mut u = least@;
    let ghost mut v = Seq::new(size as nat, |j: int| 0int);
    let ghost mut rank = Seq::new(size as nat, |i: int| 0int);
    let ghost mut t = 0int;
    let ghost mut c0 = 0int;
    // Whether the next round goes on priming zeros, rather than covering the
    // columns of the stars first.
    let mut offset = false;
    loop
        invariant
            size == state.size(),
            size == costs.len(),
            is_grid(costs, size as int, size as int),
            cost == int_entries(costs),
            cost == int_entries(array),
            size == array.len(),
            forall|r: usize| 1 <= r < size ==> #[trigger] keys@.contains_key(r),
            core_inv(cost, state, u, v),
            copy.wf(),
            copy.size() == size,
            !fresh ==> agree(copy, state),
            fresh ==> !offset,
            !offset ==> no_primes(state.mask),
            !offset ==> forall|i: int| 1 <= i < size ==> !#[trigger] state.row_cover[i],
            !offset ==> forall|i: int| 1 <= i < size ==> !#[trigger] state.column_cover[i],
            offset ==> stage_inv(state, rank, t),
            offset ==> 1 <= c0 < size && !col_has(state.mask, c0, STAR),
            offset ==> exists|i: int, j: int|
                1 <= i < size && 1 <= j < size && #[trigger] uncovered_zero(
                    state.array,
                    state.row_cover@,
                    state.column_cover@,
                    i,
                    j,
                ),
        decreases
                size - star_count(state.mask),
                (if offset {
                    size - covered_count(state.row_cover@)
                } else {
                    size + 1
                }),
    {
        let ghost head = state;
        proof {
            lemma_covered_count_bound(star_rows(state.mask));
            lemma_covered_count_bound(state.row_cover@);
        }
        if !offset {
            cover_starred_columns(&mut state);
            if solved(&state.column_cover) {
                proof {
                    assert forall|c: int| 1 <= c < size implies #[trigger] col_has(
                        state.mask,
                        c,
                        STAR,
                    ) by {
                        assert(state.column_cover[c]);
                    }
                }
                return Ok(finish(state, &costs, &keys, Ghost(u), Ghost(v)));
            }
            proof {
                c0 = choose|c: int| 1 <= c < size && !state.column_cover[c];
                lemma_stage_start(cost, state, u, v);
                rank = Seq::new(size as nat, |i: int| 0int);
                t = 0;
            }
            offset = true;
        }
        proof {
            // Only a matrix with rows comes as far as the priming of zeros and
            // the look at what a round has changed.
            assert(!col_has(state.mask, c0, STAR));
            assert(size >= 2);
        }
        if fresh {
            let _ = makes_progress(&state, &mut copy);
            fresh = false;
        }
        let ghost entry = state;
        let mut row: usize = 0;
        let mut col: usize = 0;
        let out = prime(&mut state, &mut row, &mut col, Ghost(cost), Ghost(u), Ghost(v), Ghost(rank), Ghost(t));
        let ghost primed = state;
        proof {
            lemma_same_stars(entry.mask, primed.mask);
            lemma_covered_count_bound(primed.row_cover@);
        }
        if row > 0 && col > 0 {
            augment_path(&mut state.path, &mut state.mask, row, col, Ghost(out@.0));
            let ghost turned = state.mask;
            clear_covers(&mut state.row_cover, &mut state.column_cover);
            clear_mask(&mut state.mask, PRIME);
            proof {
                lemma_augmented(cost, primed, state, u, v, turned, row as int, col as int);
                lemma_covered_count_bound(star_rows(state.mask));
                if agree(copy, state) {
                    assert forall|i: int, j: int| 1 <= i < size && 1 <= j < size implies (
                    #[trigger] head.mask[i][j] == STAR) == (state.mask[i][j] == STAR) by {
                        assert(copy.mask[i][j] == head.mask[i][j]);
                        assert(copy.mask[i][j] == state.mask[i][j]);
                    }
                    lemma_same_stars(head.mask, state.mask);
                    assert(false);
                }
            }
            offset = false;
        } else {
            proof {
                let r0 = lemma_unstarred_row(state.mask, c0);
                assert(uncovered(state.row_cover@, state.column_cover@, r0, c0));
                assert forall|i: int, j: int| 1 <= i < size && 1 <= j < size implies 0
                    <= #[trigger] state.array[i][j] <= WEIGHT_LIMIT by {
                    assert(state.array[i][j] == cost[i][j] - u[i] - v[j]);
                    assert(0 <= cost[i][j] <= limit());
                    assert(0 <= u[i]);
                    assert(-limit() <= v[j]);
                }
            }
            augment_weights(&mut state.array, &state.row_cover, &state.column_cover);
            proof {
                let r0 = lemma_unstarred_row(primed.mask, c0);
                let next = lemma_weights(cost, primed, state, u, v, out@.0, out@.1, r0, c0);
                u = next.0;
                v = next.1;
                rank = out@.0;
                t = out@.1;
                let (di, dj) = choose|i: int, j: int|
                    1 <= i < size && 1 <= j < size && #[trigger] state.array[i][j]
                        != primed.array[i][j];
                assert(copy.array[di][dj] == head.array[di][dj]);
                assert(!agree(copy, state));
            }
        }
        if !makes_progress(&state, &mut copy) {
            return Err(
                StallError {
                    col_covered_count: col_covered_count(&state.column_cover),
                    row_covered_count: row_covered_count(&state.row_cover),
                },
            );
        }
    }
}

} // verus!
