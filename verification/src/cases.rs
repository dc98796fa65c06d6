//! Small cost matrices to try the solver on.

use vstd::prelude::*;

verus! {

/// The number of rows and columns of a case matrix.
pub const SIZE: usize = 1000;

/// The rows of the diagonal case: each cell costs its row times its column.
pub open spec fn diagonal_rows() -> Seq<Seq<i32>> {
    seq![seq![1i32, 2i32, 3i32], seq![2i32, 4i32, 6i32], seq![3i32, 6i32, 9i32]]
}

/// The rows of the case in which one cell of each row is cheaper than the
/// rest.
pub open spec fn random_rows() -> Seq<Seq<i32>> {
    seq![seq![10i32, 2i32, 10i32], seq![10i32, 10i32, 6i32], seq![3i32, 10i32, 10i32]]
}

/// `after` is `before` with the cells of `rows` in its rows and columns from
/// 1 on.
pub open spec fn holds_rows(
    before: [[i32; SIZE]; SIZE],
    after: [[i32; SIZE]; SIZE],
    rows: Seq<Seq<i32>>,
) -> bool {
    forall|i: int, j: int|
        0 <= i < SIZE && 0 <= j < SIZE ==> #[trigger] after[i][j] == if 1 <= i <= rows.len() && 1
            <= j <= rows[i - 1].len() {
            rows[i - 1][j - 1]
        } else {
            before[i][j]
        }
}

/// Writes `row` to row `pos`, from column 1 on.
fn write_row(array: &mut [[i32; SIZE]; SIZE], row: Vec<i32>, pos: usize)
    requires
        pos < SIZE,
        row.len() < SIZE,
    ensures
        forall|i: int, j: int|
            0 <= i < SIZE && 0 <= j < SIZE ==> #[trigger] final(array)[i][j] == if i == pos && 1
                <= j <= row.len() {
                row[j - 1]
            } else {
                old(array)[i][j]
            },
{
    let ghost before = *array;
    let mut i: usize = 0;
    while i < row.len()
        invariant
            i <= row.len(),
            pos < SIZE,
            row.len() < SIZE,
            forall|a: int, b: int|
                0 <= a < SIZE && 0 <= b < SIZE ==> #[trigger] array[a][b] == if a == pos && 1 <= b
                    <= i {
                    row[b - 1]
                } else {
                    before[a][b]
                },
        decreases row.len() - i,
    {
        array[pos][i + 1] = row[i];
        i += 1;
    }
}

/// Writes the diagonal case to the rows and columns 1 to 3.
pub fn simple_diagonal(array: &mut [[i32; SIZE]; SIZE])
    ensures
        holds_rows(*old(array), *final(array), diagonal_rows()),
{
    write_row(array, vec![1, 2, 3], 1);
    write_row(array, vec![2, 4, 6], 2);
    write_row(array, vec![3, 6, 9], 3);
}

/// Writes to the rows and columns 1 to 3 the case in which one cell of each
/// row is cheaper than the rest.
pub fn simple_random(array: &mut [[i32; SIZE]; SIZE])
    ensures
        holds_rows(*old(array), *final(array), random_rows()),
{
    write_row(array, vec![10, 2, 10], 1);
    write_row(array, vec![10, 10, 6], 2);
    write_row(array, vec![3, 10, 10], 3);
}

} // verus!
