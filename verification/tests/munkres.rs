use std::collections::HashMap;

use route_inspection::munkres::{
    augment_weights, clear_covers, clear_mask, col_covered_count, cover, cover_column, find_min,
    find_zero, get_col_mask, get_row_mask, makes_progress, matrix, row_covered_count, row_min,
    solve, solved, square, subtract_row, State, MAX, NOT_FOUND, PRIME, STAR,
};

/// A cost matrix with the unused row and column 0 around `rows`.
fn padded(rows: &[Vec<i32>]) -> Vec<Vec<i32>> {
    let size = rows.len() + 1;
    let mut out = vec![vec![0; size]; size];
    for (i, row) in rows.iter().enumerate() {
        for (j, value) in row.iter().enumerate() {
            out[i + 1][j + 1] = *value;
        }
    }
    out
}

fn names(count: usize) -> HashMap<usize, (String, usize)> {
    let mut keys = HashMap::new();
    for i in 1..=count {
        keys.insert(i, (format!("n{}", i), i - 1));
    }
    keys
}

fn cheapest_by_search(rows: &[Vec<i32>]) -> i128 {
    fn go(rows: &[Vec<i32>], row: usize, used: &mut Vec<bool>, so_far: i128, best: &mut i128) {
        if row == rows.len() {
            if so_far < *best {
                *best = so_far;
            }
            return;
        }
        for col in 0..rows.len() {
            if !used[col] {
                used[col] = true;
                go(rows, row + 1, used, so_far + rows[row][col] as i128, best);
                used[col] = false;
            }
        }
    }
    let mut best = i128::MAX;
    let mut used = vec![false; rows.len()];
    go(rows, 0, &mut used, 0, &mut best);
    best
}

fn check_solution(rows: &[Vec<i32>]) -> i128 {
    let k = rows.len();
    let found = solve(padded(rows), names(k)).expect("the solver completes");
    assert_eq!(found.assignment.len(), k + 1);
    let mut seen = vec![false; k + 1];
    let mut sum: i128 = 0;
    for r in 1..=k {
        let c = found.assignment[r];
        assert!(1 <= c && c <= k);
        assert!(!seen[c]);
        seen[c] = true;
        sum += rows[r - 1][c - 1] as i128;
        for j in 1..=k {
            assert_eq!(found.mask[r][j] == STAR, j == c);
        }
        assert_eq!(found.pairs[r - 1], (format!("n{}", r), format!("n{}", c)));
    }
    for c in 1..=k {
        let stars = (1..=k).filter(|r| found.mask[*r][c] == STAR).count();
        assert_eq!(stars, 1);
    }
    assert_eq!(found.cost, sum);
    assert_eq!(found.pairs.len(), k);
    assert_eq!(found.cost, cheapest_by_search(rows));
    found.cost
}

#[test]
fn two_by_two_prefers_the_cross_pairing() {
    let rows = vec![vec![1, 2], vec![2, 4]];
    let found = solve(padded(&rows), names(2)).unwrap();
    assert_eq!(found.assignment, vec![0, 2, 1]);
    assert_eq!(found.cost, 4);
    assert!(found.cost < 1 + 4);
    assert_eq!(
        found.pairs,
        vec![("n1".to_string(), "n2".to_string()), ("n2".to_string(), "n1".to_string())]
    );
    assert_eq!(found.mask[1][2], STAR);
    assert_eq!(found.mask[2][1], STAR);
    assert_eq!(found.mask[1][1], 0);
    assert_eq!(found.mask[2][2], 0);
}

#[test]
fn no_rows_give_an_empty_matching() {
    let found = solve(vec![vec![0]], HashMap::new()).unwrap();
    assert!(found.pairs.is_empty());
    assert_eq!(found.cost, 0);
    assert_eq!(found.assignment, vec![0]);
    let found = solve(Vec::new(), HashMap::new()).unwrap();
    assert!(found.pairs.is_empty());
    assert_eq!(found.cost, 0);
    assert!(found.assignment.is_empty());
}

#[test]
fn one_row_is_paired_with_its_only_column() {
    assert_eq!(check_solution(&[vec![7]]), 7);
}

#[test]
fn diagonal_case_costs_ten() {
    let rows = vec![vec![1, 2, 3], vec![2, 4, 6], vec![3, 6, 9]];
    assert_eq!(check_solution(&rows), 10);
}

#[test]
fn random_case_takes_the_cheap_cell_of_each_row() {
    let rows = vec![vec![10, 2, 10], vec![10, 10, 6], vec![3, 10, 10]];
    let found = solve(padded(&rows), names(3)).unwrap();
    assert_eq!(found.assignment, vec![0, 2, 3, 1]);
    assert_eq!(found.cost, 11);
}

#[test]
fn solution_is_a_cheapest_bijection_on_small_matrices() {
    let mut seed: u64 = 0x2545_f491_4f6c_dd1d;
    for k in 1..=6usize {
        for _ in 0..40 {
            let mut rows = vec![vec![0i32; k]; k];
            for i in 0..k {
                for j in 0..k {
                    seed = seed
                        .wrapping_mul(6364136223846793005)
                        .wrapping_add(1442695040888963407);
                    rows[i][j] = ((seed >> 33) % 50) as i32;
                }
            }
            check_solution(&rows);
        }
    }
}

#[test]
fn solution_is_cheapest_with_many_equal_costs() {
    let mut seed: u64 = 99;
    for k in 2..=6usize {
        for _ in 0..40 {
            let mut rows = vec![vec![0i32; k]; k];
            for i in 0..k {
                for j in 0..k {
                    seed = seed
                        .wrapping_mul(6364136223846793005)
                        .wrapping_add(1442695040888963407);
                    rows[i][j] = ((seed >> 33) % 3) as i32;
                }
            }
            check_solution(&rows);
        }
    }
}

#[test]
fn solution_is_cheapest_with_forbidden_self_pairs() {
    let mut seed: u64 = 7;
    for k in 2..=6usize {
        for _ in 0..30 {
            let mut rows = vec![vec![0i32; k]; k];
            for i in 0..k {
                for j in 0..k {
                    seed = seed
                        .wrapping_mul(6364136223846793005)
                        .wrapping_add(1442695040888963407);
                    rows[i][j] = if i == j { MAX } else { ((seed >> 33) % 1000) as i32 };
                }
            }
            let cost = check_solution(&rows);
            assert!(cost < MAX as i128);
        }
    }
}

#[test]
fn solving_twice_costs_the_same() {
    let rows = vec![
        vec![MAX, 4, 4, 9],
        vec![4, MAX, 9, 4],
        vec![4, 9, MAX, 4],
        vec![9, 4, 4, MAX],
    ];
    let first = solve(padded(&rows), names(4)).unwrap();
    let second = solve(padded(&rows), names(4)).unwrap();
    assert_eq!(first.cost, second.cost);
    assert_eq!(first.cost, 16);
}

#[test]
fn unreachable_pair_is_left_out_where_a_reachable_one_exists() {
    let rows = vec![
        vec![MAX, 5, MAX, 7],
        vec![5, MAX, 3, MAX],
        vec![MAX, 3, MAX, 2],
        vec![7, MAX, 2, MAX],
    ];
    let found = solve(padded(&rows), names(4)).unwrap();
    for r in 1..=4 {
        assert!(rows[r - 1][found.assignment[r] - 1] < MAX);
    }
    assert_eq!(found.cost, cheapest_by_search(&rows));
    assert!(found.cost < MAX as i128);
}

#[test]
fn large_costs_do_not_overflow() {
    let big = i32::MAX;
    let rows = vec![vec![big, big - 1, big], vec![big, big, big - 2], vec![big - 3, big, big]];
    let cost = check_solution(&rows);
    assert_eq!(cost, 3 * big as i128 - 6);
}

#[test]
fn matrix_and_square_hold_default_values() {
    let m: Vec<Vec<i32>> = matrix(2, 3);
    assert_eq!(m, vec![vec![0, 0, 0], vec![0, 0, 0]]);
    let s: Vec<Vec<bool>> = square(2);
    assert_eq!(s, vec![vec![false, false], vec![false, false]]);
    let e: Vec<Vec<usize>> = square(0);
    assert!(e.is_empty());
}

#[test]
fn new_state_holds_the_costs_and_nothing_else() {
    let state = State::new(padded(&[vec![3, 1], vec![2, 5]]));
    assert_eq!(state.array, vec![vec![0i64, 0, 0], vec![0, 3, 1], vec![0, 2, 5]]);
    assert_eq!(state.mask, vec![vec![0usize; 3]; 3]);
    assert_eq!(state.path, vec![vec![0usize; 3]; 3]);
    assert_eq!(state.row_cover, vec![false; 3]);
    assert_eq!(state.column_cover, vec![false; 3]);
}

#[test]
fn row_min_and_subtract_row_reduce_a_row() {
    let mut array: Vec<Vec<i64>> = vec![vec![0, 0, 0, 0], vec![0, 5, 3, 9], vec![0, 7, 7, 8], vec![0, 1, 2, 0]];
    assert_eq!(row_min(&array, 1), 3);
    assert_eq!(row_min(&array, 2), 7);
    assert_eq!(row_min(&array, 3), 0);
    subtract_row(&mut array, 1, 3);
    assert_eq!(array[1], vec![0, 2, 0, 6]);
    assert_eq!(array[2], vec![0, 7, 7, 8]);
}

#[test]
fn cover_stars_an_uncovered_zero_only() {
    let mut state = State::new(padded(&[vec![0, 0], vec![0, 4]]));
    cover(&mut state, 1, 1);
    assert_eq!(state.mask[1][1], STAR);
    assert!(state.row_cover[1] && state.column_cover[1]);
    cover(&mut state, 1, 2);
    assert_eq!(state.mask[1][2], 0);
    cover(&mut state, 2, 1);
    assert_eq!(state.mask[2][1], 0);
    cover(&mut state, 2, 2);
    assert_eq!(state.mask[2][2], 0);
    assert!(!state.row_cover[2] && !state.column_cover[2]);
}

#[test]
fn find_zero_takes_the_first_uncovered_zero() {
    let array: Vec<Vec<i64>> = vec![vec![0, 0, 0, 0], vec![0, 1, 0, 0], vec![0, 0, 2, 0], vec![0, 0, 0, 3]];
    let none = vec![false; 4];
    assert_eq!(find_zero(&array, &none, &none), (1, 2));
    let rows = vec![false, true, false, false];
    assert_eq!(find_zero(&array, &rows, &none), (2, 1));
    let cols = vec![false, true, false, true];
    assert_eq!(find_zero(&array, &rows, &cols), (3, 2));
    let all = vec![false, true, true, true];
    assert_eq!(find_zero(&array, &all, &none), (0, 0));
}

#[test]
fn mask_searches_find_the_first_or_nothing() {
    let mask: Vec<Vec<usize>> = vec![vec![STAR, STAR, STAR], vec![0, PRIME, STAR], vec![0, STAR, PRIME]];
    assert_eq!(get_row_mask(&mask, 1, STAR), 2);
    assert_eq!(get_row_mask(&mask, 1, PRIME), 1);
    assert_eq!(get_row_mask(&mask, 2, 0), NOT_FOUND);
    assert_eq!(get_col_mask(&mask, 1, STAR), 2);
    assert_eq!(get_col_mask(&mask, 2, PRIME), 2);
    assert_eq!(get_col_mask(&mask, 2, 0), NOT_FOUND);
}

#[test]
fn clearing_spares_row_and_column_zero() {
    let mut rows = vec![true, true, false];
    let mut cols = vec![true, false, true];
    clear_covers(&mut rows, &mut cols);
    assert_eq!(rows, vec![true, false, false]);
    assert_eq!(cols, vec![true, false, false]);
    let mut mask: Vec<Vec<usize>> = vec![vec![PRIME, PRIME, 0], vec![PRIME, PRIME, STAR], vec![0, STAR, PRIME]];
    clear_mask(&mut mask, PRIME);
    assert_eq!(mask, vec![vec![PRIME, PRIME, 0], vec![PRIME, 0, STAR], vec![0, STAR, 0]]);
}

#[test]
fn solved_asks_for_every_column_from_one_on() {
    assert!(solved(&vec![false, true, true]));
    assert!(!solved(&vec![true, true, false]));
    assert!(solved(&vec![false]));
    assert!(solved(&Vec::new()));
    let mut cols = vec![false, false];
    cover_column(&mut cols, 1);
    assert!(solved(&cols));
}

#[test]
fn find_min_looks_at_uncovered_cells_only() {
    let array: Vec<Vec<i64>> = vec![vec![-5, -5, -5], vec![-5, 4, 2], vec![-5, 1, 8]];
    let none = vec![false; 3];
    assert_eq!(find_min(&array, &none, &none), 1);
    assert_eq!(find_min(&array, &vec![false, false, true], &none), 2);
    assert_eq!(find_min(&array, &vec![false, false, true], &vec![false, false, true]), 4);
    assert_eq!(find_min(&array, &vec![false, true, true], &none), i64::MAX);
}

#[test]
fn augment_weights_shifts_by_the_least_uncovered_value() {
    let mut array: Vec<Vec<i64>> = vec![vec![9, 9, 9], vec![9, 0, 5], vec![9, 3, 7]];
    let rows = vec![false, true, false];
    let cols = vec![false, true, false];
    augment_weights(&mut array, &rows, &cols);
    assert_eq!(array, vec![vec![9, 9, 9], vec![9, 7, 5], vec![9, 3, 0]]);
    let all = vec![false, true, true];
    let mut same = array.clone();
    augment_weights(&mut same, &all, &cols);
    assert_eq!(same, array);
}

#[test]
fn covered_counts_leave_entry_zero_out() {
    assert_eq!(col_covered_count(&vec![true, true, false, true]), 2);
    assert_eq!(row_covered_count(&vec![true, false, false]), 0);
    assert_eq!(row_covered_count(&Vec::new()), 0);
}

#[test]
fn makes_progress_sees_each_part_of_the_state() {
    let mut previous = State::new(padded(&[vec![1, 2], vec![3, 4]]));
    let mut state = State::new(padded(&[vec![1, 2], vec![3, 4]]));
    assert!(!makes_progress(&state, &mut previous));
    state.array[2][1] = 0;
    assert!(makes_progress(&state, &mut previous));
    assert!(!makes_progress(&state, &mut previous));
    state.mask[1][2] = PRIME;
    assert!(makes_progress(&state, &mut previous));
    state.row_cover[1] = true;
    assert!(makes_progress(&state, &mut previous));
    state.column_cover[2] = true;
    assert!(makes_progress(&state, &mut previous));
    state.path[1][STAR] = 2;
    assert!(makes_progress(&state, &mut previous));
    assert!(!makes_progress(&state, &mut previous));
    state.array[0][0] = 77;
    state.mask[0][1] = STAR;
    state.row_cover[0] = true;
    assert!(!makes_progress(&state, &mut previous));
    assert_eq!(previous.array[2][1], 0);
    assert_eq!(previous.mask[1][2], PRIME);
}

#[test]
fn a_larger_matrix_is_solved() {
    let k = 40usize;
    let mut seed: u64 = 2024;
    let mut rows = vec![vec![0i32; k]; k];
    for i in 0..k {
        for j in 0..k {
            seed = seed.wrapping_mul(6364136223846793005).wrapping_add(1442695040888963407);
            rows[i][j] = if i == j { MAX } else { ((seed >> 33) % 10_000) as i32 };
        }
    }
    let found = solve(padded(&rows), names(k)).unwrap();
    let mut seen = vec![false; k + 1];
    let mut sum: i128 = 0;
    for r in 1..=k {
        let c = found.assignment[r];
        assert!(1 <= c && c <= k && !seen[c]);
        seen[c] = true;
        sum += rows[r - 1][c - 1] as i128;
    }
    assert_eq!(found.cost, sum);
    let shifted: i128 = (0..k).map(|i| rows[i][(i + 1) % k] as i128).sum();
    assert!(found.cost <= shifted);
    let mut taken = vec![false; k];
    let mut greedy: i128 = 0;
    for i in 0..k {
        let mut best = usize::MAX;
        for j in 0..k {
            if !taken[j] && (best == usize::MAX || rows[i][j] < rows[i][best]) {
                best = j;
            }
        }
        taken[best] = true;
        greedy += rows[i][best] as i128;
    }
    assert!(found.cost <= greedy);
}
