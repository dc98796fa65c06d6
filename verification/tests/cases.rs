use std::collections::HashMap;

use route_inspection::cases::{simple_diagonal, simple_random, SIZE};
use route_inspection::munkres::solve;

fn blank() -> Box<[[i32; SIZE]; SIZE]> {
    let cells: Box<[[i32; SIZE]]> = vec![[0i32; SIZE]; SIZE].into_boxed_slice();
    match cells.try_into() {
        Ok(array) => array,
        Err(_) => panic!("the matrix has SIZE rows"),
    }
}

fn corner(array: &[[i32; SIZE]; SIZE]) -> Vec<Vec<i32>> {
    (0..4).map(|i| array[i][0..4].to_vec()).collect()
}

fn three_names() -> HashMap<usize, (String, usize)> {
    let mut keys = HashMap::new();
    keys.insert(1, ("one".to_string(), 0));
    keys.insert(2, ("two".to_string(), 1));
    keys.insert(3, ("three".to_string(), 2));
    keys
}

#[test]
fn simple_diagonal_fills_three_rows() {
    let mut array = blank();
    array[0][0] = 5;
    array[4][4] = 6;
    simple_diagonal(&mut array);
    assert_eq!(
        corner(&array),
        vec![vec![5, 0, 0, 0], vec![0, 1, 2, 3], vec![0, 2, 4, 6], vec![0, 3, 6, 9]]
    );
    assert_eq!(array[4][4], 6);
    assert_eq!(array[1][4], 0);
    assert_eq!(array[999][999], 0);
    assert_eq!(solve(corner(&array), three_names()).unwrap().cost, 10);
}

#[test]
fn simple_random_fills_three_rows() {
    let mut array = blank();
    simple_random(&mut array);
    assert_eq!(
        corner(&array),
        vec![vec![0, 0, 0, 0], vec![0, 10, 2, 10], vec![0, 10, 10, 6], vec![0, 3, 10, 10]]
    );
    let found = solve(corner(&array), three_names()).unwrap();
    assert_eq!(found.cost, 11);
    assert_eq!(
        found.pairs,
        vec![
            ("one".to_string(), "two".to_string()),
            ("two".to_string(), "three".to_string()),
            ("three".to_string(), "one".to_string()),
        ]
    );
}
