use route_inspection::graph::{build_map, find_node, Intersection, Node};
use route_inspection::names::{comes_first, node_indices};
use route_inspection::odd::{odd_matrix, odd_nodes};
use route_inspection::munkres::MAX;
use route_inspection::pipeline::{inspect, parse, Error};
use route_inspection::shortest::{all_pairs_shortest_arr, relax};

fn record(name: &str, id: usize, neighbours: &[(&str, Option<i32>)]) -> Intersection {
    Intersection {
        name: name.to_string(),
        id,
        neighbours: neighbours.iter().map(|(n, l)| (n.to_string(), *l)).collect(),
    }
}

fn lengths(node: &Node) -> Vec<(String, i32)> {
    let mut out: Vec<(String, i32)> =
        node.edges.iter().map(|e| (e.to.clone(), e.length)).collect();
    out.sort();
    out
}

/// A square of four corners with one diagonal: `a` and `c` have three
/// streets, `b` and `d` two.
fn square_with_diagonal() -> Vec<Intersection> {
    vec![
        record("c", 2, &[("b", Some(2)), ("d", Some(3)), ("a", Some(5))]),
        record("a", 0, &[("b", Some(1)), ("d", Some(4)), ("c", Some(5))]),
        record("d", 3, &[("c", Some(3)), ("a", Some(4))]),
        record("b", 1, &[("a", Some(1)), ("c", Some(2))]),
    ]
}

#[test]
fn nodes_come_in_the_order_of_their_numbers() {
    let nodes = build_map(&square_with_diagonal()).unwrap();
    let order: Vec<(usize, String)> = nodes.iter().map(|(id, n)| (*id, n.name.clone())).collect();
    assert_eq!(
        order,
        vec![(0, "a".to_string()), (1, "b".to_string()), (2, "c".to_string()), (3, "d".to_string())]
    );
    for (id, node) in &nodes {
        assert_eq!(*id, node.id);
        for edge in &node.edges {
            assert_eq!(edge.from, node.name);
        }
    }
    assert_eq!(
        lengths(&nodes[2].1),
        vec![("a".to_string(), 5), ("b".to_string(), 2), ("d".to_string(), 3)]
    );
}

#[test]
fn a_name_seen_twice_gives_one_node() {
    let records = vec![
        record("x", 7, &[("y", Some(3))]),
        record("y", 2, &[("x", Some(3))]),
        record("x", 1, &[("y", Some(9)), ("z", Some(4))]),
        record("z", 2, &[]),
    ];
    let nodes = build_map(&records).unwrap();
    let order: Vec<(usize, String)> = nodes.iter().map(|(id, n)| (*id, n.name.clone())).collect();
    assert_eq!(order, vec![(2, "y".to_string()), (2, "z".to_string()), (7, "x".to_string())]);
    assert_eq!(lengths(&nodes[2].1), vec![("y".to_string(), 9), ("z".to_string(), 4)]);
    assert_eq!(lengths(&nodes[1].1), Vec::new());
    assert_eq!(find_node(&nodes, &"x".to_string()), Some(2));
    assert_eq!(find_node(&nodes, &"w".to_string()), None);
}

#[test]
fn the_reverse_street_is_not_made_up() {
    let records = vec![record("a", 0, &[("b", Some(6))]), record("b", 1, &[])];
    let nodes = build_map(&records).unwrap();
    assert_eq!(nodes[0].1.edges.len(), 1);
    assert_eq!(nodes[1].1.edges.len(), 0);
}

#[test]
fn a_missing_length_is_a_parse_error() {
    let records = vec![
        record("a", 0, &[("b", Some(6))]),
        record("b", 1, &[("a", Some(6)), ("c", None), ("d", None)]),
        record("c", 2, &[("b", None)]),
    ];
    let err = build_map(&records).unwrap_err();
    assert_eq!(err.name, "b");
    assert_eq!(err.neighbour, "c");
}

#[test]
fn a_negative_length_is_a_parse_error() {
    let records = vec![record("a", 0, &[("b", Some(0)), ("c", Some(-1))])];
    let err = build_map(&records).unwrap_err();
    assert_eq!(err.name, "a");
    assert_eq!(err.neighbour, "c");
    assert!(matches!(parse(&records), Err(Error::Parse(_))));
}

#[test]
fn names_are_ordered_by_their_bytes() {
    let s = |x: &str| x.to_string();
    assert!(comes_first(&s("a"), &s("b")));
    assert!(!comes_first(&s("b"), &s("a")));
    assert!(!comes_first(&s("a"), &s("a")));
    assert!(comes_first(&s("a"), &s("ab")));
    assert!(!comes_first(&s("ab"), &s("a")));
    assert!(comes_first(&s(""), &s("a")));
    assert!(!comes_first(&s(""), &s("")));
    assert!(comes_first(&s("B"), &s("a")));
    assert!(comes_first(&s("z"), &s("é")));
    assert!(comes_first(&s("Main St 10"), &s("Main St 9")));
    for (x, y) in [("a", "b"), ("ab", "a"), ("é", "z"), ("", ""), ("x", "x")] {
        assert_eq!(comes_first(&s(x), &s(y)), x < y);
    }
}

#[test]
fn indices_follow_the_order_of_the_names() {
    let records = vec![
        record("delta", 0, &[]),
        record("alpha", 1, &[]),
        record("charlie", 2, &[]),
        record("bravo", 3, &[]),
    ];
    let nodes = build_map(&records).unwrap();
    assert_eq!(node_indices(&nodes), vec![4, 1, 3, 2]);
    assert_eq!(node_indices(&Vec::new()), Vec::<usize>::new());
}

#[test]
fn worked_example_of_three_nodes() {
    let mut d = vec![
        vec![0, 0, 0, 0],
        vec![0, 0, 2, 10],
        vec![0, 10, 0, 6],
        vec![0, 3, 10, 0],
    ];
    relax(&mut d);
    assert_eq!(d[1][3], 8);
    assert_eq!(d[2][1], 9);
    assert_eq!(d[3][2], 5);
    assert_eq!(d[1][2], 2);
    assert_eq!(d[2][3], 6);
    assert_eq!(d[3][1], 3);
    assert_eq!(d[1][1], 0);
    assert_eq!(d[2][2], 0);
    assert_eq!(d[3][3], 0);
    assert_eq!(d[0], vec![0, 0, 0, 0]);
}

#[test]
fn distances_obey_the_triangle_inequality() {
    let mut seed: u64 = 12345;
    for n in 1..=7usize {
        let mut d = vec![vec![0i32; n + 1]; n + 1];
        for i in 1..=n {
            for j in 1..=n {
                seed = seed.wrapping_mul(6364136223846793005).wrapping_add(1442695040888963407);
                let roll = (seed >> 33) % 100;
                d[i][j] = if i == j {
                    0
                } else if roll < 40 {
                    MAX
                } else {
                    roll as i32
                };
            }
        }
        let before = d.clone();
        relax(&mut d);
        for i in 1..=n {
            assert_eq!(d[i][i], 0);
            for j in 1..=n {
                assert!(0 <= d[i][j] && d[i][j] <= before[i][j]);
                for k in 1..=n {
                    assert!(d[i][j] as i64 <= d[i][k] as i64 + d[k][j] as i64);
                }
            }
        }
    }
}

#[test]
fn two_unreachable_nodes_do_not_overflow() {
    let big = i32::MAX;
    let mut d = vec![vec![0, 0, 0, 0], vec![0, 0, big, big], vec![0, big, 0, big], vec![0, big, big, 0]];
    relax(&mut d);
    assert_eq!(d[1][2], big);
    assert_eq!(d[2][3], big);
}

#[test]
fn shortest_ways_between_the_corners() {
    let nodes = build_map(&square_with_diagonal()).unwrap();
    let mut array = vec![vec![0; 5]; 5];
    all_pairs_shortest_arr(&mut array, &nodes).unwrap();
    assert_eq!(
        array,
        vec![
            vec![0, 0, 0, 0, 0],
            vec![0, 0, 1, 3, 4],
            vec![0, 1, 0, 2, 5],
            vec![0, 3, 2, 0, 3],
            vec![0, 4, 5, 3, 0],
        ]
    );
}

#[test]
fn a_node_without_a_way_stays_at_max() {
    let records = vec![
        record("a", 0, &[("b", Some(4))]),
        record("b", 1, &[]),
        record("c", 2, &[("a", Some(1))]),
    ];
    let nodes = build_map(&records).unwrap();
    let mut array = vec![vec![7; 4]; 4];
    all_pairs_shortest_arr(&mut array, &nodes).unwrap();
    assert_eq!(array[1], vec![7, 0, 4, MAX]);
    assert_eq!(array[2], vec![7, MAX, 0, MAX]);
    assert_eq!(array[3], vec![7, 1, 5, 0]);
    assert_eq!(array[0], vec![7, 7, 7, 7]);
}

#[test]
fn a_street_of_length_zero_counts() {
    let records = vec![record("a", 0, &[("b", Some(0))]), record("b", 1, &[("a", Some(0))])];
    let nodes = build_map(&records).unwrap();
    let mut array = vec![vec![0; 3]; 3];
    all_pairs_shortest_arr(&mut array, &nodes).unwrap();
    assert_eq!(array[1][2], 0);
    assert_eq!(array[2][1], 0);
}

#[test]
fn a_street_to_nowhere_is_an_error() {
    let records = vec![
        record("a", 0, &[("b", Some(4))]),
        record("b", 1, &[("a", Some(4)), ("nowhere", Some(1)), ("elsewhere", Some(1))]),
    ];
    let nodes = build_map(&records).unwrap();
    let mut array = vec![vec![5; 3]; 3];
    let err = all_pairs_shortest_arr(&mut array, &nodes).unwrap_err();
    assert_eq!(err.name, "nowhere");
    assert_eq!(array, vec![vec![5; 3]; 3]);
    match parse(&records) {
        Err(Error::Graph(e)) => assert_eq!(e.name, "nowhere"),
        _ => panic!("a graph inconsistency was expected"),
    }
}

#[test]
fn the_number_of_odd_nodes_is_even() {
    let cases = vec![
        square_with_diagonal(),
        vec![record("a", 0, &[("b", Some(1))]), record("b", 1, &[("a", Some(1))])],
        vec![
            record("hub", 0, &[("n", Some(1)), ("e", Some(1)), ("s", Some(1)), ("w", Some(1))]),
            record("n", 1, &[("hub", Some(1)), ("e", Some(2))]),
            record("e", 2, &[("hub", Some(1)), ("n", Some(2))]),
            record("s", 3, &[("hub", Some(1))]),
            record("w", 4, &[("hub", Some(1))]),
        ],
        Vec::new(),
    ];
    for records in cases {
        let nodes = build_map(&records).unwrap();
        let by_degree = nodes.iter().filter(|(_, n)| n.edges.len() % 2 == 1).count();
        assert_eq!(by_degree % 2, 0);
        assert_eq!(odd_nodes(&nodes).len(), by_degree);
    }
}

#[test]
fn odd_matrix_holds_the_distances_between_the_odd_nodes() {
    let nodes = build_map(&square_with_diagonal()).unwrap();
    assert_eq!(odd_nodes(&nodes), vec![0, 2]);
    let mut array = vec![vec![0; 5]; 5];
    all_pairs_shortest_arr(&mut array, &nodes).unwrap();
    let (odd, keys) = odd_matrix(&array, &nodes);
    assert_eq!(odd, vec![vec![0, 0, 0], vec![0, MAX, 3], vec![0, 3, MAX]]);
    assert_eq!(keys.len(), 2);
    assert_eq!(keys[&1], ("a".to_string(), 0));
    assert_eq!(keys[&2], ("c".to_string(), 2));
}

#[test]
fn odd_nodes_are_found_by_name_whatever_their_numbers() {
    let records = vec![
        record("zed", 0, &[("mid", Some(2))]),
        record("mid", 1, &[("zed", Some(2)), ("abe", Some(5))]),
        record("abe", 2, &[("mid", Some(5))]),
    ];
    let found = inspect(&records).unwrap();
    assert_eq!(found.distances[3][1], 7);
    assert_eq!(found.odd, vec![vec![0, 0, 0], vec![0, MAX, 7], vec![0, 7, MAX]]);
    assert_eq!(
        found.matching.pairs,
        vec![("zed".to_string(), "abe".to_string()), ("abe".to_string(), "zed".to_string())]
    );
    assert_eq!(found.matching.cost, 14);
}

#[test]
fn inspection_pairs_the_two_odd_corners() {
    let found = inspect(&square_with_diagonal()).unwrap();
    assert_eq!(found.distances[1][3], 3);
    assert_eq!(found.odd[1][2], 3);
    assert_eq!(found.matching.assignment, vec![0, 2, 1]);
    assert_eq!(
        found.matching.pairs,
        vec![("a".to_string(), "c".to_string()), ("c".to_string(), "a".to_string())]
    );
    assert_eq!(found.matching.cost, 6);
}

#[test]
fn no_odd_node_gives_an_empty_matching() {
    let records = vec![
        record("a", 0, &[("b", Some(1)), ("c", Some(1))]),
        record("b", 1, &[("a", Some(1)), ("c", Some(1))]),
        record("c", 2, &[("a", Some(1)), ("b", Some(1))]),
    ];
    let (array, odd, keys) = parse(&records).unwrap();
    assert_eq!(array.len(), 4);
    assert_eq!(odd, vec![vec![0]]);
    assert!(keys.is_empty());
    let found = inspect(&records).unwrap();
    assert!(found.matching.pairs.is_empty());
    assert_eq!(found.matching.cost, 0);
    let empty = inspect(&Vec::new()).unwrap();
    assert!(empty.matching.pairs.is_empty());
    assert_eq!(empty.matching.cost, 0);
    assert_eq!(empty.distances, vec![vec![0]]);
}
