//! From the records of the locations to the distances between them, the
//! costs of pairing the nodes of odd degree, and a cheapest pairing.

use vstd::prelude::*;
use std::collections::HashMap;
use crate::graph::{Intersection, Node, ParseError, build_map, is_graph_of, lengths_valid,
    is_first_bad};
use crate::munkres::{Matrix, Matching, StallError, is_grid, int_entries, solve, duplicate};
use crate::shortest::{GraphInconsistency, all_pairs_shortest_arr, initial_distances,
    lemma_shortest_nonneg,
    is_shortest, no_dangling, is_first_dangling};
use crate::odd::{odd_matrix, is_odd_matrix, odd_positions, odd_cost, lemma_odd_positions};
use crate::names::{index_of, lemma_index_range};

verus! {

/// Why no result could be had.
#[derive(Debug)]
pub enum Error {
    /// The length of a street is missing or negative.
    Parse(ParseError),
    /// A street leads to a name that no node has.
    Graph(GraphInconsistency),
    /// The solver went round without changing anything.
    Stall(StallError),
}

/// `array` holds, for each two nodes, the length of a shortest way from the
/// one to the other, each node in the row and column of its index, and 0 in
/// row and column 0.
pub open spec fn is_distance_matrix(nodes: Seq<(usize, Node)>, array: Matrix<i32>) -> bool {
    let n = nodes.len() as int + 1;
    &&& is_grid(array, n, n)
    &&& forall|i: int, j: int|
        1 <= i < n && 1 <= j < n ==> is_shortest(
            initial_distances(nodes),
            n,
            i,
            j,
            #[trigger] array[i][j] as int,
        )
    &&& forall|i: int, j: int|
        0 <= i < n && 0 <= j < n && (i == 0 || j == 0) ==> #[trigger] array[i][j] == 0
}

/// `name` is where the first edge leads that leads to no node.
pub open spec fn is_first_missing(nodes: Seq<(usize, Node)>, name: Seq<char>) -> bool {
    exists|k: int, e: int| #[trigger] is_first_dangling(nodes, k, e) && nodes[k].1.edges[e].to@ == name
}

/// `array` and `odd` are what the records give: the distances between the
/// nodes of their graph, and the costs of pairing its nodes of odd degree,
/// which `keys` names.
pub open spec fn is_parsed(
    records: Seq<Intersection>,
    array: Matrix<i32>,
    odd: Matrix<i32>,
    keys: Map<usize, (String, usize)>,
) -> bool {
    exists|nodes: Seq<(usize, Node)>|
        #[trigger] is_graph_of(nodes, records) && no_dangling(nodes) && is_distance_matrix(
            nodes,
            array,
        ) && is_odd_matrix(array, nodes, odd, keys)
}

/// The graph of the records has an edge that leads to no node, the first of
/// them to `name`.
pub open spec fn is_inconsistent(records: Seq<Intersection>, name: Seq<char>) -> bool {
    exists|nodes: Seq<(usize, Node)>| #[trigger]
        is_graph_of(nodes, records) && is_first_missing(nodes, name)
}

/// The first length of the records that is missing or negative stands in the
/// record of `name`, for the neighbour `neighbour`.
pub open spec fn is_unreadable(records: Seq<Intersection>, name: Seq<char>, neighbour: Seq<char>) -> bool {
    exists|i: int, j: int|
        #[trigger] is_first_bad(records, i, j) && records[i].name@ == name
            && records[i].neighbours[j].0@ == neighbour
}

/// A matrix of zeros with a row and a column for each of `count` nodes, after
/// row and column 0.
fn blank(count: usize) -> (m: Matrix<i32>)
    ensures
        is_grid(m, count + 1, count + 1),
        forall|i: int, j: int| 0 <= i <= count && 0 <= j <= count ==> #[trigger] m[i][j] == 0,
{
    let mut row: Vec<i32> = Vec::new();
    row.push(0);
    let mut j: usize = 0;
    while j < count
        invariant
            j <= count,
            row.len() == j + 1,
            forall|b: int| 0 <= b <= j ==> #[trigger] row[b] == 0,
        decreases count - j,
    {
        row.push(0);
        j += 1;
    }
    let mut m: Matrix<i32> = Vec::new();
    m.push(row.clone());
    let mut i: usize = 0;
    while i < count
        invariant
            i <= count,
            row.len() == count + 1,
            forall|b: int| 0 <= b <= count ==> #[trigger] row[b] == 0,
            is_grid(m, i + 1, count + 1),
            forall|a: int, b: int| 0 <= a <= i && 0 <= b <= count ==> #[trigger] m[a][b] == 0,
        decreases count - i,
    {
        m.push(row.clone());
        i += 1;
    }
    m
}

/// Builds the graph of the records and from it the matrix of the shortest
/// distances between all nodes, the matrix of the costs of pairing the nodes
/// of odd degree, and the names and numbers of those nodes.
pub fn parse(intersections: &Vec<Intersection>) -> (result: Result<
    (Matrix<i32>, Matrix<i32>, HashMap<usize, (String, usize)>),
    Error,
>)
    ensures
        match result {
            Ok((array, odd, keys)) => lengths_valid(intersections@) && is_parsed(
                intersections@,
                array,
                odd,
                keys@,
            ),
            Err(Error::Parse(e)) => is_unreadable(intersections@, e.name@, e.neighbour@),
            Err(Error::Graph(e)) => lengths_valid(intersections@) && is_inconsistent(
                intersections@,
                e.name@,
            ),
            Err(Error::Stall(_)) => false,
        },
{
    let nodes = match build_map(intersections) {
        Ok(nodes) => nodes,
        Err(e) => {
            return Err(Error::Parse(e));
        },
    };
    let mut array: Matrix<i32> = blank(nodes.len());
    match all_pairs_shortest_arr(&mut array, &nodes) {
        Ok(_) => {},
        Err(e) => {
            proof {
                assert(is_first_missing(nodes@, e.name@));
            }
            return Err(Error::Graph(e));
        },
    }
    let (odd, keys) = odd_matrix(&array, &nodes);
    proof {
        assert(is_distance_matrix(nodes@, array));
        assert(is_graph_of(nodes@, intersections@));
    }
    Ok((array, odd, keys))
}

/// What `inspect` hands back.
#[derive(Debug)]
pub struct Inspection {
    /// The shortest distances between all nodes.
    pub distances: Matrix<i32>,
    /// The costs of pairing the nodes of odd degree.
    pub odd: Matrix<i32>,
    /// A cheapest pairing of the nodes of odd degree.
    pub matching: Matching,
}

impl Inspection {
    /// The inspection is that of the records: its matrices are what the
    /// records give, and its matching is a cheapest assignment on the costs of
    /// pairing the nodes of odd degree.
    pub open spec fn is_of(&self, records: Seq<Intersection>) -> bool {
        exists|keys: Map<usize, (String, usize)>|
            #[trigger] is_parsed(records, self.distances, self.odd, keys) && self.matching.solves(
                self.odd,
                keys,
            )
    }
}

/// The whole computation: the distances between all nodes of the records'
/// graph, the costs of pairing its nodes of odd degree, and a cheapest
/// pairing of them. Where no node has odd degree the pairing is empty and
/// costs nothing.
pub fn inspect(intersections: &Vec<Intersection>) -> (result: Result<Inspection, Error>)
    ensures
        match result {
            Ok(found) => lengths_valid(intersections@) && found.is_of(intersections@),
            Err(Error::Parse(e)) => is_unreadable(intersections@, e.name@, e.neighbour@),
            Err(Error::Graph(e)) => lengths_valid(intersections@) && is_inconsistent(
                intersections@,
                e.name@,
            ),
            Err(Error::Stall(_)) => false,
        },
{
    let (array, odd, keys) = match parse(intersections) {
        Ok(parts) => parts,
        Err(e) => {
            return Err(e);
        },
    };
    let costs = duplicate(&odd);
    let ghost names = keys@;
    proof {
        let nodes = choose|nodes: Seq<(usize, Node)>|
            #[trigger] is_graph_of(nodes, intersections@) && no_dangling(nodes) && is_distance_matrix(
                nodes,
                array,
            ) && is_odd_matrix(array, nodes, odd, keys@);
        lemma_odd_positions(nodes);
        assert forall|i: int, j: int| 1 <= i < odd.len() && 1 <= j < odd.len() implies 0
            <= #[trigger] costs[i][j] by {
            assert(odd[i][j] == odd_cost(array, nodes, i, j));
            if i != j {
                let from = odd_positions(nodes)[i - 1];
                let to = odd_positions(nodes)[j - 1];
                lemma_index_range(nodes, from);
                lemma_index_range(nodes, to);
                let a = index_of(nodes, nodes[from].1.name@);
                let b = index_of(nodes, nodes[to].1.name@);
                assert(is_shortest(initial_distances(nodes), nodes.len() as int + 1, a, b, array[a][b] as int));
                lemma_shortest_nonneg(nodes, a, b, array[a][b] as int);
            }
        }
    }
    match solve(costs, keys) {
        Ok(matching) => {
            proof {
                assert(int_entries(costs) =~~= int_entries(odd));
            }
            let found = Inspection { distances: array, odd, matching };
            proof {
                assert(is_parsed(intersections@, found.distances, found.odd, names));
                assert(found.matching.solves(found.odd, names));
            }
            Ok(found)
        },
        Err(e) => Err(Error::Stall(e)),
    }
}

} // verus!
