//! The nodes of odd degree, and the matrix of the distances between them.

use vstd::prelude::*;
use std::collections::HashMap;
use crate::graph::Node;
use crate::munkres::{Matrix, MAX, is_grid, is_default_cell, square};
use crate::names::{index_of, node_indices};

verus! {

/// The node has an odd number of edges.
pub open spec fn is_odd(node: Node) -> bool {
    node.edges@.len() % 2 == 1
}

/// The places of the nodes of odd degree, in the order of the nodes.
pub open spec fn odd_positions(nodes: Seq<(usize, Node)>) -> Seq<int>
    decreases nodes.len(),
{
    if nodes.len() == 0 {
        Seq::empty()
    } else {
        let before = odd_positions(nodes.drop_last());
        if is_odd(nodes.last().1) {
            before.push(nodes.len() - 1)
        } else {
            before
        }
    }
}

/// The places of the odd nodes are places of nodes, and their nodes are odd.
pub proof fn lemma_odd_positions(nodes: Seq<(usize, Node)>)
    ensures
        odd_positions(nodes).len() <= nodes.len(),
        forall|q: int|
            0 <= q < odd_positions(nodes).len() ==> 0 <= #[trigger] odd_positions(nodes)[q]
                < nodes.len() && is_odd(nodes[odd_positions(nodes)[q]].1),
    decreases nodes.len(),
{
    if nodes.len() > 0 {
        lemma_odd_positions(nodes.drop_last());
        let before = odd_positions(nodes.drop_last());
        assert forall|q: int| 0 <= q < odd_positions(nodes).len() implies 0
            <= #[trigger] odd_positions(nodes)[q] < nodes.len() && is_odd(
            nodes[odd_positions(nodes)[q]].1,
        ) by {
            if q < before.len() {
                assert(odd_positions(nodes)[q] == before[q]);
                assert(nodes.drop_last()[before[q]] == nodes[before[q]]);
            }
        }
    }
}

/// The places of the nodes of odd degree, in the order of the nodes.
pub fn odd_nodes(nodes: &Vec<(usize, Node)>) -> (odd: Vec<usize>)
    ensures
        odd.len() == odd_positions(nodes@).len(),
        forall|q: int| 0 <= q < odd.len() ==> #[trigger] odd[q] == odd_positions(nodes@)[q],
        forall|q: int| 0 <= q < odd.len() ==> #[trigger] odd[q] < nodes.len(),
        odd.len() <= nodes.len(),
{
    let mut odd: Vec<usize> = Vec::new();
    let mut k: usize = 0;
    while k < nodes.len()
        invariant
            k <= nodes.len(),
            odd.len() == odd_positions(nodes@.take(k as int)).len(),
            forall|q: int|
                0 <= q < odd.len() ==> #[trigger] odd[q] == odd_positions(nodes@.take(k as int))[q],
            forall|q: int| 0 <= q < odd.len() ==> #[trigger] odd[q] < k,
            odd.len() <= k,
        decreases nodes.len() - k,
    {
        proof {
            assert(nodes@.take(k + 1).drop_last() =~= nodes@.take(k as int));
            assert(nodes@.take(k + 1).last() == nodes[k as int]);
        }
        if nodes[k].1.edges.len() % 2 == 1 {
            odd.push(k);
        }
        k += 1;
    }
    proof {
        assert(nodes@.take(nodes.len() as int) =~= nodes@);
    }
    odd
}

/// The cost of pairing the `i`-th with the `j`-th node of odd degree: the
/// distance from the one to the other, and `MAX` for a node with itself.
pub open spec fn odd_cost(array: Matrix<i32>, nodes: Seq<(usize, Node)>, i: int, j: int) -> int {
    if i == j {
        MAX as int
    } else {
        let from = nodes[odd_positions(nodes)[i - 1]].1.name@;
        let to = nodes[odd_positions(nodes)[j - 1]].1.name@;
        array[index_of(nodes, from)][index_of(nodes, to)] as int
    }
}

/// `odd` holds the costs of pairing the nodes of odd degree, and `keys` the
/// name and number of each of them.
pub open spec fn is_odd_matrix(
    array: Matrix<i32>,
    nodes: Seq<(usize, Node)>,
    odd: Matrix<i32>,
    keys: Map<usize, (String, usize)>,
) -> bool {
    let count = odd_positions(nodes).len() as int;
    &&& is_grid(odd, count + 1, count + 1)
    &&& forall|i: int, j: int|
        1 <= i <= count && 1 <= j <= count ==> #[trigger] odd[i][j] == odd_cost(array, nodes, i, j)
    &&& forall|i: int, j: int|
        0 <= i <= count && 0 <= j <= count && (i == 0 || j == 0) ==> #[trigger] odd[i][j] == 0
    &&& forall|i: usize| #[trigger] keys.contains_key(i) <==> 1 <= i <= count
    &&& forall|i: usize|
        1 <= i <= count ==> (#[trigger] keys[i]).0@ == nodes[odd_positions(nodes)[i - 1]].1.name@
            && keys[i].1 == nodes[odd_positions(nodes)[i - 1]].1.id
}

/// The matrix of the distances between the nodes of odd degree, taken from
/// the matrix `array` of the distances between all nodes, with `MAX` from
/// each node to itself; and for each row of it the name and number of its
/// node.
pub fn odd_matrix(array: &Matrix<i32>, nodes: &Vec<(usize, Node)>) -> (out: (
    Matrix<i32>,
    HashMap<usize, (String, usize)>,
))
    requires
        is_grid(*array, nodes.len() + 1, nodes.len() + 1),
    ensures
        is_odd_matrix(*array, nodes@, out.0, out.1@),
{
    let indices = node_indices(nodes);
    let odd = odd_nodes(nodes);
    let count = odd.len();
    let mut costs: Matrix<i32> = square(count + 1);
    let ghost blank = costs;
    proof {
        assert forall|i: int, j: int| 0 <= i <= count && 0 <= j <= count implies #[trigger] blank[i][j]
            == 0 by {
            assert(is_default_cell(blank[i][j]));
        }
    }
    let mut i: usize = 1;
    while i <= count
        invariant
            1 <= i <= count + 1,
            count == odd.len(),
            count <= nodes.len(),
            count == odd_positions(nodes@).len(),
            is_grid(*array, nodes.len() + 1, nodes.len() + 1),
            is_grid(costs, count + 1, count + 1),
            indices.len() == nodes.len(),
            forall|k: int|
                0 <= k < nodes.len() ==> #[trigger] indices[k] == index_of(nodes@, nodes[k].1.name@),
            forall|k: int| 0 <= k < nodes.len() ==> 1 <= #[trigger] indices[k] <= nodes.len(),
            forall|q: int| 0 <= q < odd.len() ==> #[trigger] odd[q] == odd_positions(nodes@)[q],
            forall|q: int| 0 <= q < odd.len() ==> #[trigger] odd[q] < nodes.len(),
            forall|a: int, b: int|
                0 <= a <= count && 0 <= b <= count ==> #[trigger] costs[a][b] == if 1 <= a < i && 1
                    <= b {
                    odd_cost(*array, nodes@, a, b)
                } else {
                    0
                },
        decreases count + 1 - i,
    {
        let mut j: usize = 1;
        while j <= count
            invariant
                1 <= i <= count,
                1 <= j <= count + 1,
                count == odd.len(),
                count <= nodes.len(),
                count == odd_positions(nodes@).len(),
                is_grid(*array, nodes.len() + 1, nodes.len() + 1),
                is_grid(costs, count + 1, count + 1),
                indices.len() == nodes.len(),
                forall|k: int|
                    0 <= k < nodes.len() ==> #[trigger] indices[k] == index_of(
                        nodes@,
                        nodes[k].1.name@,
                    ),
                forall|k: int| 0 <= k < nodes.len() ==> 1 <= #[trigger] indices[k] <= nodes.len(),
                forall|q: int| 0 <= q < odd.len() ==> #[trigger] odd[q] == odd_positions(nodes@)[q],
                forall|q: int| 0 <= q < odd.len() ==> #[trigger] odd[q] < nodes.len(),
                forall|a: int, b: int|
                    0 <= a <= count && 0 <= b <= count ==> #[trigger] costs[a][b] == if 1 <= b && (1
                        <= a < i || (a == i && b < j)) {
                        odd_cost(*array, nodes@, a, b)
                    } else {
                        0
                    },
            decreases count + 1 - j,
        {
            let from = indices[odd[i - 1]];
            let to = indices[odd[j - 1]];
            costs[i][j] = if i == j {
                MAX
            } else {
                array[from][to]
            };
            j += 1;
        }
        i += 1;
    }
    let mut keys: HashMap<usize, (String, usize)> = HashMap::new();
    let mut r: usize = 1;
    while r <= count
        invariant
            1 <= r <= count + 1,
            count == odd.len(),
            count <= nodes.len(),
            count == odd_positions(nodes@).len(),
            forall|q: int| 0 <= q < odd.len() ==> #[trigger] odd[q] == odd_positions(nodes@)[q],
            forall|q: int| 0 <= q < odd.len() ==> #[trigger] odd[q] < nodes.len(),
            count < usize::MAX,
            forall|a: usize| #[trigger] keys@.contains_key(a) <==> 1 <= a < r,
            forall|a: usize|
                1 <= a < r ==> (#[trigger] keys@[a]).0@ == nodes@[odd_positions(nodes@)[a - 1]].1.name@
                    && keys@[a].1 == nodes@[odd_positions(nodes@)[a - 1]].1.id,
        decreases count + 1 - r,
    {
        let k = odd[r - 1];
        keys.insert(r, (nodes[k].1.name.clone(), nodes[k].1.id));
        r += 1;
    }
    (costs, keys)
}

} // verus!
