//! Degrees of the nodes of a graph in which every street can be walked both
//! ways.

use vstd::prelude::*;
use vstd::set_lib::{set_int_range, lemma_int_range, lemma_map_size};
use vstd::relations::injective_on;
use crate::graph::{Node, graph_wf};
use crate::odd::odd_positions;

verus! {

/// `nodes[k]` has an edge to `nodes[p]`.
pub open spec fn adjacent(nodes: Seq<(usize, Node)>, k: int, p: int) -> bool {
    &&& 0 <= k < nodes.len()
    &&& 0 <= p < nodes.len()
    &&& exists|e: int|
        0 <= e < nodes[k].1.edges.len() && (#[trigger] nodes[k].1.edges[e]).to@ == nodes[p].1.name@
}

/// Every edge leads to a node from which an edge leads back.
pub open spec fn is_two_way(nodes: Seq<(usize, Node)>) -> bool {
    forall|k: int, e: int|
        0 <= k < nodes.len() && 0 <= e < nodes[k].1.edges.len() ==> exists|p: int|
            0 <= p < nodes.len() && (#[trigger] nodes[p]).1.name@ == (
            #[trigger] nodes[k].1.edges[e]).to@ && adjacent(nodes, p, k)
}

/// No edge leads back to the node that it leaves.
pub open spec fn is_loop_free(nodes: Seq<(usize, Node)>) -> bool {
    forall|k: int, e: int|
        0 <= k < nodes.len() && 0 <= e < nodes[k].1.edges.len() ==> (
        #[trigger] nodes[k].1.edges[e]).to@ != nodes[k].1.name@
}

/// How many of the first `m` nodes `nodes[k]` has an edge to.
pub open spec fn row_count(nodes: Seq<(usize, Node)>, k: int, m: int) -> nat
    decreases m,
{
    if m <= 0 {
        0
    } else {
        row_count(nodes, k, m - 1) + if adjacent(nodes, k, m - 1) {
            1nat
        } else {
            0nat
        }
    }
}

/// How many of the first `m` nodes have an edge to `nodes[p]`.
pub open spec fn col_count(nodes: Seq<(usize, Node)>, p: int, m: int) -> nat
    decreases m,
{
    if m <= 0 {
        0
    } else {
        col_count(nodes, p, m - 1) + if adjacent(nodes, m - 1, p) {
            1nat
        } else {
            0nat
        }
    }
}

/// How many edges lead from one of the first `n` nodes to one of the first
/// `m` nodes.
pub open spec fn total_count(nodes: Seq<(usize, Node)>, n: int, m: int) -> nat
    decreases n,
{
    if n <= 0 {
        0
    } else {
        total_count(nodes, n - 1, m) + row_count(nodes, n - 1, m)
    }
}

/// The degrees of the first `n` nodes together.
pub open spec fn degree_sum(nodes: Seq<(usize, Node)>, n: int) -> nat
    decreases n,
{
    if n <= 0 {
        0
    } else {
        degree_sum(nodes, n - 1) + nodes[n - 1].1.edges@.len()
    }
}

/// Counting one column more adds the edges that lead to its node.
proof fn lemma_total_next_column(nodes: Seq<(usize, Node)>, n: int, m: int)
    requires
        0 <= n,
        0 <= m,
    ensures
        total_count(nodes, n, m + 1) == total_count(nodes, n, m) + col_count(nodes, m, n),
    decreases n,
{
    if n > 0 {
        lemma_total_next_column(nodes, n - 1, m);
    }
}

/// Where every edge has its reverse, as many edges leave a node as reach it.
proof fn lemma_row_is_col(nodes: Seq<(usize, Node)>, k: int, m: int)
    requires
        forall|a: int, b: int| adjacent(nodes, a, b) ==> adjacent(nodes, b, a),
        0 <= m,
    ensures
        row_count(nodes, k, m) == col_count(nodes, k, m),
    decreases m,
{
    if m > 0 {
        lemma_row_is_col(nodes, k, m - 1);
        if adjacent(nodes, k, m - 1) {
            assert(adjacent(nodes, m - 1, k));
        }
        if adjacent(nodes, m - 1, k) {
            assert(adjacent(nodes, k, m - 1));
        }
    }
}

/// Edges that come in pairs of an edge and its reverse are even in number.
proof fn lemma_total_even(nodes: Seq<(usize, Node)>, n: int)
    requires
        forall|a: int, b: int| adjacent(nodes, a, b) ==> adjacent(nodes, b, a),
        forall|a: int| !adjacent(nodes, a, a),
        0 <= n,
    ensures
        total_count(nodes, n, n) % 2 == 0,
    decreases n,
{
    if n > 0 {
        lemma_total_even(nodes, n - 1);
        lemma_total_next_column(nodes, n - 1, n - 1);
        lemma_row_is_col(nodes, n - 1, n - 1);
        assert(!adjacent(nodes, n - 1, n - 1));
        assert(row_count(nodes, n - 1, n) == row_count(nodes, n - 1, n - 1));
        assert(total_count(nodes, n, n) == total_count(nodes, n - 1, n - 1) + 2 * row_count(
            nodes,
            n - 1,
            n - 1,
        ));
    }
}

/// The nodes among the first `m` that `nodes[k]` has an edge to.
spec fn targets(nodes: Seq<(usize, Node)>, k: int, m: int) -> Set<int> {
    Set::new(|p: int| 0 <= p < m && adjacent(nodes, k, p))
}

/// The count along a row is the size of the set of its targets.
proof fn lemma_row_count_is_len(nodes: Seq<(usize, Node)>, k: int, m: int)
    requires
        0 <= m,
    ensures
        targets(nodes, k, m).finite(),
        targets(nodes, k, m).len() == row_count(nodes, k, m),
    decreases m,
{
    if m == 0 {
        assert(targets(nodes, k, m) =~= Set::empty());
    } else {
        lemma_row_count_is_len(nodes, k, m - 1);
        if adjacent(nodes, k, m - 1) {
            assert(targets(nodes, k, m) =~= targets(nodes, k, m - 1).insert(m - 1));
        } else {
            assert(targets(nodes, k, m) =~= targets(nodes, k, m - 1));
        }
    }
}

/// The place of the node called `name`.
spec fn place_of(nodes: Seq<(usize, Node)>, name: Seq<char>) -> int {
    choose|p: int| 0 <= p < nodes.len() && (#[trigger] nodes[p]).1.name@ == name
}

/// A node has as many edges as there are nodes that it has an edge to.
proof fn lemma_degree_is_row_count(nodes: Seq<(usize, Node)>, k: int)
    requires
        graph_wf(nodes),
        is_two_way(nodes),
        0 <= k < nodes.len(),
    ensures
        nodes[k].1.edges.len() == row_count(nodes, k, nodes.len() as int),
{
    let n = nodes.len() as int;
    let edges = nodes[k].1.edges@;
    let len = edges.len() as int;
    let from = set_int_range(0, len);
    let f = |e: int| place_of(nodes, edges[e].to@);
    let to = targets(nodes, k, n);
    lemma_int_range(0, len);
    lemma_row_count_is_len(nodes, k, n);
    assert forall|e: int| 0 <= e < len implies 0 <= #[trigger] f(e) < n && nodes[f(e)].1.name@
        == edges[e].to@ by {
        let p = choose|p: int|
            0 <= p < nodes.len() && (#[trigger] nodes[p]).1.name@ == (
            #[trigger] nodes[k].1.edges[e]).to@ && adjacent(nodes, p, k);
        assert(nodes[p].1.name@ == edges[e].to@);
    }
    assert forall|e1: int, e2: int|
        from.contains(e1) && from.contains(e2) && #[trigger] f(e1) == #[trigger] f(e2) implies e1
        == e2 by {
        assert(nodes[f(e1)].1.name@ == edges[e1].to@);
        assert(nodes[f(e2)].1.name@ == edges[e2].to@);
        if e1 != e2 {
            let lo = if e1 < e2 { e1 } else { e2 };
            let hi = if e1 < e2 { e2 } else { e1 };
            assert(edges[lo].to@ != edges[hi].to@);
        }
    }
    assert(injective_on(f, from));
    assert forall|p: int| from.map(f).contains(p) == to.contains(p) by {
        if from.map(f).contains(p) {
            let e = choose|e: int| from.contains(e) && p == f(e);
            assert(nodes[p].1.name@ == edges[e].to@);
            assert(nodes[k].1.edges[e].to@ == nodes[p].1.name@);
            assert(adjacent(nodes, k, p));
        }
        if to.contains(p) {
            let e = choose|e: int|
                0 <= e < nodes[k].1.edges.len() && (#[trigger] nodes[k].1.edges[e]).to@
                    == nodes[p].1.name@;
            assert(nodes[f(e)].1.name@ == edges[e].to@);
            if f(e) != p {
                let lo = if f(e) < p { f(e) } else { p };
                let hi = if f(e) < p { p } else { f(e) };
                assert(nodes[lo].1.name@ != nodes[hi].1.name@);
            }
            assert(from.contains(e) && p == f(e));
        }
    }
    assert(from.map(f) =~= to);
    lemma_map_size(from, to, f);
}

/// The degrees together are the number of edges between the nodes.
proof fn lemma_degree_sum_is_total(nodes: Seq<(usize, Node)>, n: int)
    requires
        graph_wf(nodes),
        is_two_way(nodes),
        0 <= n <= nodes.len(),
    ensures
        degree_sum(nodes, n) == total_count(nodes, n, nodes.len() as int),
    decreases n,
{
    if n > 0 {
        lemma_degree_sum_is_total(nodes, n - 1);
        lemma_degree_is_row_count(nodes, n - 1);
    }
}

/// The number of odd degrees is odd exactly where their sum is.
proof fn lemma_odd_parity(nodes: Seq<(usize, Node)>, n: int)
    requires
        0 <= n <= nodes.len(),
    ensures
        odd_positions(nodes.take(n)).len() % 2 == degree_sum(nodes, n) % 2,
    decreases n,
{
    if n > 0 {
        lemma_odd_parity(nodes, n - 1);
        assert(nodes.take(n).drop_last() =~= nodes.take(n - 1));
        assert(nodes.take(n).last() == nodes[n - 1]);
    }
}

/// Where every street can be walked both ways and none leads back to where it
/// starts, the number of nodes of odd degree is even.
pub proof fn lemma_odd_nodes_even(nodes: Seq<(usize, Node)>)
    requires
        graph_wf(nodes),
        is_two_way(nodes),
        is_loop_free(nodes),
    ensures
        odd_positions(nodes).len() % 2 == 0,
{
    let n = nodes.len() as int;
    assert forall|a: int, b: int| adjacent(nodes, a, b) implies adjacent(nodes, b, a) by {
        let e = choose|e: int|
            0 <= e < nodes[a].1.edges.len() && (#[trigger] nodes[a].1.edges[e]).to@
                == nodes[b].1.name@;
        let p = choose|p: int|
            0 <= p < nodes.len() && (#[trigger] nodes[p]).1.name@ == (
            #[trigger] nodes[a].1.edges[e]).to@ && adjacent(nodes, p, a);
        if p != b {
            let lo = if p < b { p } else { b };
            let hi = if p < b { b } else { p };
            assert(nodes[lo].1.name@ != nodes[hi].1.name@);
        }
    }
    assert forall|a: int| !adjacent(nodes, a, a) by {
        if adjacent(nodes, a, a) {
            let e = choose|e: int|
                0 <= e < nodes[a].1.edges.len() && (#[trigger] nodes[a].1.edges[e]).to@
                    == nodes[a].1.name@;
            assert(nodes[a].1.edges[e].to@ != nodes[a].1.name@);
        }
    }
    lemma_total_even(nodes, n);
    lemma_degree_sum_is_total(nodes, n);
    lemma_odd_parity(nodes, n);
    assert(nodes.take(n) =~= nodes);
}

} // verus!
