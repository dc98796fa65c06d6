//! Shortest distances between all pairs of nodes, by the method of Floyd
//! and Warshall on a matrix whose row and column 0 are not used.

use vstd::prelude::*;
use crate::munkres::{Matrix, MAX, is_grid, int_entries};
use crate::graph::{Node, graph_wf, has_node, find_node};
use crate::names::{index_of, node_indices, lemma_index_injective};

verus! {

/// `w` lists the nodes of a way from `from` to `to` with at least one step.
pub open spec fn is_walk(w: Seq<int>, n: int, from: int, to: int) -> bool {
    &&& w.len() >= 2
    &&& w[0] == from
    &&& w[w.len() - 1] == to
    &&& forall|t: int| 0 <= t < w.len() ==> 1 <= #[trigger] w[t] < n
}

/// The sum of the direct distances `d` along the steps of `w`.
pub open spec fn walk_len(d: Seq<Seq<int>>, w: Seq<int>) -> int
    decreases w.len(),
{
    if w.len() < 2 {
        0
    } else {
        walk_len(d, w.drop_last()) + d[w[w.len() - 2]][w[w.len() - 1]]
    }
}

/// `len` is the length of a shortest way from `from` to `to` over the direct
/// distances `d`.
pub open spec fn is_shortest(d: Seq<Seq<int>>, n: int, from: int, to: int, len: int) -> bool {
    &&& exists|w: Seq<int>| #[trigger] is_walk(w, n, from, to) && walk_len(d, w) == len
    &&& forall|w: Seq<int>| #[trigger] is_walk(w, n, from, to) ==> len <= walk_len(d, w)
}

/// No way through a node below `k` is shorter than the distance itself.
pub open spec fn tri_upto(m: Matrix<i32>, n: int, k: int) -> bool {
    forall|i: int, j: int, x: int|
        #![trigger m[i][x], m[x][j]]
        1 <= i < n && 1 <= j < n && 1 <= x < k ==> m[i][j] <= m[i][x] + m[x][j]
}

/// The distance from `a` to `b` or, where that is shorter, the one through
/// `k`.
pub open spec fn relaxed(m: Matrix<i32>, a: int, b: int, k: int) -> int {
    if m[a][b] > m[a][k] + m[k][b] {
        m[a][k] + m[k][b]
    } else {
        m[a][b] as int
    }
}

/// The cells before `(i, j)`, rows before columns, hold the distances of `dk`
/// relaxed through `k`, the other cells those of `dk`.
pub open spec fn relax_progress(
    dk: Matrix<i32>,
    cur: Matrix<i32>,
    n: int,
    k: int,
    i: int,
    j: int,
) -> bool {
    forall|a: int, b: int|
        1 <= a < n && 1 <= b < n ==> #[trigger] cur[a][b] == if a < i || (a == i && b < j) {
            relaxed(dk, a, b, k)
        } else {
            dk[a][b] as int
        }
}

/// What holds of the matrix `cur` throughout: no distance is negative or
/// above the direct one, each is the length of some way, and row and column 0
/// are as they were.
pub open spec fn relax_inv(
    d0: Seq<Seq<int>>,
    start: Matrix<i32>,
    cur: Matrix<i32>,
    walks: Seq<Seq<Seq<int>>>,
) -> bool {
    let n = start.len() as int;
    &&& is_grid(start, n, n)
    &&& is_grid(cur, n, n)
    &&& d0 == int_entries(start)
    &&& walks.len() == n
    &&& forall|a: int| 0 <= a < n ==> (#[trigger] walks[a]).len() == n
    &&& forall|a: int, b: int|
        0 <= a < n && 0 <= b < n && (a == 0 || b == 0) ==> #[trigger] cur[a][b] == start[a][b]
    &&& forall|a: int, b: int| 1 <= a < n && 1 <= b < n ==> 0 <= #[trigger] cur[a][b] <= start[a][b]
    &&& forall|a: int, b: int|
        1 <= a < n && 1 <= b < n ==> is_walk(#[trigger] walks[a][b], n, a, b) && walk_len(
            d0,
            walks[a][b],
        ) == cur[a][b]
}

/// A way to a node and a way on from it make a way whose length is the sum
/// of theirs.
proof fn lemma_walk_concat(
    d: Seq<Seq<int>>,
    a: Seq<int>,
    b: Seq<int>,
    n: int,
    from: int,
    mid: int,
    to: int,
)
    requires
        is_walk(a, n, from, mid),
        is_walk(b, n, mid, to),
    ensures
        is_walk(a + b.drop_first(), n, from, to),
        walk_len(d, a + b.drop_first()) == walk_len(d, a) + walk_len(d, b),
    decreases b.len(),
{
    let c = a + b.drop_first();
    assert forall|t: int| 0 <= t < c.len() implies 1 <= #[trigger] c[t] < n by {
        if t >= a.len() {
            assert(c[t] == b[t - a.len() + 1]);
        } else {
            assert(c[t] == a[t]);
        }
    }
    assert(c[0] == a[0]);
    assert(c[c.len() - 1] == b[b.len() - 1]);
    if b.len() == 2 {
        assert(c.drop_last() =~= a);
        assert(c[c.len() - 2] == a[a.len() - 1]);
        assert(walk_len(d, b.drop_last()) == 0);
    } else {
        let b2 = b.drop_last();
        assert(is_walk(b2, n, mid, b[b.len() - 2]));
        lemma_walk_concat(d, a, b2, n, from, mid, b[b.len() - 2]);
        assert(c.drop_last() =~= a + b2.drop_first());
        assert(c[c.len() - 2] == b[b.len() - 2]);
    }
}

/// Where no way through any node is shorter than the distance itself, no
/// way at all is.
proof fn lemma_walk_bound(d0: Seq<Seq<int>>, start: Matrix<i32>, cur: Matrix<i32>, w: Seq<int>, from: int, to: int)
    requires
        is_grid(start, start.len() as int, start.len() as int),
        is_grid(cur, start.len() as int, start.len() as int),
        d0 == int_entries(start),
        forall|a: int, b: int|
            1 <= a < start.len() && 1 <= b < start.len() ==> 0 <= #[trigger] cur[a][b]
                <= start[a][b],
        tri_upto(cur, start.len() as int, start.len() as int),
        is_walk(w, start.len() as int, from, to),
    ensures
        cur[from][to] <= walk_len(d0, w),
    decreases w.len(),
{
    let n = start.len() as int;
    let last = w.len() - 1;
    assert(1 <= w[last - 1] < n);
    assert(1 <= w[last] < n);
    assert(1 <= w[0] < n);
    assert(d0[w[last - 1]][w[last]] == start[w[last - 1]][w[last]]);
    assert(cur[w[last - 1]][w[last]] <= start[w[last - 1]][w[last]]);
    if w.len() == 2 {
        assert(walk_len(d0, w.drop_last()) == 0);
    } else {
        let w2 = w.drop_last();
        let mid = w[last - 1];
        assert(is_walk(w2, n, from, mid));
        lemma_walk_bound(d0, start, cur, w2, from, mid);
        assert(cur[from][to] <= cur[from][mid] + cur[mid][to]);
    }
}

/// After the distances were relaxed through `k`, no way through `k` is
/// shorter than the distance itself, nor one through a node before `k`.
proof fn lemma_relax_step(dk: Matrix<i32>, cur: Matrix<i32>, n: int, k: int)
    requires
        is_grid(dk, n, n),
        is_grid(cur, n, n),
        1 <= k < n,
        forall|a: int, b: int| 1 <= a < n && 1 <= b < n ==> 0 <= #[trigger] dk[a][b],
        tri_upto(dk, n, k),
        relax_progress(dk, cur, n, k, n, 1),
    ensures
        tri_upto(cur, n, k + 1),
{
    assert(0 <= dk[k][k]);
    assert forall|i: int, j: int, x: int|
        #![trigger cur[i][x], cur[x][j]]
        1 <= i < n && 1 <= j < n && 1 <= x < k + 1 implies cur[i][j] <= cur[i][x] + cur[x][j] by {
        assert(cur[i][j] == relaxed(dk, i, j, k));
        assert(cur[i][x] == relaxed(dk, i, x, k));
        assert(cur[x][j] == relaxed(dk, x, j, k));
        assert(0 <= dk[i][k] && 0 <= dk[k][j] && 0 <= dk[i][j]);
        if x < k {
            assert(dk[i][j] <= dk[i][x] + dk[x][j]);
            assert(dk[k][j] <= dk[k][x] + dk[x][j]);
            assert(dk[i][k] <= dk[i][x] + dk[x][k]);
            assert(dk[k][k] <= dk[k][x] + dk[x][k]);
        }
    }
}

/// Brings every distance down to the length of a shortest way: for each node
/// `k` in turn, each distance is replaced by the one through `k` where that
/// is shorter.
pub fn relax(array: &mut Matrix<i32>)
    requires
        is_grid(*old(array), old(array).len() as int, old(array).len() as int),
        forall|i: int, j: int|
            1 <= i < old(array).len() && 1 <= j < old(array).len() ==> 0 <= #[trigger] old(array)[i][j],
    ensures
        is_grid(*final(array), old(array).len() as int, old(array).len() as int),
        forall|i: int, j: int|
            0 <= i < old(array).len() && 0 <= j < old(array).len() && (i == 0 || j == 0)
                ==> #[trigger] final(array)[i][j] == old(array)[i][j],
        forall|i: int, j: int|
            1 <= i < old(array).len() && 1 <= j < old(array).len() ==> is_shortest(
                int_entries(*old(array)),
                old(array).len() as int,
                i,
                j,
                #[trigger] final(array)[i][j] as int,
            ),
        forall|i: int, j: int, k: int|
            #![trigger final(array)[i][k], final(array)[k][j]]
            1 <= i < old(array).len() && 1 <= j < old(array).len() && 1 <= k < old(array).len()
                ==> final(array)[i][j] <= final(array)[i][k] + final(array)[k][j],
        forall|i: int|
            1 <= i < old(array).len() && old(array)[i][i] == 0 ==> #[trigger] final(array)[i][i]
                == 0,
        forall|i: int, j: int|
            1 <= i < old(array).len() && 1 <= j < old(array).len() ==> 0 <= #[trigger] final(array)[i][j] <= old(array)[i][j],
{
    let size = array.len();
    let ghost n = size as int;
    let ghost start = *array;
    let ghost d0 = int_entries(start);
    let ghost mut walks: Seq<Seq<Seq<int>>> = Seq::new(
        size as nat,
        |i: int| Seq::new(size as nat, |j: int| seq![i, j]),
    );
    proof {
        assert forall|a: int, b: int| 1 <= a < n && 1 <= b < n implies is_walk(
            #[trigger] walks[a][b],
            n,
            a,
            b,
        ) && walk_len(d0, walks[a][b]) == array[a][b] by {
            let w = walks[a][b];
            assert(w.len() == 2 && w[0] == a && w[1] == b);
            assert(walk_len(d0, w.drop_last()) == 0);
        }
    }
    let mut k: usize = 1;
    while k < size
        invariant
            1 <= k,
            size == start.len(),
            n == size,
            relax_inv(d0, start, *array, walks),
            tri_upto(*array, n, k as int),
        decreases size - k,
    {
        let ghost dk = *array;
        let mut i: usize = 1;
        while i < size
            invariant
                1 <= k < size,
                1 <= i <= size,
                size == start.len(),
                n == size,
                is_grid(dk, n, n),
                forall|a: int, b: int| 1 <= a < n && 1 <= b < n ==> 0 <= #[trigger] dk[a][b],
                relax_inv(d0, start, *array, walks),
                relax_progress(dk, *array, n, k as int, i as int, 1),
            decreases size - i,
        {
            let mut j: usize = 1;
            while j < size
                invariant
                    1 <= k < size,
                    1 <= i < size,
                    1 <= j <= size,
                    size == start.len(),
                    n == size,
                    is_grid(dk, n, n),
                    forall|a: int, b: int| 1 <= a < n && 1 <= b < n ==> 0 <= #[trigger] dk[a][b],
                    relax_inv(d0, start, *array, walks),
                    relax_progress(dk, *array, n, k as int, i as int, j as int),
                decreases size - j,
            {
                proof {
                    assert(0 <= dk[k as int][k as int]);
                    assert(0 <= dk[i as int][k as int]);
                    assert(0 <= dk[k as int][j as int]);
                    assert(array[i as int][k as int] == dk[i as int][k as int]);
                    assert(array[k as int][j as int] == dk[k as int][j as int]);
                    assert(array[i as int][j as int] == dk[i as int][j as int]);
                    assert(0 <= array[i as int][j as int]);
                }
                let through: i64 = array[i][k] as i64 + array[k][j] as i64;
                let ghost before = *array;
                if array[i][j] as i64 > through {
                    proof {
                        let first = walks[i as int][k as int];
                        let second = walks[k as int][j as int];
                        lemma_walk_concat(d0, first, second, n, i as int, k as int, j as int);
                        walks = walks.update(
                            i as int,
                            walks[i as int].update(j as int, first + second.drop_first()),
                        );
                    }
                    array[i][j] = through as i32;
                }
                proof {
                    assert forall|a: int, b: int| 1 <= a < n && 1 <= b < n implies #[trigger] array[a][b]
                        == if a < i || (a == i && b < j + 1) {
                        relaxed(dk, a, b, k as int)
                    } else {
                        dk[a][b] as int
                    } by {
                        assert(before[a][b] == if a < i || (a == i && b < j) {
                            relaxed(dk, a, b, k as int)
                        } else {
                            dk[a][b] as int
                        });
                    }
                    assert forall|a: int, b: int| 1 <= a < n && 1 <= b < n implies 0
                        <= #[trigger] array[a][b] <= start[a][b] by {
                        assert(0 <= before[a][b] <= start[a][b]);
                    }
                }
                j += 1;
            }
            i += 1;
        }
        proof {
            lemma_relax_step(dk, *array, n, k as int);
        }
        k += 1;
    }
    proof {
        assert forall|i: int, j: int| 1 <= i < n && 1 <= j < n implies is_shortest(
            d0,
            n,
            i,
            j,
            #[trigger] array[i][j] as int,
        ) by {
            assert(is_walk(walks[i][j], n, i, j) && walk_len(d0, walks[i][j]) == array[i][j]);
            assert forall|w: Seq<int>| #[trigger] is_walk(w, n, i, j) implies array[i][j]
                <= walk_len(d0, w) by {
                lemma_walk_bound(d0, start, *array, w, i, j);
            }
        }
    }
}

/// A street leads to a name that no node has.
#[derive(Debug)]
pub struct GraphInconsistency {
    /// The name that no node has.
    pub name: String,
}

/// `nodes[k]` has an edge `e`.
pub open spec fn edge_at(nodes: Seq<(usize, Node)>, k: int, e: int) -> bool {
    0 <= k < nodes.len() && 0 <= e < nodes[k].1.edges.len()
}

/// Edge `e` of `nodes[k]` leads to a name that no node has.
pub open spec fn is_dangling(nodes: Seq<(usize, Node)>, k: int, e: int) -> bool {
    edge_at(nodes, k, e) && !has_node(nodes, nodes[k].1.edges[e].to@)
}

/// Edge `e` of `nodes[k]` is the first that leads to a name that no node has.
pub open spec fn is_first_dangling(nodes: Seq<(usize, Node)>, k: int, e: int) -> bool {
    &&& is_dangling(nodes, k, e)
    &&& forall|a: int, b: int| #[trigger] is_dangling(nodes, a, b) ==> k < a || (k == a && e <= b)
}

/// Every edge leads to a node.
pub open spec fn no_dangling(nodes: Seq<(usize, Node)>) -> bool {
    forall|k: int, e: int| !#[trigger] is_dangling(nodes, k, e)
}

/// Edge `e` of `nodes[k]` leads from the node of index `i` to the node of
/// index `j`.
pub open spec fn joins(nodes: Seq<(usize, Node)>, k: int, e: int, i: int, j: int) -> bool {
    &&& edge_at(nodes, k, e)
    &&& index_of(nodes, nodes[k].1.name@) == i
    &&& index_of(nodes, nodes[k].1.edges[e].to@) == j
}

/// Some edge leads from the node of index `i` to the node of index `j`.
pub open spec fn joined(nodes: Seq<(usize, Node)>, i: int, j: int) -> bool {
    exists|k: int, e: int| #[trigger] joins(nodes, k, e, i, j)
}

/// The distance from the node of index `i` to the node of index `j` before
/// any way through other nodes is looked at: the length of the edge between
/// them or, without one, 0 from a node to itself and `MAX` to another.
pub open spec fn initial_distance(nodes: Seq<(usize, Node)>, i: int, j: int) -> int {
    if joined(nodes, i, j) {
        let (k, e) = choose|k: int, e: int| #[trigger] joins(nodes, k, e, i, j);
        nodes[k].1.edges[e].length as int
    } else if i == j {
        0
    } else {
        MAX as int
    }
}

/// The initial distances between all nodes, as a matrix whose row and column
/// 0 are not used.
pub open spec fn initial_distances(nodes: Seq<(usize, Node)>) -> Seq<Seq<int>> {
    Seq::new(
        nodes.len() + 1,
        |i: int| Seq::new(nodes.len() + 1, |j: int| initial_distance(nodes, i, j)),
    )
}

/// The entry stands for an edge: its indices are those of the edge's two
/// nodes and its length is the edge's.
pub open spec fn resolved(nodes: Seq<(usize, Node)>, t: (usize, usize, i32)) -> bool {
    exists|k: int, e: int|
        #[trigger] joins(nodes, k, e, t.0 as int, t.1 as int) && nodes[k].1.edges[e].length == t.2
}

/// Edge `e` of `nodes[k]` has an entry.
pub open spec fn listed(nodes: Seq<(usize, Node)>, entries: Seq<(usize, usize, i32)>, k: int, e: int) -> bool {
    exists|q: int|
        0 <= q < entries.len() && (#[trigger] entries[q]).0 == index_of(nodes, nodes[k].1.name@)
            && entries[q].1 == index_of(nodes, nodes[k].1.edges[e].to@) && entries[q].2
            == nodes[k].1.edges[e].length
}

/// The entries stand for the edges of the nodes, each edge by one entry or
/// more.
pub open spec fn entries_of(nodes: Seq<(usize, Node)>, entries: Seq<(usize, usize, i32)>) -> bool {
    &&& forall|q: int|
        0 <= q < entries.len() ==> resolved(nodes, #[trigger] entries[q]) && 1 <= entries[q].0
            <= nodes.len() && 1 <= entries[q].1 <= nodes.len()
    &&& forall|k: int, e: int| #[trigger] edge_at(nodes, k, e) ==> listed(nodes, entries, k, e)
}

/// One of the first `upto` entries stands in the cell `(i, j)`.
pub open spec fn hit(entries: Seq<(usize, usize, i32)>, upto: int, i: int, j: int) -> bool {
    exists|q: int| 0 <= q < upto && (#[trigger] entries[q]).0 == i && entries[q].1 == j
}

/// No two edges lead from one node to one other.
proof fn lemma_joins_unique(
    nodes: Seq<(usize, Node)>,
    k1: int,
    e1: int,
    k2: int,
    e2: int,
    i: int,
    j: int,
)
    requires
        graph_wf(nodes),
        no_dangling(nodes),
        joins(nodes, k1, e1, i, j),
        joins(nodes, k2, e2, i, j),
    ensures
        k1 == k2,
        e1 == e2,
{
    if k1 != k2 {
        let lo = if k1 < k2 { k1 } else { k2 };
        let hi = if k1 < k2 { k2 } else { k1 };
        assert(nodes[lo].1.name@ != nodes[hi].1.name@);
        lemma_index_injective(nodes, k1, k2);
    }
    let to1 = nodes[k1].1.edges[e1].to@;
    let to2 = nodes[k1].1.edges[e2].to@;
    assert(!is_dangling(nodes, k1, e1));
    assert(!is_dangling(nodes, k1, e2));
    let first = choose|p: int| 0 <= p < nodes.len() && (#[trigger] nodes[p]).1.name@ == to1;
    let second = choose|p: int| 0 <= p < nodes.len() && (#[trigger] nodes[p]).1.name@ == to2;
    if to1 != to2 {
        lemma_index_injective(nodes, first, second);
    }
    if e1 != e2 {
        let lo = if e1 < e2 { e1 } else { e2 };
        let hi = if e1 < e2 { e2 } else { e1 };
        let edges = nodes[k1].1.edges@;
        assert(edges[lo].to@ != edges[hi].to@);
    }
}

/// For each edge the indices of its two nodes and its length. Fails at the
/// first edge that leads to a name that no node has.
fn resolve(nodes: &Vec<(usize, Node)>, indices: &Vec<usize>) -> (result: Result<
    Vec<(usize, usize, i32)>,
    GraphInconsistency,
>)
    requires
        indices.len() == nodes.len(),
        forall|k: int|
            0 <= k < nodes.len() ==> #[trigger] indices[k] == index_of(nodes@, nodes[k].1.name@),
        forall|k: int| 0 <= k < nodes.len() ==> 1 <= #[trigger] indices[k] <= nodes.len(),
    ensures
        match result {
            Ok(entries) => no_dangling(nodes@) && entries_of(nodes@, entries@),
            Err(err) => exists|k: int, e: int|
                #[trigger] is_first_dangling(nodes@, k, e) && err.name@ == nodes[k].1.edges[e].to@,
        },
{
    let mut entries: Vec<(usize, usize, i32)> = Vec::new();
    let mut k: usize = 0;
    while k < nodes.len()
        invariant
            k <= nodes.len(),
            indices.len() == nodes.len(),
            forall|a: int|
                0 <= a < nodes.len() ==> #[trigger] indices[a] == index_of(
                    nodes@,
                    nodes[a].1.name@,
                ),
            forall|a: int| 0 <= a < nodes.len() ==> 1 <= #[trigger] indices[a] <= nodes.len(),
            forall|q: int|
                0 <= q < entries.len() ==> resolved(nodes@, #[trigger] entries[q]) && 1
                    <= entries[q].0 <= nodes.len() && 1 <= entries[q].1 <= nodes.len(),
            forall|a: int, b: int|
                #[trigger] edge_at(nodes@, a, b) && a < k ==> !is_dangling(nodes@, a, b) && listed(
                    nodes@,
                    entries@,
                    a,
                    b,
                ),
        decreases nodes.len() - k,
    {
        let mut e: usize = 0;
        while e < nodes[k].1.edges.len()
            invariant
                k < nodes.len(),
                e <= nodes[k as int].1.edges.len(),
                indices.len() == nodes.len(),
                forall|a: int|
                    0 <= a < nodes.len() ==> #[trigger] indices[a] == index_of(
                        nodes@,
                        nodes[a].1.name@,
                    ),
                forall|a: int| 0 <= a < nodes.len() ==> 1 <= #[trigger] indices[a] <= nodes.len(),
                forall|q: int|
                    0 <= q < entries.len() ==> resolved(nodes@, #[trigger] entries[q]) && 1
                        <= entries[q].0 <= nodes.len() && 1 <= entries[q].1 <= nodes.len(),
                forall|a: int, b: int|
                    #[trigger] edge_at(nodes@, a, b) && (a < k || (a == k && b < e))
                        ==> !is_dangling(nodes@, a, b) && listed(nodes@, entries@, a, b),
            decreases nodes[k as int].1.edges.len() - e,
        {
            let found = find_node(nodes, &nodes[k].1.edges[e].to);
            match found {
                None => {
                    proof {
                        assert(is_dangling(nodes@, k as int, e as int));
                        assert forall|a: int, b: int| #[trigger]
                            is_dangling(nodes@, a, b) implies k < a || (k == a && e <= b) by {
                            assert(edge_at(nodes@, a, b));
                        }
                        assert(is_first_dangling(nodes@, k as int, e as int));
                    }
                    return Err(GraphInconsistency { name: nodes[k].1.edges[e].to.clone() });
                },
                Some(p) => {
                    let ghost before = entries@;
                    let entry = (indices[k], indices[p], nodes[k].1.edges[e].length);
                    entries.push(entry);
                    proof {
                        assert(nodes[p as int].1.name@ == nodes[k as int].1.edges[e as int].to@);
                        assert(has_node(nodes@, nodes[k as int].1.edges[e as int].to@));
                        assert(joins(nodes@, k as int, e as int, entry.0 as int, entry.1 as int));
                        assert(resolved(nodes@, entry));
                        assert forall|q: int| 0 <= q < entries.len() implies resolved(
                            nodes@,
                            #[trigger] entries[q],
                        ) && 1 <= entries[q].0 <= nodes.len() && 1 <= entries[q].1
                            <= nodes.len() by {
                            if q < before.len() {
                                assert(entries[q] == before[q]);
                            }
                        }
                        assert forall|a: int, b: int| #[trigger]
                            edge_at(nodes@, a, b) && (a < k || (a == k && b < e + 1)) implies !is_dangling(
                            nodes@,
                            a,
                            b,
                        ) && listed(nodes@, entries@, a, b) by {
                            if a == k && b == e {
                                assert(entries[before.len() as int] == entry);
                            } else {
                                assert(listed(nodes@, before, a, b));
                                let q = choose|q: int|
                                    0 <= q < before.len() && (#[trigger] before[q]).0 == index_of(
                                        nodes@,
                                        nodes[a].1.name@,
                                    ) && before[q].1 == index_of(nodes@, nodes[a].1.edges[b].to@)
                                        && before[q].2 == nodes[a].1.edges[b].length;
                                assert(entries[q] == before[q]);
                            }
                        }
                    }
                },
            }
            e += 1;
        }
        k += 1;
    }
    proof {
        assert forall|a: int, b: int| !#[trigger] is_dangling(nodes@, a, b) by {
            if edge_at(nodes@, a, b) {
            }
        }
    }
    Ok(entries)
}

/// Writes the initial distances: 0 from each node to itself, `MAX` to every
/// other, and then for each edge its length.
fn fill(array: &mut Matrix<i32>, entries: &Vec<(usize, usize, i32)>, Ghost(nodes): Ghost<Seq<(usize, Node)>>)
    requires
        is_grid(*old(array), nodes.len() as int + 1, nodes.len() as int + 1),
        graph_wf(nodes),
        no_dangling(nodes),
        entries_of(nodes, entries@),
    ensures
        is_grid(*final(array), nodes.len() as int + 1, nodes.len() as int + 1),
        forall|i: int, j: int|
            0 <= i <= nodes.len() && 0 <= j <= nodes.len() && (i == 0 || j == 0) ==> #[trigger] final(array)[i][j] == old(array)[i][j],
        forall|i: int, j: int|
            1 <= i <= nodes.len() && 1 <= j <= nodes.len() ==> #[trigger] final(array)[i][j]
                == initial_distance(nodes, i, j),
{
    let size = array.len();
    let ghost start = *array;
    let mut i: usize = 1;
    while i < size
        invariant
            1 <= i <= size,
            size == nodes.len() + 1,
            is_grid(start, size as int, size as int),
            is_grid(*array, size as int, size as int),
            forall|a: int, b: int|
                0 <= a < size && 0 <= b < size ==> #[trigger] array[a][b] == if 1 <= a < i && 1
                    <= b {
                    if a == b {
                        0
                    } else {
                        MAX
                    }
                } else {
                    start[a][b]
                },
        decreases size - i,
    {
        let mut j: usize = 1;
        while j < size
            invariant
                1 <= i < size,
                1 <= j <= size,
                size == nodes.len() + 1,
                is_grid(start, size as int, size as int),
                is_grid(*array, size as int, size as int),
                forall|a: int, b: int|
                    0 <= a < size && 0 <= b < size ==> #[trigger] array[a][b] == if 1 <= b && (1
                        <= a < i || (a == i && b < j)) {
                        if a == b {
                            0
                        } else {
                            MAX
                        }
                    } else {
                        start[a][b]
                    },
            decreases size - j,
        {
            array[i][j] = if i == j {
                0
            } else {
                MAX
            };
            j += 1;
        }
        i += 1;
    }
    let mut q: usize = 0;
    while q < entries.len()
        invariant
            q <= entries.len(),
            size == nodes.len() + 1,
            is_grid(start, size as int, size as int),
            is_grid(*array, size as int, size as int),
            graph_wf(nodes),
            no_dangling(nodes),
            entries_of(nodes, entries@),
            forall|a: int, b: int|
                0 <= a < size && 0 <= b < size && (a == 0 || b == 0) ==> #[trigger] array[a][b]
                    == start[a][b],
            forall|p: int|
                0 <= p < q ==> array[(#[trigger] entries[p]).0 as int][entries[p].1 as int]
                    == entries[p].2,
            forall|a: int, b: int|
                1 <= a < size && 1 <= b < size && !hit(entries@, q as int, a, b)
                    ==> #[trigger] array[a][b] == if a == b {
                    0
                } else {
                    MAX
                },
        decreases entries.len() - q,
    {
        let entry = entries[q];
        let ghost before = *array;
        proof {
            assert(resolved(nodes, entries[q as int]));
        }
        array[entry.0][entry.1] = entry.2;
        proof {
            assert forall|p: int| 0 <= p < q + 1 implies array[(#[trigger] entries[p]).0 as int][entries[p].1 as int]
                == entries[p].2 by {
                if p < q {
                    assert(before[entries[p].0 as int][entries[p].1 as int] == entries[p].2);
                    if entries[p].0 == entry.0 && entries[p].1 == entry.1 {
                        assert(resolved(nodes, entries[p]));
                        let (k1, e1) = choose|k: int, e: int|
                            #[trigger] joins(nodes, k, e, entries[p].0 as int, entries[p].1 as int)
                                && nodes[k].1.edges[e].length == entries[p].2;
                        let (k2, e2) = choose|k: int, e: int|
                            #[trigger] joins(nodes, k, e, entry.0 as int, entry.1 as int)
                                && nodes[k].1.edges[e].length == entry.2;
                        lemma_joins_unique(nodes, k1, e1, k2, e2, entry.0 as int, entry.1 as int);
                    }
                }
            }
            assert forall|a: int, b: int|
                1 <= a < size && 1 <= b < size && !hit(entries@, q + 1, a, b) implies #[trigger] array[a][b]
                == if a == b {
                0
            } else {
                MAX
            } by {
                assert(!(entries[q as int].0 == a && entries[q as int].1 == b));
                if hit(entries@, q as int, a, b) {
                    let w = choose|w: int| 0 <= w < q && (#[trigger] entries[w]).0 == a && entries[w].1 == b;
                    assert(0 <= w < q + 1 && entries[w].0 == a && entries[w].1 == b);
                }
                assert(before[a][b] == array[a][b]);
            }
        }
        q += 1;
    }
    proof {
        assert forall|a: int, b: int| 1 <= a < size && 1 <= b < size implies #[trigger] array[a][b]
            == initial_distance(nodes, a, b) by {
            if joined(nodes, a, b) {
                let (k, e) = choose|k: int, e: int| #[trigger] joins(nodes, k, e, a, b);
                assert(edge_at(nodes, k, e));
                assert(listed(nodes, entries@, k, e));
                let w = choose|w: int|
                    0 <= w < entries.len() && (#[trigger] entries[w]).0 == index_of(
                        nodes,
                        nodes[k].1.name@,
                    ) && entries[w].1 == index_of(nodes, nodes[k].1.edges[e].to@) && entries[w].2
                        == nodes[k].1.edges[e].length;
                assert(array[entries[w].0 as int][entries[w].1 as int] == entries[w].2);
            } else {
                if hit(entries@, entries.len() as int, a, b) {
                    let w = choose|w: int|
                        0 <= w < entries.len() && (#[trigger] entries[w]).0 == a && entries[w].1 == b;
                    assert(resolved(nodes, entries[w]));
                    let (k, e) = choose|k: int, e: int|
                        #[trigger] joins(nodes, k, e, entries[w].0 as int, entries[w].1 as int)
                            && nodes[k].1.edges[e].length == entries[w].2;
                    assert(joins(nodes, k, e, a, b));
                }
            }
        }
    }
}

/// The length of a way depends on the distances between the nodes alone.
proof fn lemma_walk_len_agree(d: Seq<Seq<int>>, d2: Seq<Seq<int>>, n: int, w: Seq<int>)
    requires
        forall|a: int, b: int| 1 <= a < n && 1 <= b < n ==> #[trigger] d[a][b] == d2[a][b],
        forall|t: int| 0 <= t < w.len() ==> 1 <= #[trigger] w[t] < n,
    ensures
        walk_len(d, w) == walk_len(d2, w),
    decreases w.len(),
{
    if w.len() >= 2 {
        lemma_walk_len_agree(d, d2, n, w.drop_last());
        assert(1 <= w[w.len() - 2] < n);
        assert(1 <= w[w.len() - 1] < n);
    }
}

/// What is a shortest way over one matrix of direct distances is one over
/// any other that holds the same distances between the nodes.
pub proof fn lemma_shortest_agree(
    d: Seq<Seq<int>>,
    d2: Seq<Seq<int>>,
    n: int,
    from: int,
    to: int,
    len: int,
)
    requires
        forall|a: int, b: int| 1 <= a < n && 1 <= b < n ==> #[trigger] d[a][b] == d2[a][b],
        is_shortest(d, n, from, to, len),
    ensures
        is_shortest(d2, n, from, to, len),
{
    let w = choose|w: Seq<int>| #[trigger] is_walk(w, n, from, to) && walk_len(d, w) == len;
    lemma_walk_len_agree(d, d2, n, w);
    assert(is_walk(w, n, from, to) && walk_len(d2, w) == len);
    assert forall|x: Seq<int>| #[trigger] is_walk(x, n, from, to) implies len <= walk_len(d2, x) by {
        lemma_walk_len_agree(d, d2, n, x);
    }
}

/// No shortest way over edges without negative lengths has a negative length.
pub proof fn lemma_shortest_nonneg(nodes: Seq<(usize, Node)>, from: int, to: int, len: int)
    requires
        graph_wf(nodes),
        is_shortest(initial_distances(nodes), nodes.len() as int + 1, from, to, len),
    ensures
        0 <= len,
{
    let d = initial_distances(nodes);
    let n = nodes.len() as int + 1;
    let w = choose|w: Seq<int>| #[trigger] is_walk(w, n, from, to) && walk_len(d, w) == len;
    lemma_walk_nonneg(nodes, w);
}

/// No way over edges without negative lengths has a negative length.
proof fn lemma_walk_nonneg(nodes: Seq<(usize, Node)>, w: Seq<int>)
    requires
        graph_wf(nodes),
        forall|t: int| 0 <= t < w.len() ==> 1 <= #[trigger] w[t] < nodes.len() + 1,
    ensures
        0 <= walk_len(initial_distances(nodes), w),
    decreases w.len(),
{
    if w.len() >= 2 {
        lemma_walk_nonneg(nodes, w.drop_last());
        let a = w[w.len() - 2];
        let b = w[w.len() - 1];
        assert(1 <= a < nodes.len() + 1);
        assert(1 <= b < nodes.len() + 1);
        assert(initial_distances(nodes)[a][b] == initial_distance(nodes, a, b));
        if joined(nodes, a, b) {
            let (k, e) = choose|k: int, e: int| #[trigger] joins(nodes, k, e, a, b);
            assert(nodes[k].1.edges@[e].length >= 0);
        }
    }
}

/// Writes to `array` the length of a shortest way between each two nodes,
/// each node standing in the row and column of its index. The length of a way
/// is the sum of its edges; without a way, a distance is `MAX` or more.
///
/// Fails, and leaves `array` as it is, where an edge leads to a name that no
/// node has.
pub fn all_pairs_shortest_arr(array: &mut Matrix<i32>, intersections: &Vec<(usize, Node)>) -> (result:
    Result<(), GraphInconsistency>)
    requires
        graph_wf(intersections@),
        is_grid(*old(array), intersections.len() + 1, intersections.len() + 1),
    ensures
        match result {
            Ok(_) => {
                &&& no_dangling(intersections@)
                &&& is_grid(*final(array), intersections.len() + 1, intersections.len() + 1)
                &&& forall|i: int, j: int|
                    0 <= i <= intersections.len() && 0 <= j <= intersections.len() && (i == 0 || j
                        == 0) ==> #[trigger] final(array)[i][j] == old(array)[i][j]
                &&& forall|i: int, j: int|
                    1 <= i <= intersections.len() && 1 <= j <= intersections.len() ==> is_shortest(
                        initial_distances(intersections@),
                        intersections.len() + 1,
                        i,
                        j,
                        #[trigger] final(array)[i][j] as int,
                    )
                &&& forall|i: int, j: int, k: int|
                    #![trigger final(array)[i][k], final(array)[k][j]]
                    1 <= i <= intersections.len() && 1 <= j <= intersections.len() && 1 <= k
                        <= intersections.len() ==> final(array)[i][j] <= final(array)[i][k] + final(array)[k][j]
                &&& forall|i: int|
                    1 <= i <= intersections.len() && initial_distance(intersections@, i, i) == 0
                        ==> #[trigger] final(array)[i][i] == 0
                &&& forall|i: int, j: int|
                    1 <= i <= intersections.len() && 1 <= j <= intersections.len() ==> 0
                        <= #[trigger] final(array)[i][j] <= initial_distance(intersections@, i, j)
            },
            Err(err) => {
                &&& *final(array) == *old(array)
                &&& exists|k: int, e: int|
                    #[trigger] is_first_dangling(intersections@, k, e) && err.name@
                        == intersections[k].1.edges[e].to@
            },
        },
{
    let indices = node_indices(intersections);
    let entries = match resolve(intersections, &indices) {
        Ok(entries) => entries,
        Err(err) => {
            return Err(err);
        },
    };
    fill(array, &entries, Ghost(intersections@));
    let ghost filled = *array;
    let ghost n = intersections.len() + 1;
    proof {
        assert forall|i: int, j: int| 1 <= i < n && 1 <= j < n implies 0 <= #[trigger] filled[i][j] by {
            assert(filled[i][j] == initial_distance(intersections@, i, j));
            if joined(intersections@, i, j) {
                let (k, e) = choose|k: int, e: int| #[trigger] joins(intersections@, k, e, i, j);
                assert(intersections[k].1.edges@[e].length >= 0);
            }
        }
    }
    relax(array);
    proof {
        let d = int_entries(filled);
        let d2 = initial_distances(intersections@);
        assert forall|a: int, b: int| 1 <= a < n && 1 <= b < n implies #[trigger] d[a][b]
            == d2[a][b] by {
            assert(filled[a][b] == initial_distance(intersections@, a, b));
        }
        assert forall|i: int, j: int| 1 <= i < n && 1 <= j < n implies is_shortest(
            d2,
            n,
            i,
            j,
            #[trigger] array[i][j] as int,
        ) by {
            lemma_shortest_agree(d, d2, n, i, j, array[i][j] as int);
        }
        assert forall|i: int| 1 <= i < n && initial_distance(intersections@, i, i) == 0 implies #[trigger] array[i][i]
            == 0 by {
            assert(filled[i][i] == 0);
        }
        assert forall|i: int, j: int| 1 <= i < n && 1 <= j < n implies 0 <= #[trigger] array[i][j]
            <= initial_distance(intersections@, i, j) by {
            assert(filled[i][j] == initial_distance(intersections@, i, j));
        }
    }
    Ok(())
}

} // verus!
