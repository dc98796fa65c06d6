//! The street network: intersections as nodes, and for each node the
//! streets that leave it.

use vstd::prelude::*;

verus! {

/// One location as it is read: its name, its number, and for each neighbour
/// the length of the street to it. A length is `None` where what was read is
/// not a number.
#[derive(Debug, Clone)]
pub struct Intersection {
    pub name: String,
    pub id: usize,
    pub neighbours: Vec<(String, Option<i32>)>,
}

/// A street from one node to another.
#[derive(Debug, Clone)]
pub struct Edge {
    pub from: String,
    pub to: String,
    pub length: i32,
}

/// A node with the streets that leave it, at most one to each neighbour.
#[derive(Debug, Clone)]
pub struct Node {
    pub id: usize,
    pub name: String,
    pub edges: Vec<Edge>,
}

/// The length of a street is missing or negative.
#[derive(Debug)]
pub struct ParseError {
    /// The name of the location whose record holds the length.
    pub name: String,
    /// The name of the neighbour.
    pub neighbour: String,
}

/// A length that an edge can have.
pub open spec fn valid_length(length: Option<i32>) -> bool {
    match length {
        Some(l) => l >= 0,
        None => false,
    }
}

/// The length of neighbour `j` of record `i` is missing or negative.
pub open spec fn bad_length(records: Seq<Intersection>, i: int, j: int) -> bool {
    0 <= i < records.len() && 0 <= j < records[i].neighbours.len() && !valid_length(
        records[i].neighbours[j].1,
    )
}

/// Every length of every record is a valid one.
pub open spec fn lengths_valid(records: Seq<Intersection>) -> bool {
    forall|i: int, j: int| !#[trigger] bad_length(records, i, j)
}

/// Record `i` is the first that has the name `name`.
pub open spec fn is_first(records: Seq<Intersection>, name: Seq<char>, i: int) -> bool {
    &&& 0 <= i < records.len()
    &&& records[i].name@ == name
    &&& forall|k: int| 0 <= k < i ==> (#[trigger] records[k]).name@ != name
}

/// The index of the first record that has the name `name`.
pub open spec fn first_index(records: Seq<Intersection>, name: Seq<char>) -> int {
    choose|i: int| is_first(records, name, i)
}

/// The map `m` after the neighbours `nb` were entered in their order, a later
/// entry for a name replacing an earlier one.
pub open spec fn add_neighbours(
    m: Map<Seq<char>, int>,
    nb: Seq<(String, Option<i32>)>,
) -> Map<Seq<char>, int>
    decreases nb.len(),
{
    if nb.len() == 0 {
        m
    } else {
        add_neighbours(m, nb.drop_last()).insert(nb.last().0@, nb.last().1.unwrap() as int)
    }
}

/// For the node `name`, the length of the street to each of its neighbours:
/// what the records of that name say, a later entry replacing an earlier one.
pub open spec fn edge_lengths(records: Seq<Intersection>, name: Seq<char>) -> Map<Seq<char>, int>
    decreases records.len(),
{
    if records.len() == 0 {
        Map::empty()
    } else {
        let before = edge_lengths(records.drop_last(), name);
        if records.last().name@ == name {
            add_neighbours(before, records.last().neighbours@)
        } else {
            before
        }
    }
}

/// The edges as a map from the neighbour's name to the length.
pub open spec fn edge_map(edges: Seq<Edge>) -> Map<Seq<char>, int>
    decreases edges.len(),
{
    if edges.len() == 0 {
        Map::empty()
    } else {
        edge_map(edges.drop_last()).insert(edges.last().to@, edges.last().length as int)
    }
}

/// The edges leave the node `name`, none is negative, and no two lead to the
/// same neighbour.
pub open spec fn edges_wf(edges: Seq<Edge>, name: Seq<char>) -> bool {
    &&& forall|e: int| 0 <= e < edges.len() ==> (#[trigger] edges[e]).from@ == name && edges[e].length >= 0
    &&& forall|e1: int, e2: int|
        0 <= e1 < e2 < edges.len() ==> (#[trigger] edges[e1]).to@ != (#[trigger] edges[e2]).to@
}

/// No two nodes have one name, each node stands beside its number, and the
/// edges of each node leave that node, none of them negative and no two to
/// the same neighbour.
pub open spec fn graph_wf(nodes: Seq<(usize, Node)>) -> bool {
    &&& forall|k: int| 0 <= k < nodes.len() ==> (#[trigger] nodes[k]).0 == nodes[k].1.id
    &&& forall|k: int| 0 <= k < nodes.len() ==> edges_wf((#[trigger] nodes[k]).1.edges@, nodes[k].1.name@)
    &&& forall|k1: int, k2: int|
        0 <= k1 < k2 < nodes.len() ==> (#[trigger] nodes[k1]).1.name@ != (#[trigger] nodes[k2]).1.name@
}

/// Node `a` comes before node `b`: by its number, and among equal numbers by
/// the place of its first record.
pub open spec fn comes_before(records: Seq<Intersection>, a: Node, b: Node) -> bool {
    a.id < b.id || (a.id == b.id && first_index(records, a.name@) < first_index(records, b.name@))
}

/// The nodes are those of the records: one for each name, with the number of
/// the first record of that name and the streets of all records of that
/// name, in the order of their numbers.
pub open spec fn is_graph_of(nodes: Seq<(usize, Node)>, records: Seq<Intersection>) -> bool {
    &&& graph_wf(nodes)
    &&& skeleton_of(nodes, records, records.len() as int)
    &&& forall|k: int|
        0 <= k < nodes.len() ==> edge_map((#[trigger] nodes[k]).1.edges@) == edge_lengths(
            records,
            nodes[k].1.name@,
        )
}

/// One of the nodes is called `name`.
pub open spec fn has_node(nodes: Seq<(usize, Node)>, name: Seq<char>) -> bool {
    exists|k: int| 0 <= k < nodes.len() && (#[trigger] nodes[k]).1.name@ == name
}

/// The nodes are those of the first `upto` records, their streets left
/// aside: one for each name, with the number of the first record of that
/// name, in the order of their numbers.
pub open spec fn skeleton_of(nodes: Seq<(usize, Node)>, records: Seq<Intersection>, upto: int) -> bool {
    &&& forall|k: int| 0 <= k < nodes.len() ==> (#[trigger] nodes[k]).0 == nodes[k].1.id
    &&& forall|k1: int, k2: int|
        0 <= k1 < k2 < nodes.len() ==> (#[trigger] nodes[k1]).1.name@ != (#[trigger] nodes[k2]).1.name@
    &&& forall|i: int| 0 <= i < upto ==> has_node(nodes, (#[trigger] records[i]).name@)
    &&& forall|k: int|
        0 <= k < nodes.len() ==> is_first(
            records,
            (#[trigger] nodes[k]).1.name@,
            first_index(records, nodes[k].1.name@),
        ) && first_index(records, nodes[k].1.name@) < upto && nodes[k].1.id
            == records[first_index(records, nodes[k].1.name@)].id
    &&& forall|k1: int, k2: int|
        0 <= k1 < k2 < nodes.len() ==> comes_before(
            records,
            (#[trigger] nodes[k1]).1,
            (#[trigger] nodes[k2]).1,
        )
}

/// The two lists hold nodes of the same names and numbers in the same order.
pub open spec fn same_skeleton(a: Seq<(usize, Node)>, b: Seq<(usize, Node)>) -> bool {
    &&& a.len() == b.len()
    &&& forall|k: int|
        0 <= k < a.len() ==> (#[trigger] a[k]).0 == b[k].0 && a[k].1.id == b[k].1.id && a[k].1.name@
            == b[k].1.name@
}

/// What holds of the names and numbers of the nodes does not depend on their
/// edges.
proof fn lemma_same_skeleton(
    a: Seq<(usize, Node)>,
    b: Seq<(usize, Node)>,
    records: Seq<Intersection>,
    upto: int,
)
    requires
        skeleton_of(a, records, upto),
        same_skeleton(a, b),
    ensures
        skeleton_of(b, records, upto),
{
    assert forall|k: int| 0 <= k < b.len() implies (#[trigger] b[k]).0 == b[k].1.id by {
        assert(a[k].0 == b[k].0);
    }
    assert forall|k1: int, k2: int| 0 <= k1 < k2 < b.len() implies (#[trigger] b[k1]).1.name@ != (
    #[trigger] b[k2]).1.name@ && comes_before(records, b[k1].1, b[k2].1) by {
        assert(a[k1].1.name@ != a[k2].1.name@);
        assert(comes_before(records, a[k1].1, a[k2].1));
    }
    assert forall|i: int| 0 <= i < upto implies has_node(b, (#[trigger] records[i]).name@) by {
        assert(has_node(a, records[i].name@));
        let k = choose|k: int| 0 <= k < a.len() && (#[trigger] a[k]).1.name@ == records[i].name@;
        assert(b[k].1.name@ == records[i].name@);
    }
    assert forall|k: int| 0 <= k < b.len() implies is_first(
        records,
        (#[trigger] b[k]).1.name@,
        first_index(records, b[k].1.name@),
    ) && first_index(records, b[k].1.name@) < upto && b[k].1.id == records[first_index(
        records,
        b[k].1.name@,
    )].id by {
        assert(a[k].1.name@ == b[k].1.name@);
    }
}

/// Replacing the edge to a neighbour enters the new length for that
/// neighbour and leaves the others.
proof fn lemma_edge_map_update(s: Seq<Edge>, k: int, e: Edge)
    requires
        0 <= k < s.len(),
        s[k].to@ == e.to@,
        forall|e1: int, e2: int|
            0 <= e1 < e2 < s.len() ==> (#[trigger] s[e1]).to@ != (#[trigger] s[e2]).to@,
    ensures
        edge_map(s.update(k, e)) == edge_map(s).insert(e.to@, e.length as int),
    decreases s.len(),
{
    let after = s.update(k, e);
    if k == s.len() - 1 {
        assert(after.drop_last() =~= s.drop_last());
        assert(edge_map(after) =~= edge_map(s).insert(e.to@, e.length as int));
    } else {
        let rest = s.drop_last();
        assert forall|e1: int, e2: int| 0 <= e1 < e2 < rest.len() implies (#[trigger] rest[e1]).to@ != (
        #[trigger] rest[e2]).to@ by {
            assert(s[e1].to@ != s[e2].to@);
        }
        lemma_edge_map_update(rest, k, e);
        assert(after.drop_last() =~= rest.update(k, e));
        assert(after.last() == s.last());
        assert(s[k].to@ != s[s.len() - 1].to@);
        assert(edge_map(after) =~= edge_map(s).insert(e.to@, e.length as int));
    }
}

/// The position of the node called `name`, if there is one.
pub fn find_node(nodes: &Vec<(usize, Node)>, name: &String) -> (found: Option<usize>)
    ensures
        match found {
            Some(k) => k < nodes.len() && nodes[k as int].1.name@ == name@ && forall|j: int|
                0 <= j < k ==> (#[trigger] nodes[j]).1.name@ != name@,
            None => forall|j: int| 0 <= j < nodes.len() ==> (#[trigger] nodes[j]).1.name@ != name@,
        },
{
    let mut k: usize = 0;
    while k < nodes.len()
        invariant
            k <= nodes.len(),
            forall|j: int| 0 <= j < k ==> (#[trigger] nodes[j]).1.name@ != name@,
        decreases nodes.len() - k,
    {
        if nodes[k].1.name == *name {
            return Some(k);
        }
        k += 1;
    }
    None
}

/// Enters `edge` among `edges`, in place of the one to the same neighbour
/// where there is one.
fn upsert(edges: &mut Vec<Edge>, edge: Edge)
    requires
        edges_wf(old(edges)@, edge.from@),
        edge.length >= 0,
    ensures
        edges_wf(final(edges)@, edge.from@),
        edge_map(final(edges)@) == edge_map(old(edges)@).insert(edge.to@, edge.length as int),
{
    let ghost before = edges@;
    let mut k: usize = 0;
    while k < edges.len()
        invariant
            k <= edges.len(),
            edges@ == before,
            before == old(edges)@,
            edges_wf(before, edge.from@),
            edge.length >= 0,
            forall|j: int| 0 <= j < k ==> (#[trigger] edges[j]).to@ != edge.to@,
        decreases edges.len() - k,
    {
        if edges[k].to == edge.to {
            proof {
                lemma_edge_map_update(before, k as int, edge);
            }
            edges[k] = edge;
            assert(edges@ == before.update(k as int, edge));
            return ;
        }
        k += 1;
    }
    edges.push(edge);
    assert(edges@.drop_last() =~= before);
}

/// The first length that is missing or negative, records before neighbours,
/// as the place of the record and of the neighbour in it.
fn find_bad_length(records: &Vec<Intersection>) -> (bad: Option<(usize, usize)>)
    ensures
        match bad {
            Some((i, j)) => bad_length(records@, i as int, j as int) && forall|a: int, b: int|
                #[trigger] bad_length(records@, a, b) ==> i < a || (i == a && j <= b),
            None => lengths_valid(records@),
        },
{
    let mut i: usize = 0;
    while i < records.len()
        invariant
            i <= records.len(),
            forall|a: int, b: int| a < i ==> !#[trigger] bad_length(records@, a, b),
        decreases records.len() - i,
    {
        let mut j: usize = 0;
        while j < records[i].neighbours.len()
            invariant
                i < records.len(),
                j <= records[i as int].neighbours.len(),
                forall|a: int, b: int| a < i ==> !#[trigger] bad_length(records@, a, b),
                forall|b: int| b < j ==> !#[trigger] bad_length(records@, i as int, b),
            decreases records[i as int].neighbours.len() - j,
        {
            let ok = match records[i].neighbours[j].1 {
                Some(l) => l >= 0,
                None => false,
            };
            if !ok {
                return Some((i, j));
            }
            j += 1;
        }
        i += 1;
    }
    None
}

/// The first place whose node has a number above `id`.
fn insert_position(nodes: &Vec<(usize, Node)>, id: usize) -> (pos: usize)
    ensures
        pos <= nodes.len(),
        forall|k: int| 0 <= k < pos ==> (#[trigger] nodes[k]).0 <= id,
        pos < nodes.len() ==> nodes[pos as int].0 > id,
{
    let mut k: usize = 0;
    while k < nodes.len()
        invariant
            k <= nodes.len(),
            forall|j: int| 0 <= j < k ==> (#[trigger] nodes[j]).0 <= id,
        decreases nodes.len() - k,
    {
        if nodes[k].0 > id {
            return k;
        }
        k += 1;
    }
    k
}

/// The length `(i, j)` is the first that is missing or negative.
pub open spec fn is_first_bad(records: Seq<Intersection>, i: int, j: int) -> bool {
    &&& bad_length(records, i, j)
    &&& forall|a: int, b: int| #[trigger] bad_length(records, a, b) ==> i < a || (i == a && j <= b)
}

/// One node for each name among the records, without streets.
fn build_nodes(records: &Vec<Intersection>) -> (nodes: Vec<(usize, Node)>)
    ensures
        skeleton_of(nodes@, records@, records.len() as int),
        forall|k: int| 0 <= k < nodes.len() ==> (#[trigger] nodes[k]).1.edges@.len() == 0,
        nodes.len() <= records.len(),
{
    let mut nodes: Vec<(usize, Node)> = Vec::new();
    let mut i: usize = 0;
    while i < records.len()
        invariant
            i <= records.len(),
            nodes.len() <= i,
            skeleton_of(nodes@, records@, i as int),
            forall|k: int| 0 <= k < nodes.len() ==> (#[trigger] nodes[k]).1.edges@.len() == 0,
        decreases records.len() - i,
    {
        let found = find_node(&nodes, &records[i].name);
        if found.is_none() {
            let id = records[i].id;
            let pos = insert_position(&nodes, id);
            let node = Node { id, name: records[i].name.clone(), edges: Vec::new() };
            let ghost before = nodes@;
            let ghost name = records[i as int].name@;
            proof {
                assert(is_first(records@, name, i as int)) by {
                    assert forall|k: int| 0 <= k < i implies (#[trigger] records[k]).name@ != name by {
                        assert(has_node(before, records[k].name@));
                    }
                }
                assert(is_first(records@, name, first_index(records@, name)));
                assert(first_index(records@, name) == i);
            }
            nodes.insert(pos, (id, node));
            proof {
                let after = nodes@;
                assert(after == before.insert(pos as int, (id, node)));
                assert forall|k: int| 0 <= k < after.len() implies #[trigger] after[k] == if k < pos {
                    before[k]
                } else if k == pos {
                    (id, node)
                } else {
                    before[k - 1]
                } by {}
                assert forall|k: int| 0 <= k < after.len() implies (#[trigger] after[k]).0
                    == after[k].1.id && after[k].1.edges@.len() == 0 && is_first(
                    records@,
                    after[k].1.name@,
                    first_index(records@, after[k].1.name@),
                ) && first_index(records@, after[k].1.name@) < i + 1 && after[k].1.id
                    == records[first_index(records@, after[k].1.name@)].id by {
                    if k < pos {
                        assert(after[k] == before[k]);
                    } else if k > pos {
                        assert(after[k] == before[k - 1]);
                    }
                }
                assert forall|k1: int, k2: int| 0 <= k1 < k2 < after.len() implies (
                #[trigger] after[k1]).1.name@ != (#[trigger] after[k2]).1.name@ && comes_before(
                    records@,
                    after[k1].1,
                    after[k2].1,
                ) by {
                    let b1 = if k1 < pos {
                        k1
                    } else {
                        k1 - 1
                    };
                    let b2 = if k2 < pos {
                        k2
                    } else {
                        k2 - 1
                    };
                    if k1 != pos && k2 != pos {
                        assert(after[k1] == before[b1]);
                        assert(after[k2] == before[b2]);
                        assert(before[b1].1.name@ != before[b2].1.name@);
                        assert(comes_before(records@, before[b1].1, before[b2].1));
                    } else if k1 == pos {
                        assert(after[k2] == before[b2]);
                        assert(before[b2].1.name@ != name);
                        if pos < before.len() {
                            assert(before[pos as int].0 > id);
                            if b2 > pos {
                                assert(comes_before(records@, before[pos as int].1, before[b2].1));
                            }
                        }
                        assert(before[b2].0 == before[b2].1.id);
                        assert(before[pos as int].0 == before[pos as int].1.id);
                    } else {
                        assert(after[k1] == before[b1]);
                        assert(before[b1].1.name@ != name);
                        assert(before[b1].0 <= id);
                        assert(before[b1].0 == before[b1].1.id);
                        assert(first_index(records@, before[b1].1.name@) < i);
                    }
                }
                assert forall|a: int| 0 <= a < i + 1 implies has_node(
                    after,
                    (#[trigger] records[a]).name@,
                ) by {
                    if a < i {
                        assert(has_node(before, records[a].name@));
                        let k = choose|k: int|
                            0 <= k < before.len() && (#[trigger] before[k]).1.name@
                                == records[a].name@;
                        let k2 = if k < pos {
                            k
                        } else {
                            k + 1
                        };
                        assert(after[k2] == before[k]);
                    } else {
                        assert(after[pos as int].1.name@ == name);
                    }
                }
            }
        } else {
            proof {
                let k = found.unwrap() as int;
                assert(nodes[k].1.name@ == records[i as int].name@);
                assert(has_node(nodes@, records[i as int].name@));
            }
        }
        i += 1;
    }
    nodes
}

/// Builds the nodes of the records: one node for each name, which has the
/// number of the first record of that name and, for each neighbour that a
/// record of that name lists, a street to it of the length listed last. The
/// nodes come in the order of their numbers.
///
/// Fails where a length is missing or negative, and names the first such.
pub fn build_map(intersections: &Vec<Intersection>) -> (result: Result<
    Vec<(usize, Node)>,
    ParseError,
>)
    ensures
        match result {
            Ok(nodes) => lengths_valid(intersections@) && is_graph_of(nodes@, intersections@)
                && nodes.len() <= intersections.len(),
            Err(e) => exists|i: int, j: int|
                #[trigger] is_first_bad(intersections@, i, j) && e.name@ == intersections[i].name@
                    && e.neighbour@ == intersections[i].neighbours[j].0@,
        },
{
    match find_bad_length(intersections) {
        Some((i, j)) => {
            proof {
                assert(is_first_bad(intersections@, i as int, j as int));
            }
            return Err(
                ParseError {
                    name: intersections[i].name.clone(),
                    neighbour: intersections[i].neighbours[j].0.clone(),
                },
            );
        },
        None => {},
    }
    let mut nodes = build_nodes(intersections);
    let ghost records = intersections@;
    let ghost skeleton = nodes@;
    let mut i: usize = 0;
    while i < intersections.len()
        invariant
            i <= intersections.len(),
            records == intersections@,
            lengths_valid(records),
            skeleton_of(skeleton, records, records.len() as int),
            same_skeleton(skeleton, nodes@),
            skeleton.len() <= records.len(),
            forall|k: int| 0 <= k < nodes.len() ==> edges_wf((#[trigger] nodes[k]).1.edges@, nodes[k].1.name@),
            forall|k: int|
                0 <= k < nodes.len() ==> edge_map((#[trigger] nodes[k]).1.edges@) == edge_lengths(
                    records.take(i as int),
                    nodes[k].1.name@,
                ),
        decreases intersections.len() - i,
    {
        let found = find_node(&nodes, &intersections[i].name);
        proof {
            assert(has_node(skeleton, records[i as int].name@));
            let w = choose|k: int| 0 <= k < skeleton.len() && (#[trigger] skeleton[k]).1.name@ == records[i as int].name@;
            assert(nodes[w].1.name@ == records[i as int].name@);
            assert(records.take(i + 1).drop_last() =~= records.take(i as int));
        }
        match found {
            None => {},
            Some(k) => {
                let ghost name = records[i as int].name@;
                let ghost nb = records[i as int].neighbours@;
                let ghost base = edge_lengths(records.take(i as int), name);
                let mut j: usize = 0;
                while j < intersections[i].neighbours.len()
                    invariant
                        i < intersections.len(),
                        k < nodes.len(),
                        j <= intersections[i as int].neighbours.len(),
                        records == intersections@,
                        lengths_valid(records),
                        name == records[i as int].name@,
                        nb == records[i as int].neighbours@,
                        base == edge_lengths(records.take(i as int), name),
                        nodes[k as int].1.name@ == name,
                        same_skeleton(skeleton, nodes@),
                        forall|a: int|
                            0 <= a < nodes.len() ==> edges_wf(
                                (#[trigger] nodes[a]).1.edges@,
                                nodes[a].1.name@,
                            ),
                        forall|a: int|
                            0 <= a < nodes.len() && a != k ==> edge_map(
                                (#[trigger] nodes[a]).1.edges@,
                            ) == edge_lengths(records.take(i as int), nodes[a].1.name@),
                        edge_map(nodes[k as int].1.edges@) == add_neighbours(base, nb.take(j as int)),
                    decreases intersections[i as int].neighbours.len() - j,
                {
                    proof {
                        assert(!bad_length(records, i as int, j as int));
                        assert(nb.take(j + 1).drop_last() =~= nb.take(j as int));
                    }
                    let length = intersections[i].neighbours[j].1.unwrap();
                    let edge = Edge {
                        from: intersections[i].name.clone(),
                        to: intersections[i].neighbours[j].0.clone(),
                        length,
                    };
                    let ghost before = nodes@;
                    upsert(&mut nodes[k].1.edges, edge);
                    proof {
                        assert forall|a: int| 0 <= a < nodes.len() && a != k implies #[trigger] nodes[a]
                            == before[a] by {}
                    }
                    j += 1;
                }
                proof {
                    assert(nb.take(nb.len() as int) =~= nb);
                }
            },
        }
        proof {
            assert forall|a: int| 0 <= a < nodes.len() implies edge_map(
                (#[trigger] nodes[a]).1.edges@,
            ) == edge_lengths(records.take(i + 1), nodes[a].1.name@) by {
                if nodes[a].1.name@ == records[i as int].name@ {
                    assert(found is Some);
                    let k = found.unwrap() as int;
                    if a != k {
                        let lo = if a < k { a } else { k };
                        let hi = if a < k { k } else { a };
                        assert(skeleton[lo].1.name@ != skeleton[hi].1.name@);
                    }
                }
            }
        }
        i += 1;
    }
    proof {
        assert(records.take(records.len() as int) =~= records);
        lemma_same_skeleton(skeleton, nodes@, records, records.len() as int);
    }
    Ok(nodes)
}

} // verus!
