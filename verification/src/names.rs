//! The order of node names, and the matrix index that it gives each node.

use vstd::prelude::*;
use vstd::utf8::{encode_utf8, encode_utf8_decode_utf8};
use crate::graph::Node;

verus! {

/// `a` comes before `b` byte by byte, a shorter sequence before its
/// continuations.
pub open spec fn lex_lt(a: Seq<u8>, b: Seq<u8>) -> bool
    decreases a.len(),
{
    if b.len() == 0 {
        false
    } else if a.len() == 0 {
        true
    } else if a[0] != b[0] {
        a[0] < b[0]
    } else {
        lex_lt(a.drop_first(), b.drop_first())
    }
}

/// The name `a` comes before the name `b` in the order of their bytes.
pub open spec fn name_lt(a: Seq<char>, b: Seq<char>) -> bool {
    lex_lt(encode_utf8(a), encode_utf8(b))
}

/// Nothing comes before itself.
pub proof fn lemma_lex_irreflexive(a: Seq<u8>)
    ensures
        !lex_lt(a, a),
    decreases a.len(),
{
    if a.len() > 0 {
        lemma_lex_irreflexive(a.drop_first());
    }
}

/// What comes before something that comes before a third comes before the
/// third.
pub proof fn lemma_lex_transitive(a: Seq<u8>, b: Seq<u8>, c: Seq<u8>)
    requires
        lex_lt(a, b),
        lex_lt(b, c),
    ensures
        lex_lt(a, c),
    decreases a.len(),
{
    if a.len() > 0 && b.len() > 0 && c.len() > 0 {
        if a[0] == b[0] && b[0] == c[0] {
            lemma_lex_transitive(a.drop_first(), b.drop_first(), c.drop_first());
        }
    }
}

/// Of two different sequences one comes before the other.
pub proof fn lemma_lex_total(a: Seq<u8>, b: Seq<u8>)
    requires
        a != b,
    ensures
        lex_lt(a, b) || lex_lt(b, a),
    decreases a.len(),
{
    if a.len() > 0 && b.len() > 0 {
        if a[0] == b[0] {
            if a.drop_first() == b.drop_first() {
                assert(a =~= seq![a[0]] + a.drop_first());
                assert(b =~= seq![b[0]] + b.drop_first());
            }
            lemma_lex_total(a.drop_first(), b.drop_first());
        }
    } else if a.len() == 0 && b.len() == 0 {
        assert(a =~= b);
    }
}

/// Of two different names one comes before the other.
pub proof fn lemma_name_total(a: Seq<char>, b: Seq<char>)
    requires
        a != b,
    ensures
        name_lt(a, b) || name_lt(b, a),
{
    encode_utf8_decode_utf8(a);
    encode_utf8_decode_utf8(b);
    lemma_lex_total(encode_utf8(a), encode_utf8(b));
}

/// Whether `a` comes before `b`.
pub fn comes_first(a: &String, b: &String) -> (before: bool)
    ensures
        before == name_lt(a@, b@),
{
    let x = a.as_str().as_bytes();
    let y = b.as_str().as_bytes();
    let mut i: usize = 0;
    assert(x@.skip(0) =~= x@);
    assert(y@.skip(0) =~= y@);
    while i < x.len() && i < y.len()
        invariant
            i <= x.len(),
            i <= y.len(),
            x@ == encode_utf8(a@),
            y@ == encode_utf8(b@),
            lex_lt(x@, y@) == lex_lt(x@.skip(i as int), y@.skip(i as int)),
        decreases x.len() - i,
    {
        proof {
            assert(x@.skip(i as int).drop_first() =~= x@.skip(i + 1));
            assert(y@.skip(i as int).drop_first() =~= y@.skip(i + 1));
        }
        if x[i] != y[i] {
            return x[i] < y[i];
        }
        i += 1;
    }
    x.len() < y.len()
}

/// How many of `names` come before `name`.
pub open spec fn count_before(names: Seq<Seq<char>>, name: Seq<char>) -> nat
    decreases names.len(),
{
    if names.len() == 0 {
        0
    } else {
        count_before(names.drop_last(), name) + if name_lt(names.last(), name) {
            1nat
        } else {
            0nat
        }
    }
}

/// The names of the nodes, in the order of the nodes.
pub open spec fn names_of(nodes: Seq<(usize, Node)>) -> Seq<Seq<char>> {
    Seq::new(nodes.len(), |k: int| nodes[k].1.name@)
}

/// The row and column of the node `name` in a matrix over the nodes: its
/// place, counted from 1, among the names in their order.
pub open spec fn index_of(nodes: Seq<(usize, Node)>, name: Seq<char>) -> int {
    1 + count_before(names_of(nodes), name) as int
}

/// No more names come before a name than there are, and fewer where the name
/// is among them.
pub proof fn lemma_count_bound(names: Seq<Seq<char>>, name: Seq<char>)
    ensures
        count_before(names, name) <= names.len(),
        (exists|k: int| 0 <= k < names.len() && names[k] == name) ==> count_before(names, name)
            < names.len(),
    decreases names.len(),
{
    if names.len() > 0 {
        lemma_count_bound(names.drop_last(), name);
        if exists|k: int| 0 <= k < names.len() && names[k] == name {
            let k = choose|k: int| 0 <= k < names.len() && names[k] == name;
            if k == names.len() - 1 {
                lemma_lex_irreflexive(encode_utf8(name));
            } else {
                assert(names.drop_last()[k] == name);
            }
        }
    }
}

/// No fewer names come before the later of two names than before the
/// earlier.
pub proof fn lemma_count_le(names: Seq<Seq<char>>, x: Seq<char>, y: Seq<char>)
    requires
        name_lt(x, y),
    ensures
        count_before(names, x) <= count_before(names, y),
    decreases names.len(),
{
    if names.len() > 0 {
        lemma_count_le(names.drop_last(), x, y);
        if name_lt(names.last(), x) {
            lemma_lex_transitive(encode_utf8(names.last()), encode_utf8(x), encode_utf8(y));
        }
    }
}

/// More names come before the later of two names than before the earlier,
/// where the earlier is among them.
pub proof fn lemma_count_lt(names: Seq<Seq<char>>, x: Seq<char>, y: Seq<char>, k: int)
    requires
        name_lt(x, y),
        0 <= k < names.len(),
        names[k] == x,
    ensures
        count_before(names, x) < count_before(names, y),
    decreases names.len(),
{
    if k == names.len() - 1 {
        lemma_count_le(names.drop_last(), x, y);
        lemma_lex_irreflexive(encode_utf8(x));
    } else {
        lemma_count_lt(names.drop_last(), x, y, k);
        if name_lt(names.last(), x) {
            lemma_lex_transitive(encode_utf8(names.last()), encode_utf8(x), encode_utf8(y));
        }
    }
}

/// Every node has an index from 1 to the number of nodes.
pub proof fn lemma_index_range(nodes: Seq<(usize, Node)>, k: int)
    requires
        0 <= k < nodes.len(),
    ensures
        1 <= index_of(nodes, nodes[k].1.name@) <= nodes.len(),
{
    assert(names_of(nodes)[k] == nodes[k].1.name@);
    lemma_count_bound(names_of(nodes), nodes[k].1.name@);
}

/// Nodes of different names have different indices: the indices are a
/// bijection between the names and `1..=nodes.len()`.
pub proof fn lemma_index_injective(nodes: Seq<(usize, Node)>, a: int, b: int)
    requires
        0 <= a < nodes.len(),
        0 <= b < nodes.len(),
        nodes[a].1.name@ != nodes[b].1.name@,
    ensures
        index_of(nodes, nodes[a].1.name@) != index_of(nodes, nodes[b].1.name@),
{
    let x = nodes[a].1.name@;
    let y = nodes[b].1.name@;
    let names = names_of(nodes);
    assert(names[a] == x);
    assert(names[b] == y);
    lemma_name_total(x, y);
    if name_lt(x, y) {
        lemma_count_lt(names, x, y, a);
    } else {
        lemma_count_lt(names, y, x, b);
    }
}

/// The index of each node, in the order of the nodes.
pub fn node_indices(nodes: &Vec<(usize, Node)>) -> (indices: Vec<usize>)
    ensures
        indices.len() == nodes.len(),
        forall|k: int|
            0 <= k < nodes.len() ==> #[trigger] indices[k] == index_of(nodes@, nodes[k].1.name@),
        forall|k: int| 0 <= k < nodes.len() ==> 1 <= #[trigger] indices[k] <= nodes.len(),
{
    let size = nodes.len();
    let ghost names = names_of(nodes@);
    let mut indices: Vec<usize> = Vec::new();
    let mut k: usize = 0;
    while k < size
        invariant
            k <= size,
            size == nodes.len(),
            names == names_of(nodes@),
            indices.len() == k,
            forall|a: int|
                0 <= a < k ==> #[trigger] indices[a] == index_of(nodes@, nodes[a].1.name@),
            forall|a: int| 0 <= a < k ==> 1 <= #[trigger] indices[a] <= size,
        decreases size - k,
    {
        let ghost name = nodes[k as int].1.name@;
        let mut count: usize = 0;
        let mut j: usize = 0;
        while j < size
            invariant
                j <= size,
                k < size,
                size == nodes.len(),
                names == names_of(nodes@),
                name == nodes[k as int].1.name@,
                count == count_before(names.take(j as int), name),
                count <= j,
                j > k ==> count < j,
            decreases size - j,
        {
            proof {
                assert(names.take(j + 1).drop_last() =~= names.take(j as int));
                assert(names.take(j + 1).last() == nodes[j as int].1.name@);
                if j == k {
                    lemma_lex_irreflexive(encode_utf8(name));
                }
            }
            if comes_first(&nodes[j].1.name, &nodes[k].1.name) {
                count = count + 1;
            }
            j += 1;
        }
        proof {
            assert(names.take(size as int) =~= names);
        }
        indices.push(count + 1);
        k += 1;
    }
    indices
}

} // verus!
