use vstd::prelude::*;
use std::collections::HashMap;

verus! {

broadcast use vstd::std_specs::hash::group_hash_axioms;

/// The undirected edge between `a` and `b`: the pair with the smaller id
/// first.
pub open spec fn canonical_edge(a: u32, b: u32) -> (u32, u32) {
    if a < b {
        (a, b)
    } else {
        (b, a)
    }
}

/// Whether `edge` joins some node of `adjacency` to one of its neighbours.
pub open spec fn is_edge_of(adjacency: Seq<Vec<Option<u32>>>, edge: (u32, u32)) -> bool {
    exists|i: int, j: int|
        0 <= i < adjacency.len() && 0 <= j < adjacency[i]@.len() && (
        #[trigger] adjacency[i]@[j]) is Some && edge == canonical_edge(
            i as u32,
            adjacency[i]@[j]->0,
        )
}

/// Whether no element of `s` occurs twice.
pub open spec fn all_distinct<T>(s: Seq<T>) -> bool {
    forall|i: int, j: int| 0 <= i < j < s.len() ==> s[i] != s[j]
}

/// The key under which an edge is filed: its first node in the high half of
/// the number, its second in the low half.
pub open spec fn edge_key(edge: (u32, u32)) -> u64 {
    (edge.0 as u64 * 0x1_0000_0000 + edge.1 as u64) as u64
}

/// Different edges have different keys.
pub proof fn lemma_edge_key_injective(a: (u32, u32), b: (u32, u32))
    requires
        edge_key(a) == edge_key(b),
    ensures
        a == b,
{
    assert(a.0 as u64 * 0x1_0000_0000 + a.1 as u64 <= u64::MAX) by (nonlinear_arith)
        requires
            a.0 <= u32::MAX,
            a.1 <= u32::MAX,
    ;
    assert(b.0 as u64 * 0x1_0000_0000 + b.1 as u64 <= u64::MAX) by (nonlinear_arith)
        requires
            b.0 <= u32::MAX,
            b.1 <= u32::MAX,
    ;
    assert(a.0 == b.0 && a.1 == b.1) by (nonlinear_arith)
        requires
            a.0 * 0x1_0000_0000 + a.1 == b.0 * 0x1_0000_0000 + b.1,
            0 <= a.1 < 0x1_0000_0000,
            0 <= b.1 < 0x1_0000_0000,
            0 <= a.0,
            0 <= b.0,
    ;
}

/// The undirected edge between two nodes, smaller id first.
pub fn make_edge(a: u32, b: u32) -> (edge: (u32, u32))
    ensures
        edge == canonical_edge(a, b),
{
    if a < b {
        (a, b)
    } else {
        (b, a)
    }
}

/// The key of an edge in an edge index.
pub fn make_edge_key(edge: (u32, u32)) -> (key: u64)
    ensures
        key == edge_key(edge),
{
    let high: u64 = edge.0 as u64;
    let low: u64 = edge.1 as u64;
    assert(high * 0x1_0000_0000 + low <= u64::MAX) by (nonlinear_arith)
        requires
            high <= u32::MAX,
            low <= u32::MAX,
    ;
    high * 0x1_0000_0000 + low
}

/// Whether `edges` holds `edge`.
fn contains_edge(edges: &Vec<(u32, u32)>, edge: (u32, u32)) -> (found: bool)
    ensures
        found == edges@.contains(edge),
{
    let mut k: usize = 0;
    while k < edges.len()
        invariant
            k <= edges.len(),
            forall|l: int| 0 <= l < k ==> edges[l] != edge,
        decreases edges.len() - k,
    {
        if edges[k].0 == edge.0 && edges[k].1 == edge.1 {
            return true;
        }
        k = k + 1;
    }
    false
}

/// Whether `edge` joins some node to one of its neighbours, among the
/// entries of `adjacency` that come before entry `j` of row `i`.
pub open spec fn is_edge_before(
    adjacency: Seq<Vec<Option<u32>>>,
    i: int,
    j: int,
    edge: (u32, u32),
) -> bool {
    exists|a: int, b: int|
        0 <= a < adjacency.len() && 0 <= b < adjacency[a]@.len() && (a < i || a == i && b < j) && (
        #[trigger] adjacency[a]@[b]) is Some && edge == canonical_edge(
            a as u32,
            adjacency[a]@[b]->0,
        )
}

/// The undirected edges of an adjacency table, each once, in the order in
/// which the table first names them.
pub fn create_unique_edges(node_adjacency: Vec<Vec<Option<u32>>>) -> (edges: Vec<(u32, u32)>)
    requires
        node_adjacency.len() <= u32::MAX,
    ensures
        all_distinct(edges@),
        forall|e: (u32, u32)| edges@.contains(e) <==> is_edge_of(node_adjacency@, e),
{
    let mut edges: Vec<(u32, u32)> = Vec::new();
    let ghost table = node_adjacency@;
    let mut i: usize = 0;
    while i < node_adjacency.len()
        invariant
            i <= node_adjacency.len() <= u32::MAX,
            table == node_adjacency@,
            all_distinct(edges@),
            forall|e: (u32, u32)| edges@.contains(e) <==> is_edge_before(table, i as int, 0, e),
        decreases node_adjacency.len() - i,
    {
        let neighbors = &node_adjacency[i];
        let mut j: usize = 0;
        while j < neighbors.len()
            invariant
                i < node_adjacency.len() <= u32::MAX,
                table == node_adjacency@,
                neighbors == table[i as int],
                j <= neighbors.len(),
                all_distinct(edges@),
                forall|e: (u32, u32)|
                    edges@.contains(e) <==> is_edge_before(table, i as int, j as int, e),
            decreases neighbors.len() - j,
        {
            let ghost before = edges@;
            assert(forall|e: (u32, u32)|
                before.contains(e) <==> is_edge_before(table, i as int, j as int, e));
            match neighbors[j] {
                Some(neighbor) => {
                    let edge = make_edge(i as u32, neighbor);
                    if !contains_edge(&edges, edge) {
                        edges.push(edge);
                        assert(all_distinct(edges@)) by {
                            assert forall|x: int, y: int| 0 <= x < y < edges@.len() implies edges@[x]
                                != edges@[y] by {
                                if y == before.len() {
                                    assert(before[x] == edges@[x]);
                                    assert(before.contains(edges@[x]));
                                }
                            }
                        }
                        assert forall|e: (u32, u32)| edges@.contains(e) implies before.contains(e)
                            || e == edge by {
                            let k = choose|k: int| 0 <= k < edges@.len() && edges@[k] == e;
                            if k < before.len() {
                                assert(before[k] == e);
                            }
                        }
                        assert forall|e: (u32, u32)| before.contains(e) || e == edge implies edges@
                            .contains(e) by {
                            if before.contains(e) {
                                let k = choose|k: int| 0 <= k < before.len() && before[k] == e;
                                assert(edges@[k] == e);
                            } else {
                                assert(edges@[before.len() as int] == e);
                            }
                        }
                    }
                    assert forall|e: (u32, u32)| edges@.contains(e) implies is_edge_before(
                        table,
                        i as int,
                        j + 1,
                        e,
                    ) by {
                        if before.contains(e) {
                            assert(is_edge_before(table, i as int, j as int, e));
                            let (a, b) = choose|a: int, b: int|
                                0 <= a < table.len() && 0 <= b < table[a]@.len() && (a < i || a == i
                                    && b < j) && (#[trigger] table[a]@[b]) is Some && e
                                    == canonical_edge(a as u32, table[a]@[b]->0);
                            assert(table[a]@[b] is Some);
                        } else {
                            assert(table[i as int]@[j as int] is Some);
                        }
                    }
                    assert forall|e: (u32, u32)|
                        is_edge_before(table, i as int, j + 1, e) implies edges@.contains(e) by {
                        let (a, b) = choose|a: int, b: int|
                            0 <= a < table.len() && 0 <= b < table[a]@.len() && (a < i || a == i && b
                                < j + 1) && (#[trigger] table[a]@[b]) is Some && e == canonical_edge(
                                a as u32,
                                table[a]@[b]->0,
                            );
                        if a == i && b == j {
                            assert(e == edge);
                            assert(edges@.contains(edge));
                        } else {
                            assert(table[a]@[b] is Some);
                            assert(is_edge_before(table, i as int, j as int, e));
                            assert(before.contains(e));
                        }
                    }
                },
                None => {
                    assert forall|e: (u32, u32)| edges@.contains(e) implies is_edge_before(
                        table,
                        i as int,
                        j + 1,
                        e,
                    ) by {
                        assert(is_edge_before(table, i as int, j as int, e));
                        let (a, b) = choose|a: int, b: int|
                            0 <= a < table.len() && 0 <= b < table[a]@.len() && (a < i || a == i && b
                                < j) && (#[trigger] table[a]@[b]) is Some && e == canonical_edge(
                                a as u32,
                                table[a]@[b]->0,
                            );
                        assert(table[a]@[b] is Some);
                    }
                    assert forall|e: (u32, u32)|
                        is_edge_before(table, i as int, j + 1, e) implies edges@.contains(e) by {
                        let (a, b) = choose|a: int, b: int|
                            0 <= a < table.len() && 0 <= b < table[a]@.len() && (a < i || a == i && b
                                < j + 1) && (#[trigger] table[a]@[b]) is Some && e == canonical_edge(
                                a as u32,
                                table[a]@[b]->0,
                            );
                        assert(table[a]@[b] is Some);
                        assert(is_edge_before(table, i as int, j as int, e));
                    }
                },
            }
            j = j + 1;
        }
        proof {
            assert forall|e: (u32, u32)| edges@.contains(e) implies is_edge_before(
                table,
                i + 1,
                0,
                e,
            ) by {
                assert(is_edge_before(table, i as int, j as int, e));
                let (a, b) = choose|a: int, b: int|
                    0 <= a < table.len() && 0 <= b < table[a]@.len() && (a < i || a == i && b < j)
                        && (#[trigger] table[a]@[b]) is Some && e == canonical_edge(
                        a as u32,
                        table[a]@[b]->0,
                    );
                assert(table[a]@[b] is Some);
            }
            assert forall|e: (u32, u32)| is_edge_before(table, i + 1, 0, e) implies edges@.contains(
                e,
            ) by {
                let (a, b) = choose|a: int, b: int|
                    0 <= a < table.len() && 0 <= b < table[a]@.len() && (a < i + 1 || a == i + 1 && b
                        < 0) && (#[trigger] table[a]@[b]) is Some && e == canonical_edge(
                        a as u32,
                        table[a]@[b]->0,
                    );
                assert(table[a]@[b] is Some);
                assert(is_edge_before(table, i as int, j as int, e));
            }
        }
        i = i + 1;
    }
    proof {
        assert forall|e: (u32, u32)| edges@.contains(e) implies is_edge_of(table, e) by {
            assert(is_edge_before(table, i as int, 0, e));
            let (a, b) = choose|a: int, b: int|
                0 <= a < table.len() && 0 <= b < table[a]@.len() && (a < i || a == i && b < 0) && (
                #[trigger] table[a]@[b]) is Some && e == canonical_edge(a as u32, table[a]@[b]->0);
            assert(table[a]@[b] is Some);
        }
        assert forall|e: (u32, u32)| is_edge_of(table, e) implies edges@.contains(e) by {
            let (a, b) = choose|a: int, b: int|
                0 <= a < table.len() && 0 <= b < table[a]@.len() && (#[trigger] table[a]@[b])
                    is Some && e == canonical_edge(a as u32, table[a]@[b]->0);
            assert(table[a]@[b] is Some);
            assert(is_edge_before(table, i as int, 0, e));
        }
    }
    edges
}

/// The number of edges in a list of unique edges.
pub fn count_unique_edges(edges: &Vec<(u32, u32)>) -> (count: usize)
    ensures
        count == edges.len(),
{
    edges.len()
}

/// An index from each edge's key to the edge's place in `edges`. Where an
/// edge stands at several places, the index holds the last of them.
pub fn edge_index_map(edges: &Vec<(u32, u32)>) -> (index: HashMap<u64, usize>)
    ensures
        forall|key: u64|
            index@.contains_key(key) <==> exists|i: int|
                0 <= i < edges.len() && edge_key(#[trigger] edges[i]) == key,
        forall|i: int|
            0 <= i < edges.len() ==> {
                let at = index@[edge_key(#[trigger] edges[i])];
                &&& i <= at < edges.len()
                &&& edges[at as int] == edges[i]
                &&& forall|l: int| at < l < edges.len() ==> edges[l] != edges[i]
            },
{
    let mut index: HashMap<u64, usize> = HashMap::new();
    let mut n: usize = 0;
    while n < edges.len()
        invariant
            n <= edges.len(),
            forall|key: u64|
                index@.contains_key(key) <==> exists|i: int|
                    0 <= i < n && edge_key(#[trigger] edges[i]) == key,
            forall|i: int|
                0 <= i < n ==> {
                    let at = index@[edge_key(#[trigger] edges[i])];
                    &&& i <= at < n
                    &&& edges[at as int] == edges[i]
                    &&& forall|l: int| at < l < n ==> edges[l] != edges[i]
                },
        decreases edges.len() - n,
    {
        let key = make_edge_key(edges[n]);
        let ghost before = index@;
        index.insert(key, n);
        proof {
            assert(index@ == before.insert(key, n));
            assert forall|i: int| 0 <= i < n + 1 implies {
                let at = index@[edge_key(#[trigger] edges[i])];
                &&& i <= at < n + 1
                &&& edges[at as int] == edges[i]
                &&& forall|l: int| at < l < n + 1 ==> edges[l] != edges[i]
            } by {
                if edge_key(edges[i]) == key {
                    lemma_edge_key_injective(edges[i], edges[n as int]);
                } else {
                    let at = before[edge_key(edges[i])];
                    assert forall|l: int| at < l < n + 1 implies edges[l] != edges[i] by {
                        if l == n {
                            if edges[l] == edges[i] {
                                assert(edge_key(edges[l]) == edge_key(edges[i]));
                            }
                        }
                    }
                }
            }
            assert forall|k: u64|
                index@.contains_key(k) <==> exists|i: int|
                    0 <= i < n + 1 && edge_key(#[trigger] edges[i]) == k by {
                if k == key {
                    assert(edge_key(edges[n as int]) == k);
                } else {
                    if index@.contains_key(k) {
                        assert(before.contains_key(k));
                    }
                    if exists|i: int| 0 <= i < n + 1 && edge_key(#[trigger] edges[i]) == k {
                        let i = choose|i: int| 0 <= i < n + 1 && edge_key(#[trigger] edges[i]) == k;
                        assert(i < n);
                    }
                }
            }
        }
        n = n + 1;
    }
    index
}

} // verus!
