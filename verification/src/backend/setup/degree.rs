use vstd::prelude::*;
use vstd::set_lib::lemma_set_disjoint_lens;
use crate::backend::setup::edge::{all_distinct, canonical_edge, is_edge_of};
use crate::backend::setup::shape::{
    adjacency_model, hex_adjacency, hex_neighbors, lemma_node_count_is_ring_sum,
    lemma_ring_start_monotonic, node_count, node_ring_count, pair_model, ring_len, ring_start,
    MAX_TILE_RINGS,
};
use crate::backend::setup::topology::{
    is_simple_graph, lemma_coords_of, lemma_hex_adjacency_is_simple, lemma_row_at, names,
};

verus! {

/// Number of neighbours that the first `count` entries of a row name.
pub open spec fn degree_upto(row: Seq<Option<int>>, count: int) -> nat
    decreases count,
{
    if count <= 0 {
        0
    } else {
        degree_upto(row, count - 1) + if row[count - 1] is Some {
            1nat
        } else {
            0nat
        }
    }
}

/// Number of neighbours that a row names.
pub open spec fn degree(row: Seq<Option<int>>) -> nat {
    degree_upto(row, row.len() as int)
}

/// The sum of the degrees of the first `count` nodes of a table.
pub open spec fn degree_sum(table: Seq<Seq<Option<int>>>, count: int) -> nat
    decreases count,
{
    if count <= 0 {
        0
    } else {
        degree_sum(table, count - 1) + degree(table[count - 1])
    }
}

/// Whether `edge` is an undirected edge of the table: a pair of nodes, the
/// smaller first, of which the first names the second.
pub open spec fn is_edge(table: Seq<Seq<Option<int>>>, edge: (int, int)) -> bool {
    0 <= edge.0 < edge.1 < table.len() && names(table, edge.0, edge.1)
}

/// Whether neighbour `j` of node `i` lies on the side `down`: below the
/// node if `down` holds, above it if not.
pub open spec fn on_side(down: bool, i: int, j: int) -> bool {
    if down {
        j < i
    } else {
        i < j
    }
}

/// The undirected edge between two nodes: the pair with the smaller first.
pub open spec fn edge_between(i: int, j: int) -> (int, int) {
    if i < j {
        (i, j)
    } else {
        (j, i)
    }
}

/// Number of neighbours on one side that the first `count` entries of the
/// row of node `i` name.
pub open spec fn side_count(row: Seq<Option<int>>, down: bool, i: int, count: int) -> nat
    decreases count,
{
    if count <= 0 {
        0
    } else {
        side_count(row, down, i, count - 1) + if row[count - 1] matches Some(j) && on_side(
            down,
            i,
            j,
        ) {
            1nat
        } else {
            0nat
        }
    }
}

/// The edges from node `i` to the neighbours on one side that the first
/// `count` entries of its row name.
pub open spec fn side_edges(row: Seq<Option<int>>, down: bool, i: int, count: int) -> Set<(int, int)>
    decreases count,
{
    if count <= 0 {
        Set::empty()
    } else {
        let before = side_edges(row, down, i, count - 1);
        match row[count - 1] {
            Some(j) => if on_side(down, i, j) {
                before.insert(edge_between(i, j))
            } else {
                before
            },
            None => before,
        }
    }
}

/// The sum over the first `count` nodes of the number of neighbours on one
/// side.
pub open spec fn side_sum(table: Seq<Seq<Option<int>>>, down: bool, count: int) -> nat
    decreases count,
{
    if count <= 0 {
        0
    } else {
        side_sum(table, down, count - 1) + side_count(
            table[count - 1],
            down,
            count - 1,
            table[count - 1].len() as int,
        )
    }
}

/// The edges from the first `count` nodes to their neighbours on one side.
pub open spec fn side_set(table: Seq<Seq<Option<int>>>, down: bool, count: int) -> Set<(int, int)>
    decreases count,
{
    if count <= 0 {
        Set::empty()
    } else {
        side_set(table, down, count - 1).union(
            side_edges(table[count - 1], down, count - 1, table[count - 1].len() as int),
        )
    }
}

/// Whether no entry of a row repeats a neighbour that an earlier entry
/// names.
pub open spec fn row_distinct(row: Seq<Option<int>>) -> bool {
    forall|c: int, d: int|
        0 <= c < d < row.len() && row[c] is Some ==> #[trigger] row[c] != #[trigger] row[d]
}

/// An edge is among the side edges of a row exactly if an entry of the row
/// names its far end on that side.
proof fn lemma_side_edges_member(row: Seq<Option<int>>, down: bool, i: int, count: int, e: (int, int))
    requires
        0 <= count <= row.len(),
    ensures
        side_edges(row, down, i, count).contains(e) <==> exists|c: int|
            0 <= c < count && (#[trigger] row[c]) is Some && on_side(down, i, row[c]->0) && e
                == edge_between(i, row[c]->0),
    decreases count,
{
    if count > 0 {
        lemma_side_edges_member(row, down, i, count - 1, e);
        let last = count - 1;
        if side_edges(row, down, i, count).contains(e) {
            if side_edges(row, down, i, count - 1).contains(e) {
                let c = choose|c: int|
                    0 <= c < count - 1 && (#[trigger] row[c]) is Some && on_side(
                        down,
                        i,
                        row[c]->0,
                    ) && e == edge_between(i, row[c]->0);
                assert(0 <= c < count && row[c] is Some);
            } else {
                assert(row[last] is Some);
            }
        }
        if exists|c: int|
            0 <= c < count && (#[trigger] row[c]) is Some && on_side(down, i, row[c]->0) && e
                == edge_between(i, row[c]->0) {
            let c = choose|c: int|
                0 <= c < count && (#[trigger] row[c]) is Some && on_side(down, i, row[c]->0) && e
                    == edge_between(i, row[c]->0);
            if c < count - 1 {
                assert(row[c] is Some);
            }
        }
    }
}

/// The side edges of a row that names no neighbour twice are as many as the
/// neighbours on that side.
proof fn lemma_side_edges_len(row: Seq<Option<int>>, down: bool, i: int, count: int)
    requires
        0 <= count <= row.len(),
        row_distinct(row),
    ensures
        side_edges(row, down, i, count).finite(),
        side_edges(row, down, i, count).len() == side_count(row, down, i, count),
    decreases count,
{
    if count > 0 {
        lemma_side_edges_len(row, down, i, count - 1);
        let before = side_edges(row, down, i, count - 1);
        let last = count - 1;
        if row[last] is Some && on_side(down, i, row[last]->0) {
            let e = edge_between(i, row[last]->0);
            lemma_side_edges_member(row, down, i, count - 1, e);
            if before.contains(e) {
                let c = choose|c: int|
                    0 <= c < count - 1 && (#[trigger] row[c]) is Some && on_side(
                        down,
                        i,
                        row[c]->0,
                    ) && e == edge_between(i, row[c]->0);
                assert(row[c]->0 == row[last]->0);
                assert(row[c] == row[last]);
                assert(false);
            }
        }
    }
}

/// An edge is among the side edges of a table exactly if an entry of a row
/// names the far end of the edge on that side of the row's node.
proof fn lemma_side_set_member(table: Seq<Seq<Option<int>>>, down: bool, count: int, e: (int, int))
    requires
        0 <= count <= table.len(),
    ensures
        side_set(table, down, count).contains(e) <==> exists|i: int, c: int|
            0 <= i < count && 0 <= c < table[i].len() && (#[trigger] table[i][c]) is Some && on_side(
                down,
                i,
                table[i][c]->0,
            ) && e == edge_between(i, table[i][c]->0),
    decreases count,
{
    if count > 0 {
        lemma_side_set_member(table, down, count - 1, e);
        let last = count - 1;
        lemma_side_edges_member(table[last], down, last, table[last].len() as int, e);
        if side_set(table, down, count).contains(e) {
            if side_set(table, down, count - 1).contains(e) {
                let (i, c) = choose|i: int, c: int|
                    0 <= i < count - 1 && 0 <= c < table[i].len() && (#[trigger] table[i][c])
                        is Some && on_side(down, i, table[i][c]->0) && e == edge_between(
                        i,
                        table[i][c]->0,
                    );
                assert(0 <= i < count && table[i][c] is Some);
            } else {
                let c = choose|c: int|
                    0 <= c < table[last].len() && (#[trigger] table[last][c]) is Some && on_side(
                        down,
                        last,
                        table[last][c]->0,
                    ) && e == edge_between(last, table[last][c]->0);
                assert(0 <= last < count && table[last][c] is Some);
            }
        }
        if exists|i: int, c: int|
            0 <= i < count && 0 <= c < table[i].len() && (#[trigger] table[i][c]) is Some && on_side(
                down,
                i,
                table[i][c]->0,
            ) && e == edge_between(i, table[i][c]->0) {
            let (i, c) = choose|i: int, c: int|
                0 <= i < count && 0 <= c < table[i].len() && (#[trigger] table[i][c]) is Some
                    && on_side(down, i, table[i][c]->0) && e == edge_between(i, table[i][c]->0);
            if i < count - 1 {
                assert(table[i][c] is Some);
                assert(side_set(table, down, count - 1).contains(e));
            } else {
                assert(table[last][c] is Some);
                assert(side_edges(table[last], down, last, table[last].len() as int).contains(e));
            }
        }
    }
}

/// The side edges of a table whose rows name no neighbour twice are as
/// many as the neighbours on that side, summed over the nodes.
proof fn lemma_side_set_len(table: Seq<Seq<Option<int>>>, down: bool, count: int)
    requires
        0 <= count <= table.len(),
        forall|i: int| 0 <= i < table.len() ==> row_distinct(#[trigger] table[i]),
    ensures
        side_set(table, down, count).finite(),
        side_set(table, down, count).len() == side_sum(table, down, count),
    decreases count,
{
    if count > 0 {
        lemma_side_set_len(table, down, count - 1);
        let last = count - 1;
        let before = side_set(table, down, count - 1);
        let row = side_edges(table[last], down, last, table[last].len() as int);
        lemma_side_edges_len(table[last], down, last, table[last].len() as int);
        assert(before.disjoint(row)) by {
            assert forall|e: (int, int)| before.contains(e) implies !row.contains(e) by {
                lemma_side_set_member(table, down, count - 1, e);
                lemma_side_edges_member(table[last], down, last, table[last].len() as int, e);
                if row.contains(e) {
                    let (i, c) = choose|i: int, c: int|
                        0 <= i < count - 1 && 0 <= c < table[i].len() && (#[trigger] table[i][c])
                            is Some && on_side(down, i, table[i][c]->0) && e == edge_between(
                            i,
                            table[i][c]->0,
                        );
                    let d = choose|d: int|
                        0 <= d < table[last].len() && (#[trigger] table[last][d]) is Some && on_side(
                            down,
                            last,
                            table[last][d]->0,
                        ) && e == edge_between(last, table[last][d]->0);
                    assert(false);
                }
            }
        }
        lemma_set_disjoint_lens(before, row);
    }
}

/// The degree of a node that does not name itself is the number of its
/// neighbours below it and above it.
proof fn lemma_degree_splits(row: Seq<Option<int>>, i: int, count: int)
    requires
        0 <= count <= row.len(),
        forall|c: int| 0 <= c < row.len() ==> #[trigger] row[c] != Some(i),
    ensures
        degree_upto(row, count) == side_count(row, true, i, count) + side_count(
            row,
            false,
            i,
            count,
        ),
    decreases count,
{
    if count > 0 {
        lemma_degree_splits(row, i, count - 1);
        assert(row[count - 1] != Some(i));
    }
}

/// The sum of the degrees is the number of neighbours below and above,
/// summed over the nodes.
proof fn lemma_degree_sum_splits(table: Seq<Seq<Option<int>>>, count: int)
    requires
        0 <= count <= table.len(),
        is_simple_graph(table),
    ensures
        degree_sum(table, count) == side_sum(table, true, count) + side_sum(table, false, count),
    decreases count,
{
    if count > 0 {
        lemma_degree_sum_splits(table, count - 1);
        let last = count - 1;
        assert forall|c: int| 0 <= c < table[last].len() implies #[trigger] table[last][c] != Some(
            last,
        ) by {
            if table[last][c] is Some {
                assert(table[last][c]->0 != last);
            }
        }
        lemma_degree_splits(table[last], last, table[last].len() as int);
    }
}

/// In a simple undirected graph the degrees of the nodes add up to twice
/// the number of edges: for any list that holds every undirected edge of
/// the table, and holds it once, the sum of the degrees of all nodes is
/// twice the length of the list.
pub proof fn lemma_degrees_count_edges_twice(table: Seq<Seq<Option<int>>>, edges: Seq<(int, int)>)
    requires
        is_simple_graph(table),
        edges.no_duplicates(),
        forall|e: (int, int)| edges.contains(e) <==> is_edge(table, e),
    ensures
        degree_sum(table, table.len() as int) == 2 * edges.len(),
{
    let n = table.len() as int;
    let down = side_set(table, true, n);
    let up = side_set(table, false, n);
    assert forall|i: int| 0 <= i < table.len() implies row_distinct(#[trigger] table[i]) by {
        assert forall|c: int, d: int|
            0 <= c < d < table[i].len() && table[i][c] is Some implies #[trigger] table[i][c]
                != #[trigger] table[i][d] by {}
    }
    lemma_side_set_len(table, true, n);
    lemma_side_set_len(table, false, n);
    lemma_degree_sum_splits(table, n);
    assert forall|e: (int, int)| edges.to_set().contains(e) <==> up.contains(e) by {
        lemma_side_set_member(table, false, n, e);
        if up.contains(e) {
            let (i, c) = choose|i: int, c: int|
                0 <= i < n && 0 <= c < table[i].len() && (#[trigger] table[i][c]) is Some && on_side(
                    false,
                    i,
                    table[i][c]->0,
                ) && e == edge_between(i, table[i][c]->0);
            assert(table[i][c] == Some(e.1));
            assert(names(table, e.0, e.1));
            assert(is_edge(table, e));
            assert(edges.contains(e));
        }
        if edges.to_set().contains(e) {
            assert(edges.contains(e));
            assert(is_edge(table, e));
            let c = choose|c: int|
                0 <= c < table[e.0].len() && #[trigger] table[e.0][c] == Some(e.1);
            assert(table[e.0][c] is Some);
            assert(e == edge_between(e.0, table[e.0][c]->0));
        }
    }
    assert(edges.to_set() =~= up);
    assert forall|e: (int, int)| down.contains(e) <==> up.contains(e) by {
        lemma_side_set_member(table, false, n, e);
        lemma_side_set_member(table, true, n, e);
        if up.contains(e) {
            let (i, c) = choose|i: int, c: int|
                0 <= i < n && 0 <= c < table[i].len() && (#[trigger] table[i][c]) is Some && on_side(
                    false,
                    i,
                    table[i][c]->0,
                ) && e == edge_between(i, table[i][c]->0);
            let j = table[i][c]->0;
            assert(names(table, j, i));
            let d = choose|d: int| 0 <= d < table[j].len() && #[trigger] table[j][d] == Some(i);
            assert(table[j][d] is Some && on_side(true, j, table[j][d]->0));
            assert(e == edge_between(j, table[j][d]->0));
        }
        if down.contains(e) {
            let (i, c) = choose|i: int, c: int|
                0 <= i < n && 0 <= c < table[i].len() && (#[trigger] table[i][c]) is Some && on_side(
                    true,
                    i,
                    table[i][c]->0,
                ) && e == edge_between(i, table[i][c]->0);
            let j = table[i][c]->0;
            assert(names(table, j, i));
            let d = choose|d: int| 0 <= d < table[j].len() && #[trigger] table[j][d] == Some(i);
            assert(table[j][d] is Some && on_side(false, j, table[j][d]->0));
            assert(e == edge_between(j, table[j][d]->0));
        }
    }
    assert(down =~= up);
    edges.unique_seq_to_set();
}

/// On a hexagonal board the degrees of the nodes add up to twice the number
/// of unique edges: for the adjacency table of the board, and for any list
/// that holds every undirected edge of the table once, as the list of
/// unique edges does, the sum of the degrees of all nodes is twice the
/// length of the list.
pub proof fn lemma_hex_degrees_count_edges_twice(
    rings: int,
    table: Seq<Vec<Option<u32>>>,
    edges: Seq<(u32, u32)>,
)
    requires
        1 <= rings <= MAX_TILE_RINGS,
        adjacency_model(table) == hex_adjacency(rings),
        all_distinct(edges),
        forall|e: (u32, u32)| edges.contains(e) <==> is_edge_of(table, e),
    ensures
        degree_sum(hex_adjacency(rings), node_count(rings)) == 2 * edges.len(),
{
    let model = hex_adjacency(rings);
    let pairs = pair_model(edges);
    lemma_hex_adjacency_is_simple(rings);
    assert(node_count(rings) <= u32::MAX) by (nonlinear_arith)
        requires
            1 <= rings <= 26754,
    ;
    assert(model.len() == table.len());
    assert(pairs.no_duplicates()) by {
        assert forall|a: int, b: int|
            0 <= a < pairs.len() && 0 <= b < pairs.len() && a != b implies pairs[a] != pairs[b] by {
            if a < b {
                assert(edges[a] != edges[b]);
            } else {
                assert(edges[b] != edges[a]);
            }
        }
    }
    assert forall|e: (int, int)| pairs.contains(e) <==> is_edge(model, e) by {
        if pairs.contains(e) {
            let k = choose|k: int| 0 <= k < pairs.len() && pairs[k] == e;
            assert(edges.contains(edges[k]));
            let (i, c) = choose|i: int, c: int|
                0 <= i < table.len() && 0 <= c < table[i]@.len() && (#[trigger] table[i]@[c])
                    is Some && edges[k] == canonical_edge(i as u32, table[i]@[c]->0);
            let j = table[i]@[c]->0 as int;
            assert(model[i][c] == Some(j));
            assert(names(model, i, j));
            assert(names(model, j, i));
        }
        if is_edge(model, e) {
            let c = choose|c: int| 0 <= c < model[e.0].len() && #[trigger] model[e.0][c] == Some(e.1);
            assert(table[e.0]@[c] == Some(e.1 as u32));
            let short = (e.0 as u32, e.1 as u32);
            assert(short == canonical_edge(e.0 as u32, table[e.0]@[c]->0));
            assert(is_edge_of(table, short));
            assert(edges.contains(short));
            let k = choose|k: int| 0 <= k < edges.len() && edges[k] == short;
            assert(pairs[k] == e);
        }
    }
    lemma_degrees_count_edges_twice(model, pairs);
}

/// The number of nodes of a hexagonal board that lie inside its outermost
/// ring of nodes, which holds six nodes for every ring of tiles.
pub open spec fn inner_node_count(rings: int) -> int {
    node_count(rings) - 6 * rings
}

/// The number of edges of a hexagonal board with `rings` rings of tiles.
pub open spec fn edge_count(rings: int) -> int {
    9 * rings * rings - 3 * rings
}

/// On a hexagonal board every node has three neighbours, but for the nodes
/// of the outermost ring, the corners of the board, which have two.
pub proof fn lemma_hex_node_degree(rings: int, i: int)
    requires
        1 <= rings,
        0 <= i < node_count(rings),
    ensures
        degree(hex_adjacency(rings)[i]) == if i < inner_node_count(rings) {
            3nat
        } else {
            2nat
        },
{
    let rows = node_ring_count(rings);
    lemma_node_count_is_ring_sum(rings);
    let (k, p) = lemma_coords_of(rows, i);
    lemma_row_at(rings, rows, k, p);
    let row = hex_neighbors(rings, k, p);
    assert(ring_start(rows) == ring_start(rows - 1) + ring_len(rows - 1));
    assert(ring_len(rows - 1) == 6 * rings);
    assert(ring_start(rows - 1) == inner_node_count(rings));
    if k < rows - 1 {
        lemma_ring_start_monotonic(k, rows - 1);
    }
    assert(row.len() == 3);
    assert(row[0] is Some && row[1] is Some);
    assert(row[2] is Some <==> k < rows - 1);
    reveal_with_fuel(degree_upto, 4);
}

/// The degrees of the first `count` nodes of a hexagonal board add up to
/// three for every inner node and two for every node of the outermost
/// ring.
proof fn lemma_hex_degree_sum_upto(rings: int, count: int)
    requires
        1 <= rings,
        0 <= count <= node_count(rings),
    ensures
        degree_sum(hex_adjacency(rings), count) == if count <= inner_node_count(rings) {
            3 * count
        } else {
            2 * count + inner_node_count(rings)
        },
    decreases count,
{
    assert(inner_node_count(rings) >= 0) by (nonlinear_arith)
        requires
            rings >= 1,
            inner_node_count(rings) == 6 * rings * rings - 6 * rings,
    ;
    if count > 0 {
        lemma_hex_degree_sum_upto(rings, count - 1);
        lemma_hex_node_degree(rings, count - 1);
    }
}

/// On a hexagonal board with `rings` rings of tiles the degrees of the
/// nodes add up to `18·rings² − 6·rings`, twice the number of edges.
pub proof fn lemma_hex_degree_sum(rings: int)
    requires
        1 <= rings,
    ensures
        degree_sum(hex_adjacency(rings), node_count(rings)) == 2 * edge_count(rings),
{
    let squared = rings * rings;
    assert(node_count(rings) == 6 * squared) by (nonlinear_arith)
        requires
            squared == rings * rings,
    ;
    assert(edge_count(rings) == 9 * squared - 3 * rings) by (nonlinear_arith)
        requires
            squared == rings * rings,
    ;
    assert(squared >= rings) by (nonlinear_arith)
        requires
            squared == rings * rings,
            rings >= 1,
    ;
    lemma_hex_degree_sum_upto(rings, node_count(rings));
}

/// A hexagonal board with `rings` rings of tiles has `9·rings² − 3·rings`
/// edges: any list that holds every undirected edge of its adjacency table
/// once, as the list of unique edges does, has that length.
pub proof fn lemma_hex_edge_count(rings: int, table: Seq<Vec<Option<u32>>>, edges: Seq<(u32, u32)>)
    requires
        1 <= rings <= MAX_TILE_RINGS,
        adjacency_model(table) == hex_adjacency(rings),
        all_distinct(edges),
        forall|e: (u32, u32)| edges.contains(e) <==> is_edge_of(table, e),
    ensures
        edges.len() == edge_count(rings),
{
    lemma_hex_degree_sum(rings);
    lemma_hex_degrees_count_edges_twice(rings, table, edges);
}

} // verus!
