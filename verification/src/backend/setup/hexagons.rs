use vstd::prelude::*;
use crate::backend::setup::shape::{
    hex_adjacency, hex_neighbors, hex_tile_nodes, hex_tiles, lemma_node_count_is_ring_sum,
    lemma_tile_count_is_ring_sum, node_count, node_ring_count, ring_len, ring_start, tile_count,
    tile_ring_len, tile_ring_start, tile_rows_before,
};
use crate::backend::setup::topology::{
    is_node, lemma_coords_of, lemma_divide, lemma_even_row, lemma_odd_row, lemma_odd_start,
    lemma_place, lemma_row_at, names,
};

verus! {

/// Whether the six corners of a tile go round a hexagon of the graph: every
/// corner names the next one as a neighbour, and the last names the first.
pub open spec fn is_hexagon_of(table: Seq<Seq<Option<int>>>, corners: Seq<int>) -> bool {
    &&& corners.len() == 6
    &&& forall|c: int| 0 <= c < 6 ==> names(table, #[trigger] corners[c], corners[(c + 1) % 6])
}

/// Whether the corners are six different nodes.
pub open spec fn six_different(corners: Seq<int>) -> bool {
    &&& corners.len() == 6
    &&& corners[0] != corners[1] && corners[0] != corners[2] && corners[0] != corners[3]
    &&& corners[0] != corners[4] && corners[0] != corners[5] && corners[1] != corners[2]
    &&& corners[1] != corners[3] && corners[1] != corners[4] && corners[1] != corners[5]
    &&& corners[2] != corners[3] && corners[2] != corners[4] && corners[2] != corners[5]
    &&& corners[3] != corners[4] && corners[3] != corners[5] && corners[4] != corners[5]
}

/// The corners of a tile are six different nodes.
pub proof fn lemma_tile_corners_differ(j: int, t: int)
    requires
        0 <= j,
        0 <= t < tile_ring_len(j),
    ensures
        six_different(hex_tile_nodes(j, t)),
{
    if j >= 2 {
        lemma_rings_around(j + 1, j);
        let corners = (t + j - 1) / j;
        assert(0 <= corners <= 6 && (t % j != 0 ==> 1 <= corners <= t)) by (nonlinear_arith)
            requires
                corners == (t + j - 1) / j,
                0 <= t < 6 * j,
                j >= 2,
        ;
    }
}

/// The node at position `p` of ring `k` names the node that entry `c` of
/// its row holds.
proof fn lemma_entry_names(rings: int, k: int, p: int, c: int, target: int)
    requires
        is_node(rings, k, p),
        0 <= c < hex_neighbors(rings, k, p).len(),
        hex_neighbors(rings, k, p)[c] == Some(target),
    ensures
        names(hex_adjacency(rings), ring_start(k) + p, target),
{
    lemma_row_at(rings, node_ring_count(rings), k, p);
}

/// The four rings of nodes around tile ring `j >= 2`: their lengths, and
/// that they are rings of a board with more than `j` rings of tiles.
proof fn lemma_rings_around(rings: int, j: int)
    requires
        2 <= j < rings,
    ensures
        ring_len(2 * j - 3) == 6 * (j - 1),
        ring_len(2 * j - 2) == 6 * j,
        ring_len(2 * j - 1) == 6 * j,
        ring_len(2 * j) == 6 * (j + 1),
        2 * j < node_ring_count(rings),
        (2 * j - 3) % 2 == 1,
        (2 * j - 1) % 2 == 1,
        (2 * j - 2) % 2 == 0,
        (2 * j) % 2 == 0,
        (2 * j - 2) / 2 == j - 1,
        (2 * j) / 2 == j,
        (2 * j - 3 + 1) / 2 == j - 1,
        (2 * j - 1 + 1) / 2 == j,
        ring_start(2 * j - 2) == ring_start(2 * j - 3) + 6 * (j - 1),
        ring_start(2 * j - 1) == ring_start(2 * j - 2) + 6 * j,
        ring_start(2 * j) == ring_start(2 * j - 1) + 6 * j,
{
}

/// The tile at a corner of tile ring `j >= 2`, at position `t = c·j`, goes
/// round a hexagon of the graph.
proof fn lemma_corner_tile(rings: int, j: int, t: int)
    requires
        2 <= j < rings,
        0 <= t < 6 * j,
        t % j == 0,
    ensures
        is_hexagon_of(hex_adjacency(rings), hex_tile_nodes(j, t)),
{
    lemma_rings_around(rings, j);
    let (c, r, cj) = lemma_place(t, j);
    assert(r == 0 && cj == t);
    lemma_divide(t + j - 1, j, c, j - 1);
    let second = ring_start(2 * j - 2);
    let third = ring_start(2 * j - 1);
    let fourth = ring_start(2 * j);
    let s = second + t;
    let th = third + t;
    let q = fourth + t + c;
    let tile = hex_tile_nodes(j, t);
    assert(tile =~= seq![s + 1, th + 1, q + 1, q, th, s]);
    let table = hex_adjacency(rings);
    assert(names(table, s + 1, th + 1)) by {
        lemma_even_row(rings, 2 * j - 2, c, 1, cj - c);
        lemma_entry_names(rings, 2 * j - 2, t + 1, 2, th + 1);
    }
    assert(names(table, th + 1, q + 1)) by {
        lemma_odd_row(rings, 2 * j - 1, c, 1, cj);
        lemma_entry_names(rings, 2 * j - 1, t + 1, 1, q + 1);
    }
    assert(names(table, q + 1, q)) by {
        lemma_even_row(rings, 2 * j, c, 1, cj);
        lemma_entry_names(rings, 2 * j, t + c + 1, 0, q);
    }
    assert(names(table, q, th)) by {
        lemma_even_row(rings, 2 * j, c, 0, cj);
        lemma_entry_names(rings, 2 * j, t + c, 0, th);
    }
    assert(names(table, th, s)) by {
        if t == 0 {
            lemma_odd_start(rings, 2 * j - 1);
        } else {
            lemma_odd_row(rings, 2 * j - 1, c, 0, cj);
        }
        lemma_entry_names(rings, 2 * j - 1, t, 0, s);
    }
    assert(names(table, s, s + 1)) by {
        lemma_even_row(rings, 2 * j - 2, c, 0, cj - c);
        lemma_entry_names(rings, 2 * j - 2, t, 1, s + 1);
    }
    assert forall|i: int| 0 <= i < 6 implies names(table, #[trigger] tile[i], tile[(i + 1) % 6]) by {
        if i == 0 {
        } else if i == 1 {
        } else if i == 2 {
        } else if i == 3 {
        } else if i == 4 {
        } else {
        }
    }
}

/// A tile along a side of tile ring `j >= 2`, at a position that is no
/// multiple of `j` and not the last of the ring, goes round a hexagon of
/// the graph.
proof fn lemma_side_tile(rings: int, j: int, t: int)
    requires
        2 <= j < rings,
        0 <= t < 6 * j,
        t % j != 0,
        t + 1 != 6 * j,
    ensures
        is_hexagon_of(hex_adjacency(rings), hex_tile_nodes(j, t)),
{
    lemma_rings_around(rings, j);
    let (c, r, cj) = lemma_place(t, j);
    assert(1 <= r < j);
    lemma_divide(t + j - 1, j, c + 1, r - 1);
    let first = ring_start(2 * j - 3);
    let second = ring_start(2 * j - 2);
    let third = ring_start(2 * j - 1);
    let fourth = ring_start(2 * j);
    let f = first + t - (c + 1);
    let s = second + t;
    let th = third + t;
    let q = fourth + t + (c + 1);
    let tile = hex_tile_nodes(j, t);
    assert(tile =~= seq![f + 1, s + 1, th + 1, q, th, s]);
    let table = hex_adjacency(rings);
    let last_on_side = r == j - 1;
    assert(c <= 4 || !last_on_side);
    assert(names(table, f + 1, s + 1)) by {
        if last_on_side {
            lemma_odd_row(rings, 2 * j - 3, c + 1, 0, cj - c + (j - 1));
        } else {
            lemma_odd_row(rings, 2 * j - 3, c, r, cj - c);
        }
        lemma_entry_names(rings, 2 * j - 3, t - c, 2, s + 1);
    }
    assert(names(table, s + 1, th + 1)) by {
        if last_on_side {
            lemma_even_row(rings, 2 * j - 2, c + 1, 0, cj - c + (j - 1));
        } else {
            lemma_even_row(rings, 2 * j - 2, c, r + 1, cj - c);
        }
        lemma_entry_names(rings, 2 * j - 2, t + 1, 2, th + 1);
    }
    assert(names(table, th + 1, q)) by {
        if last_on_side {
            lemma_odd_row(rings, 2 * j - 1, c + 1, 0, cj + j);
        } else {
            lemma_odd_row(rings, 2 * j - 1, c, r + 1, cj);
        }
        lemma_entry_names(rings, 2 * j - 1, t + 1, 1, q);
    }
    assert(names(table, q, th)) by {
        lemma_even_row(rings, 2 * j, c, r + 1, cj);
        lemma_entry_names(rings, 2 * j, t + c + 1, 0, th);
    }
    assert(names(table, th, s)) by {
        lemma_odd_row(rings, 2 * j - 1, c, r, cj);
        lemma_entry_names(rings, 2 * j - 1, t, 0, s);
    }
    assert(names(table, s, f + 1)) by {
        lemma_even_row(rings, 2 * j - 2, c, r, cj - c);
        lemma_entry_names(rings, 2 * j - 2, t, 1, f + 1);
    }
    assert forall|i: int| 0 <= i < 6 implies names(table, #[trigger] tile[i], tile[(i + 1) % 6]) by {
        if i == 0 {
        } else if i == 1 {
        } else if i == 2 {
        } else if i == 3 {
        } else if i == 4 {
        } else {
        }
    }
}

/// The last tile of tile ring `j >= 2`, which closes the ring, goes round
/// a hexagon of the graph.
proof fn lemma_closing_tile(rings: int, j: int)
    requires
        2 <= j < rings,
    ensures
        is_hexagon_of(hex_adjacency(rings), hex_tile_nodes(j, 6 * j - 1)),
{
    lemma_rings_around(rings, j);
    let t = 6 * j - 1;
    lemma_divide(t, j, 5, j - 1);
    lemma_divide(t + j - 1, j, 6, j - 2);
    let first = ring_start(2 * j - 3);
    let second = ring_start(2 * j - 2);
    let third = ring_start(2 * j - 1);
    let fourth = ring_start(2 * j);
    let s = second + t;
    let th = third + t;
    let q = fourth + t + 6;
    let tile = hex_tile_nodes(j, t);
    assert(tile =~= seq![first, second, third, q, th, s]);
    let table = hex_adjacency(rings);
    assert(names(table, first, second)) by {
        lemma_odd_start(rings, 2 * j - 3);
        lemma_entry_names(rings, 2 * j - 3, 0, 1, second);
    }
    assert(names(table, second, third)) by {
        lemma_even_row(rings, 2 * j - 2, 0, 0, 0);
        lemma_entry_names(rings, 2 * j - 2, 0, 2, third);
    }
    assert(names(table, third, q)) by {
        lemma_odd_start(rings, 2 * j - 1);
        lemma_entry_names(rings, 2 * j - 1, 0, 2, q);
    }
    assert(names(table, q, th)) by {
        lemma_even_row(rings, 2 * j, 5, j, 5 * j);
        lemma_entry_names(rings, 2 * j, 6 * j + 5, 0, th);
    }
    assert(names(table, th, s)) by {
        lemma_odd_row(rings, 2 * j - 1, 5, j - 1, 5 * j);
        lemma_entry_names(rings, 2 * j - 1, t, 0, s);
    }
    assert(names(table, s, first)) by {
        lemma_even_row(rings, 2 * j - 2, 5, j - 1, 5 * (j - 1));
        lemma_entry_names(rings, 2 * j - 2, t, 1, first);
    }
    assert forall|i: int| 0 <= i < 6 implies names(table, #[trigger] tile[i], tile[(i + 1) % 6]) by {
        if i == 0 {
        } else if i == 1 {
        } else if i == 2 {
        } else if i == 3 {
        } else if i == 4 {
        } else {
        }
    }
}

/// The tile in the middle of the board goes round the innermost ring of
/// nodes.
proof fn lemma_middle_tile(rings: int)
    requires
        1 <= rings,
    ensures
        is_hexagon_of(hex_adjacency(rings), hex_tile_nodes(0, 0)),
{
    let tile = hex_tile_nodes(0, 0);
    let table = hex_adjacency(rings);
    assert forall|i: int| 0 <= i < 6 implies names(table, #[trigger] tile[i], tile[(i + 1) % 6]) by {
        assert(hex_neighbors(rings, 0, i)[1] == Some((i + 1) % 6));
        lemma_entry_names(rings, 0, i, 1, (i + 1) % 6);
    }
}

/// A tile of the first ring of tiles goes round a hexagon of the graph.
proof fn lemma_first_ring_tile(rings: int, t: int)
    requires
        2 <= rings,
        0 <= t < 6,
    ensures
        is_hexagon_of(hex_adjacency(rings), hex_tile_nodes(1, t)),
{
    let tile = hex_tile_nodes(1, t);
    let table = hex_adjacency(rings);
    assert(ring_start(1) == 6 && ring_start(2) == 12 && ring_start(3) == 24) by {
        reveal_with_fuel(ring_start, 5);
    }
    if t != 5 {
        assert(tile =~= seq![t + 1, 7 + t, 13 + 2 * t, 12 + 2 * t, 6 + t, t]);
        assert(names(table, t + 1, 7 + t)) by {
            lemma_entry_names(rings, 0, t + 1, 2, 7 + t);
        }
        assert(names(table, 7 + t, 13 + 2 * t)) by {
            lemma_odd_row(rings, 1, t + 1, 0, t + 1);
            lemma_entry_names(rings, 1, t + 1, 1, 13 + 2 * t);
        }
        assert(names(table, 13 + 2 * t, 12 + 2 * t)) by {
            lemma_even_row(rings, 2, t, 1, t);
            lemma_entry_names(rings, 2, 2 * t + 1, 0, 12 + 2 * t);
        }
        assert(names(table, 12 + 2 * t, 6 + t)) by {
            lemma_even_row(rings, 2, t, 0, t);
            lemma_entry_names(rings, 2, 2 * t, 0, 6 + t);
        }
        assert(names(table, 6 + t, t)) by {
            if t == 0 {
                lemma_odd_start(rings, 1);
            } else {
                lemma_odd_row(rings, 1, t, 0, t);
            }
            lemma_entry_names(rings, 1, t, 0, t);
        }
        assert(names(table, t, t + 1)) by {
            assert(hex_neighbors(rings, 0, t)[1] == Some((t + 1) % 6));
            lemma_entry_names(rings, 0, t, 1, t + 1);
        }
    } else {
        assert(tile =~= seq![6int, 0int, 5int, 11int, 22int, 23int]);
        assert(names(table, 6, 0)) by {
            lemma_odd_start(rings, 1);
            lemma_entry_names(rings, 1, 0, 0, 0);
        }
        assert(names(table, 0, 5)) by {
            assert(hex_neighbors(rings, 0, 0)[0] == Some(5int));
            lemma_entry_names(rings, 0, 0, 0, 5);
        }
        assert(names(table, 5, 11)) by {
            lemma_entry_names(rings, 0, 5, 2, 11);
        }
        assert(names(table, 11, 22)) by {
            lemma_odd_row(rings, 1, 5, 0, 5);
            lemma_entry_names(rings, 1, 5, 2, 22);
        }
        assert(names(table, 22, 23)) by {
            lemma_even_row(rings, 2, 5, 0, 5);
            lemma_entry_names(rings, 2, 10, 1, 23);
        }
        assert(names(table, 23, 6)) by {
            lemma_even_row(rings, 2, 5, 1, 5);
            lemma_entry_names(rings, 2, 11, 1, 6);
        }
    }
    assert forall|i: int| 0 <= i < 6 implies names(table, #[trigger] tile[i], tile[(i + 1) % 6]) by {
        if i == 0 {
        } else if i == 1 {
        } else if i == 2 {
        } else if i == 3 {
        } else if i == 4 {
        } else {
        }
    }
}

/// The tile at position `t` of tile ring `j` goes round a hexagon of the
/// graph.
pub proof fn lemma_tile_is_hexagon(rings: int, j: int, t: int)
    requires
        0 <= j < rings,
        0 <= t < tile_ring_len(j),
    ensures
        is_hexagon_of(hex_adjacency(rings), hex_tile_nodes(j, t)),
{
    if j == 0 {
        lemma_middle_tile(rings);
    } else if j == 1 {
        lemma_first_ring_tile(rings, t);
    } else if t + 1 == 6 * j {
        lemma_closing_tile(rings, j);
    } else if t % j == 0 {
        lemma_corner_tile(rings, j, t);
    } else {
        lemma_side_tile(rings, j, t);
    }
}

/// The rows of the tile rings before ring `j` are as many as the tiles of
/// those rings.
proof fn lemma_tile_rows_len(j: int)
    requires
        0 <= j,
    ensures
        tile_rows_before(j).len() == tile_ring_start(j),
    decreases j,
{
    if j > 0 {
        lemma_tile_rows_len(j - 1);
    }
}

/// The ring and the position in the ring of the tile with id `tile`, and
/// the row of the tile in the table.
proof fn lemma_tile_coords(rings: int, tile: int) -> (jt: (int, int))
    requires
        0 <= tile < tile_ring_start(rings),
    ensures
        0 <= jt.0 < rings,
        0 <= jt.1 < tile_ring_len(jt.0),
        tile_rows_before(rings)[tile] == hex_tile_nodes(jt.0, jt.1),
    decreases rings,
{
    lemma_tile_rows_len(rings);
    if rings <= 0 {
        (0, 0)
    } else {
        lemma_tile_rows_len(rings - 1);
        if tile >= tile_ring_start(rings - 1) {
            (rings - 1, tile - tile_ring_start(rings - 1))
        } else {
            lemma_tile_coords(rings - 1, tile)
        }
    }
}

/// Every tile of a hexagonal board goes round a hexagon of the board's
/// graph: its six corners are different nodes of which each names the next
/// as a neighbour, and the last names the first.
pub proof fn lemma_hex_tiles_are_hexagons(rings: int, tile: int)
    requires
        1 <= rings,
        0 <= tile < tile_count(rings),
    ensures
        is_hexagon_of(hex_adjacency(rings), hex_tiles(rings)[tile]),
        six_different(hex_tiles(rings)[tile]),
{
    lemma_tile_count_is_ring_sum(rings);
    let (j, t) = lemma_tile_coords(rings, tile);
    lemma_tile_is_hexagon(rings, j, t);
    lemma_tile_corners_differ(j, t);
}

/// Whether node `id` lies in node ring `k`.
pub open spec fn in_ring(k: int, id: int) -> bool {
    ring_start(k) <= id < ring_start(k + 1)
}

/// Whether the nodes of `walk` follow one another along edges of the
/// graph: each names the next as a neighbour.
pub open spec fn is_walk(table: Seq<Seq<Option<int>>>, walk: Seq<int>) -> bool {
    forall|i: int| 0 <= i < walk.len() - 1 ==> names(table, #[trigger] walk[i], walk[i + 1])
}

/// Every node outside the innermost ring has a neighbour in the ring
/// inside its own.
pub proof fn lemma_node_leads_inward(rings: int, k: int, p: int) -> (inner: int)
    requires
        is_node(rings, k, p),
        k >= 1,
    ensures
        in_ring(k - 1, inner),
        names(hex_adjacency(rings), ring_start(k) + p, inner),
{
    let inward = ring_start(k - 1);
    assert(ring_start(k) == inward + ring_len(k - 1));
    if k % 2 == 1 {
        assert(ring_len(k - 1) == ring_len(k));
        if p == 0 {
            lemma_odd_start(rings, k);
        } else {
            let h = (k + 1) / 2;
            let (q, u, qh) = lemma_place(p, h);
            lemma_odd_row(rings, k, q, u, qh);
        }
        lemma_entry_names(rings, k, p, 0, inward + p);
        inward + p
    } else {
        let m = 1 + k / 2;
        assert(ring_len(k) == 6 * m);
        assert(ring_len(k - 1) == 6 * (m - 1));
        let (s, t, sm) = lemma_place(p, m);
        lemma_even_row(rings, k, s, t, sm - s);
        if t == 0 {
            lemma_entry_names(rings, k, p, 0, inward + (sm - s));
            inward + (sm - s)
        } else if p + 1 == 6 * m {
            lemma_entry_names(rings, k, p, 1, inward);
            inward
        } else {
            lemma_entry_names(rings, k, p, 1, inward + (sm - s) + t);
            inward + (sm - s) + t
        }
    }
}

/// From every node of the innermost ring a walk leads to node 0.
proof fn lemma_walk_round_center(rings: int, p: int) -> (walk: Seq<int>)
    requires
        1 <= rings,
        0 <= p < 6,
    ensures
        walk.len() >= 1,
        walk[0] == p,
        walk.last() == 0,
        is_walk(hex_adjacency(rings), walk),
    decreases p,
{
    if p == 0 {
        seq![0int]
    } else {
        let rest = lemma_walk_round_center(rings, p - 1);
        let walk = seq![p] + rest;
        assert(hex_neighbors(rings, 0, p)[0] == Some((p + 5) % 6));
        lemma_entry_names(rings, 0, p, 0, p - 1);
        assert forall|i: int| 0 <= i < walk.len() - 1 implies names(
            hex_adjacency(rings),
            #[trigger] walk[i],
            walk[i + 1],
        ) by {
            if i > 0 {
                assert(walk[i] == rest[i - 1] && walk[i + 1] == rest[i]);
            }
        }
        walk
    }
}

/// From every node of ring `k` a walk leads to node 0.
proof fn lemma_walk_inward(rings: int, k: int, p: int) -> (walk: Seq<int>)
    requires
        is_node(rings, k, p),
        1 <= rings,
    ensures
        walk.len() >= 1,
        walk[0] == ring_start(k) + p,
        walk.last() == 0,
        is_walk(hex_adjacency(rings), walk),
    decreases k,
{
    if k == 0 {
        lemma_walk_round_center(rings, p)
    } else {
        let inner = lemma_node_leads_inward(rings, k, p);
        let rest = lemma_walk_inward(rings, k - 1, inner - ring_start(k - 1));
        let walk = seq![ring_start(k) + p] + rest;
        assert forall|i: int| 0 <= i < walk.len() - 1 implies names(
            hex_adjacency(rings),
            #[trigger] walk[i],
            walk[i + 1],
        ) by {
            if i > 0 {
                assert(walk[i] == rest[i - 1] && walk[i + 1] == rest[i]);
            }
        }
        walk
    }
}

/// A hexagonal board is in one piece: from every node a walk along edges of
/// the board leads to node 0. As every edge can be walked both ways, a
/// walk leads from any node to any other.
pub proof fn lemma_hex_board_is_connected(rings: int, id: int) -> (walk: Seq<int>)
    requires
        1 <= rings,
        0 <= id < node_count(rings),
    ensures
        walk.len() >= 1,
        walk[0] == id,
        walk.last() == 0,
        is_walk(hex_adjacency(rings), walk),
{
    lemma_node_count_is_ring_sum(rings);
    let (k, p) = lemma_coords_of(node_ring_count(rings), id);
    lemma_walk_inward(rings, k, p)
}

} // verus!
