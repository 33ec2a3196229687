use vstd::prelude::*;

verus! {

/// The shape of the board's tiles.
#[derive(Clone, Copy, Debug, PartialEq, Eq, Structural)]
pub enum TileShape {
    Hexagon,
}

/// The largest number of tile rings whose node count fits in a `u32`.
pub const MAX_TILE_RINGS: u32 = 26754;

/// Number of nodes of a hexagonal board with `rings` rings of tiles.
pub open spec fn node_count(rings: int) -> int {
    6 * rings * rings
}

/// Number of tiles of a hexagonal board with `rings` rings of tiles.
pub open spec fn tile_count(rings: int) -> int {
    1 + 6 * (rings * (rings - 1) / 2)
}

/// Number of rings of nodes around the centre of a board with `rings` rings
/// of tiles.
pub open spec fn node_ring_count(rings: int) -> int {
    2 * rings - 1
}

/// Number of nodes in node ring `k`.
pub open spec fn ring_len(k: int) -> int {
    6 * (1 + k / 2)
}

/// Id of the first node of node ring `k`: the number of nodes in the rings
/// inside it.
pub open spec fn ring_start(k: int) -> int
    decreases k,
{
    if k <= 0 {
        0
    } else {
        ring_start(k - 1) + ring_len(k - 1)
    }
}

/// Number of tiles in tile ring `j`.
pub open spec fn tile_ring_len(j: int) -> int {
    if j <= 0 {
        1
    } else {
        6 * j
    }
}

/// Id of the first tile of tile ring `j`.
pub open spec fn tile_ring_start(j: int) -> int
    decreases j,
{
    if j <= 0 {
        0
    } else {
        tile_ring_start(j - 1) + tile_ring_len(j - 1)
    }
}

/// The neighbours of the node at position `p` of node ring `k`, on a board of
/// `rings` rings of tiles. Ring 0 is the hexagon around the central tile.
/// A node of an odd ring has one neighbour at its own position in the ring
/// inside and two in the ring outside. A node of an even ring has one
/// neighbour at its own position in the ring outside (none on the outermost
/// ring); its other two lie in its own ring or in the ring inside, by its
/// position along the side of the hexagon.
pub open spec fn hex_neighbors(rings: int, k: int, p: int) -> Seq<Option<int>> {
    let here = ring_start(k);
    let inward = ring_start(k - 1);
    let outward = ring_start(k + 1);
    let n = ring_len(k);
    if k == 0 {
        seq![
            Some((p + 5) % 6),
            Some((p + 1) % 6),
            if rings > 1 {
                Some(p + 6)
            } else {
                None
            },
        ]
    } else if k % 2 == 1 {
        if p == 0 {
            seq![Some(inward), Some(outward), Some(outward + ring_len(k + 1) - 1)]
        } else {
            let o = outward + p + (2 * p - 1) / (k + 1);
            seq![Some(inward + p), Some(o), Some(o + 1)]
        }
    } else {
        let side = n / 6;
        let s = p / side;
        let t = p % side;
        let inner = inward + p - s;
        let first = if t == 0 {
            inner
        } else if t == 1 {
            here + p - 1
        } else {
            inner - 1
        };
        let second = if p + 1 == n {
            inward
        } else if t == 0 {
            here + p + 1
        } else {
            inner
        };
        seq![
            Some(first),
            Some(second),
            if k + 2 < 2 * rings {
                Some(outward + p)
            } else {
                None
            },
        ]
    }
}

/// The rows of [`hex_neighbors`] for the first `count` nodes of ring `k`.
pub open spec fn ring_rows(rings: int, k: int, count: int) -> Seq<Seq<Option<int>>> {
    Seq::new(count as nat, |p: int| hex_neighbors(rings, k, p))
}

/// The rows of [`hex_neighbors`] for all nodes of the rings before ring `k`,
/// by node id.
pub open spec fn rows_before(rings: int, k: int) -> Seq<Seq<Option<int>>>
    decreases k,
{
    if k <= 0 {
        Seq::empty()
    } else {
        rows_before(rings, k - 1) + ring_rows(rings, k - 1, ring_len(k - 1))
    }
}

/// The adjacency table of a hexagonal board: for each node id, the node's
/// neighbours.
pub open spec fn hex_adjacency(rings: int) -> Seq<Seq<Option<int>>> {
    rows_before(rings, node_ring_count(rings))
}

/// The six corner nodes of the tile at position `t` of tile ring `j`, in
/// rotational order. Tile ring 0 is the central tile alone.
pub open spec fn hex_tile_nodes(j: int, t: int) -> Seq<int> {
    if j <= 0 {
        seq![0int, 1int, 2int, 3int, 4int, 5int]
    } else if j == 1 {
        if t != 5 {
            seq![t + 1, 7 + t, 13 + 2 * t, 12 + 2 * t, 6 + t, t]
        } else {
            seq![6int, 0int, 5int, 11int, 22int, 23int]
        }
    } else {
        let first = ring_start(2 * j - 3);
        let second = ring_start(2 * j - 2);
        let third = ring_start(2 * j - 1);
        let fourth = ring_start(2 * j);
        let corners = (t + j - 1) / j;
        let f = first + t - corners;
        let s = second + t;
        let th = third + t;
        let q = fourth + t + corners;
        if t % j == 0 {
            seq![s + 1, th + 1, q + 1, q, th, s]
        } else if t + 1 != 6 * j {
            seq![f + 1, s + 1, th + 1, q, th, s]
        } else {
            seq![first, second, third, q, th, s]
        }
    }
}

/// The rows of [`hex_tile_nodes`] for the first `count` tiles of ring `j`.
pub open spec fn tile_ring_rows(j: int, count: int) -> Seq<Seq<int>> {
    Seq::new(count as nat, |t: int| hex_tile_nodes(j, t))
}

/// The rows of [`hex_tile_nodes`] for all tiles of the rings before ring `j`,
/// by tile id.
pub open spec fn tile_rows_before(j: int) -> Seq<Seq<int>>
    decreases j,
{
    if j <= 0 {
        Seq::empty()
    } else {
        tile_rows_before(j - 1) + tile_ring_rows(j - 1, tile_ring_len(j - 1))
    }
}

/// The tile table of a hexagonal board: for each tile id, the tile's corner
/// nodes.
pub open spec fn hex_tiles(rings: int) -> Seq<Seq<int>> {
    tile_rows_before(rings)
}

/// Ring and position of every node, by node id, for `node_rings` rings.
pub open spec fn ring_coords(node_rings: int) -> Seq<(int, int)>
    decreases node_rings,
{
    if node_rings <= 0 {
        Seq::empty()
    } else {
        let k = node_rings - 1;
        ring_coords(k) + Seq::new(ring_len(k) as nat, |p: int| (k, p))
    }
}

/// A node's neighbour list with its ids read as integers.
pub open spec fn neighbor_row_model(row: Seq<Option<u32>>) -> Seq<Option<int>> {
    Seq::new(
        row.len(),
        |j: int|
            match row[j] {
                Some(n) => Some(n as int),
                None => None,
            },
    )
}

/// A list of node ids read as integers.
pub open spec fn id_row_model(row: Seq<u32>) -> Seq<int> {
    Seq::new(row.len(), |j: int| row[j] as int)
}

/// An adjacency table with its ids read as integers.
pub open spec fn adjacency_model(table: Seq<Vec<Option<u32>>>) -> Seq<Seq<Option<int>>> {
    Seq::new(table.len(), |i: int| neighbor_row_model(table[i]@))
}

/// A table of node ids read as integers.
pub open spec fn id_table_model(table: Seq<Vec<u32>>) -> Seq<Seq<int>> {
    Seq::new(table.len(), |i: int| id_row_model(table[i]@))
}

/// A list of pairs read as integers.
pub open spec fn pair_model(pairs: Seq<(u32, u32)>) -> Seq<(int, int)> {
    Seq::new(pairs.len(), |i: int| (pairs[i].0 as int, pairs[i].1 as int))
}

/// Rings start where the closed forms say: an even ring `2a` at `6a(a+1)`,
/// an odd ring `2a+1` at `6(a+1)²`.
pub proof fn lemma_ring_start_closed_form(k: int)
    requires
        k >= 0,
    ensures
        k % 2 == 0 ==> ring_start(k) == 6 * (k / 2) * (k / 2 + 1),
        k % 2 == 1 ==> ring_start(k) == 6 * (k / 2 + 1) * (k / 2 + 1),
    decreases k,
{
    if k > 0 {
        lemma_ring_start_closed_form(k - 1);
        let a = k / 2;
        if k % 2 == 0 {
            assert((k - 1) / 2 == a - 1);
            assert(6 * a * a + 6 * a == 6 * a * (a + 1)) by (nonlinear_arith);
            assert(6 * (a - 1 + 1) * (a - 1 + 1) == 6 * a * a) by (nonlinear_arith);
        } else {
            assert((k - 1) / 2 == a);
            assert(6 * a * (a + 1) + 6 * (1 + a) == 6 * (a + 1) * (a + 1)) by (nonlinear_arith);
        }
    }
}

/// Rings are laid out one after another.
pub proof fn lemma_ring_start_monotonic(i: int, k: int)
    requires
        0 <= i <= k,
    ensures
        ring_start(i) <= ring_start(k),
        i < k ==> ring_start(i) + ring_len(i) <= ring_start(k),
    decreases k,
{
    if i < k {
        lemma_ring_start_monotonic(i, k - 1);
    }
}

/// The node rings of a board with `rings` rings of tiles hold `6·rings²`
/// nodes between them.
pub proof fn lemma_node_count_is_ring_sum(rings: int)
    requires
        rings >= 1,
    ensures
        ring_start(node_ring_count(rings)) == node_count(rings),
{
    let k = node_ring_count(rings);
    lemma_ring_start_closed_form(k);
    assert(k / 2 == rings - 1);
    assert(6 * (rings - 1 + 1) * (rings - 1 + 1) == 6 * rings * rings) by (nonlinear_arith);
}

/// Tile ring `j >= 1` starts at tile `1 + 3j(j-1)`.
pub proof fn lemma_tile_ring_start_closed_form(j: int)
    ensures
        j >= 1 ==> tile_ring_start(j) == 1 + 3 * j * (j - 1),
    decreases j,
{
    if j > 1 {
        lemma_tile_ring_start_closed_form(j - 1);
        assert(1 + 3 * (j - 1) * (j - 2) + 6 * (j - 1) == 1 + 3 * j * (j - 1)) by (nonlinear_arith);
    } else if j == 1 {
        assert(tile_ring_start(0) == 0);
        assert(3 * 1 * (1 - 1) == 0) by (nonlinear_arith);
    }
}

/// The product of two consecutive numbers is even.
proof fn lemma_consecutive_product_even(r: int)
    requires
        r >= 0,
    ensures
        2 * ((r * (r - 1)) / 2) == r * (r - 1),
    decreases r,
{
    if r > 0 {
        lemma_consecutive_product_even(r - 1);
        assert(r * (r - 1) == (r - 1) * (r - 2) + 2 * (r - 1)) by (nonlinear_arith);
    } else {
        assert(r * (r - 1) == 0) by (nonlinear_arith)
            requires
                r == 0,
        ;
    }
}

/// The tile rings of a board with `rings` rings hold `1 + 6·rings(rings-1)/2`
/// tiles between them.
pub proof fn lemma_tile_count_is_ring_sum(rings: int)
    requires
        rings >= 1,
    ensures
        tile_ring_start(rings) == tile_count(rings),
{
    lemma_tile_ring_start_closed_form(rings);
    lemma_consecutive_product_even(rings);
    let half = (rings * (rings - 1)) / 2;
    assert(3 * rings * (rings - 1) == 3 * (rings * (rings - 1))) by (nonlinear_arith);
    assert(6 * half == 3 * (2 * half));
}

/// Every neighbour that [`hex_neighbors`] names is a node of the board, and
/// none is the node itself.
pub proof fn lemma_hex_neighbors_in_range(rings: int, k: int, p: int)
    requires
        1 <= rings,
        0 <= k < node_ring_count(rings),
        0 <= p < ring_len(k),
    ensures
        hex_neighbors(rings, k, p).len() == 3,
        forall|j: int|
            0 <= j < 3 ==> match #[trigger] hex_neighbors(rings, k, p)[j] {
                Some(n) => 0 <= n < node_count(rings) && n != ring_start(k) + p,
                None => true,
            },
{
    lemma_node_count_is_ring_sum(rings);
    let last = node_ring_count(rings);
    lemma_ring_start_monotonic(k + 1, last);
    lemma_ring_start_monotonic(0, k);
    let row = hex_neighbors(rings, k, p);
    let total = node_count(rings);
    let me = ring_start(k) + p;
    if k == 0 {
        assert(ring_start(1) == 6 && ring_start(2) == 12) by {
            reveal_with_fuel(ring_start, 4);
        }
        if rings > 1 {
            lemma_ring_start_monotonic(2, last);
        }
        assert(row[0] == Some((p + 5) % 6));
        assert(row[1] == Some((p + 1) % 6));
        assert(row[2] == if rings > 1 { Some(p + 6) } else { None });
        assert forall|j: int| 0 <= j < 3 implies match #[trigger] row[j] {
            Some(n) => 0 <= n < total && n != me,
            None => true,
        } by {
            if j == 0 {
            } else if j == 1 {
            } else {
            }
        }
    } else if k % 2 == 1 {
        assert(k + 2 <= last);
        lemma_ring_start_monotonic(k + 2, last);
        lemma_ring_start_monotonic(0, k - 1);
        assert(ring_len(k + 1) == ring_len(k) + 6);
        assert(ring_len(k - 1) == ring_len(k));
        assert(ring_start(k) == ring_start(k - 1) + ring_len(k - 1));
        assert(ring_start(k + 1) == ring_start(k) + ring_len(k));
        assert(ring_start(k + 2) == ring_start(k + 1) + ring_len(k + 1));
        if p > 0 {
            let d = (2 * p - 1) / (k + 1);
            assert(ring_len(k) == 3 * (k + 1));
            assert(0 <= d <= 5) by (nonlinear_arith)
                requires
                    d == (2 * p - 1) / (k + 1),
                    0 <= 2 * p - 1 < 6 * (k + 1),
                    k + 1 > 0,
            ;
            let o = ring_start(k + 1) + p + d;
            assert(row[0] == Some(ring_start(k - 1) + p));
            assert(row[1] == Some(o));
            assert(row[2] == Some(o + 1));
        } else {
            assert(row[0] == Some(ring_start(k - 1)));
            assert(row[1] == Some(ring_start(k + 1)));
            assert(row[2] == Some(ring_start(k + 1) + ring_len(k + 1) - 1));
        }
        assert forall|j: int| 0 <= j < 3 implies match #[trigger] row[j] {
            Some(n) => 0 <= n < total && n != me,
            None => true,
        } by {
            if j == 0 {
            } else if j == 1 {
            } else {
            }
        }
    } else {
        let side = ring_len(k) / 6;
        assert(side == 1 + k / 2);
        assert(side >= 2);
        assert(ring_len(k - 1) == ring_len(k) - 6);
        assert(ring_start(k) == ring_start(k - 1) + ring_len(k - 1));
        assert(ring_start(k + 1) == ring_start(k) + ring_len(k));
        lemma_ring_start_monotonic(0, k - 1);
        let s = p / side;
        let t = p % side;
        assert(0 <= s <= 5 && 0 <= t < side && p == s * side + t) by (nonlinear_arith)
            requires
                s == p / side,
                t == p % side,
                0 <= p < 6 * side,
                side >= 2,
        ;
        assert(s * side - s <= 5 * side - 5) by (nonlinear_arith)
            requires
                0 <= s <= 5,
                side >= 2,
        ;
        assert(s * side >= s) by (nonlinear_arith)
            requires
                0 <= s,
                side >= 2,
        ;
        let inner = ring_start(k - 1) + p - s;
        assert(ring_start(k - 1) <= inner);
        assert(t == 0 ==> inner < ring_start(k));
        assert(p + 1 < ring_len(k) ==> inner < ring_start(k)) by {
            if p + 1 < ring_len(k) {
                if s == 5 {
                } else {
                    assert((s + 1) * side - (s + 1) <= 5 * side - 5) by (nonlinear_arith)
                        requires
                            0 <= s <= 4,
                            side >= 2,
                    ;
                    assert((s + 1) * side == s * side + side) by (nonlinear_arith);
                }
            }
        }
        assert(t >= 2 ==> ring_start(k - 1) <= inner - 1) by {
            if t >= 2 {
                assert(p - s >= 1);
            }
        }
        if k + 2 < 2 * rings {
            assert(k + 2 <= last);
            lemma_ring_start_monotonic(k + 2, last);
            assert(ring_len(k + 1) == ring_len(k));
            assert(ring_start(k + 2) == ring_start(k + 1) + ring_len(k + 1));
            assert(row[2] == Some(ring_start(k + 1) + p));
        } else {
            assert(row[2] == None::<int>);
        }
        let first = if t == 0 {
            inner
        } else if t == 1 {
            me - 1
        } else {
            inner - 1
        };
        let second = if p + 1 == ring_len(k) {
            ring_start(k - 1)
        } else if t == 0 {
            me + 1
        } else {
            inner
        };
        assert(row[0] == Some(first));
        assert(row[1] == Some(second));
        assert(0 <= first < total && first != me);
        assert(0 <= second < total && second != me);
        assert forall|j: int| 0 <= j < 3 implies match #[trigger] row[j] {
            Some(n) => 0 <= n < total && n != me,
            None => true,
        } by {
            if j == 0 {
            } else if j == 1 {
            } else {
            }
        }
    }
}

/// Every corner that [`hex_tile_nodes`] names is a node of the board.
pub proof fn lemma_hex_tile_nodes_in_range(rings: int, j: int, t: int)
    requires
        0 <= j < rings,
        0 <= t < tile_ring_len(j),
    ensures
        hex_tile_nodes(j, t).len() == 6,
        forall|c: int| 0 <= c < 6 ==> 0 <= #[trigger] hex_tile_nodes(j, t)[c] < node_count(rings),
{
    lemma_node_count_is_ring_sum(rings);
    let last = node_ring_count(rings);
    if j == 0 {
        lemma_ring_start_monotonic(1, last);
        assert(ring_start(1) == 6) by {
            reveal_with_fuel(ring_start, 3);
        }
    } else if j == 1 {
        lemma_ring_start_monotonic(3, last);
        assert(ring_start(3) == 24) by {
            reveal_with_fuel(ring_start, 5);
        }
    } else {
        lemma_ring_start_monotonic(2 * j + 1, last);
        lemma_ring_start_monotonic(0, 2 * j - 3);
        assert(ring_start(2 * j + 1) == ring_start(2 * j) + ring_len(2 * j));
        assert(ring_start(2 * j) == ring_start(2 * j - 1) + ring_len(2 * j - 1));
        assert(ring_start(2 * j - 1) == ring_start(2 * j - 2) + ring_len(2 * j - 2));
        assert(ring_start(2 * j - 2) == ring_start(2 * j - 3) + ring_len(2 * j - 3));
        assert(ring_len(2 * j) == 6 * j + 6);
        assert(ring_len(2 * j - 1) == 6 * j);
        assert(ring_len(2 * j - 2) == 6 * j);
        assert(ring_len(2 * j - 3) == 6 * j - 6);
        let corners = (t + j - 1) / j;
        assert(0 <= corners <= 6 && corners <= t + 1 && (t % j == 0 ==> corners * j == t) && (t > 0
            ==> corners >= 1)) by (nonlinear_arith)
            requires
                corners == (t + j - 1) / j,
                0 <= t < 6 * j,
                j >= 2,
        ;
        if t % j == 0 {
            assert(corners <= 5) by (nonlinear_arith)
                requires
                    corners * j == t,
                    t < 6 * j,
                    j >= 2,
            ;
        }
    }
}

/// Number of nodes of a board with `n_tile_rings` rings of tiles.
pub fn get_n_node(n_tile_rings: u32, shape: &TileShape) -> (n: u32)
    requires
        n_tile_rings <= MAX_TILE_RINGS,
    ensures
        n == node_count(n_tile_rings as int),
{
    match shape {
        TileShape::Hexagon => get_n_node_hexagon(n_tile_rings),
    }
}

/// Number of nodes of a hexagonal board with `n_tile_rings` rings of tiles.
pub fn get_n_node_hexagon(n_tile_rings: u32) -> (n: u32)
    requires
        n_tile_rings <= MAX_TILE_RINGS,
    ensures
        n == node_count(n_tile_rings as int),
        n == 6 * n_tile_rings * n_tile_rings,
{
    assert(6 * n_tile_rings * n_tile_rings <= 6 * 26754 * 26754) by (nonlinear_arith)
        requires
            n_tile_rings <= 26754,
    ;
    assert(n_tile_rings * n_tile_rings <= 26754 * 26754) by (nonlinear_arith)
        requires
            n_tile_rings <= 26754,
    ;
    assert(6 * (n_tile_rings * n_tile_rings) == 6 * n_tile_rings * n_tile_rings)
        by (nonlinear_arith);
    6 * (n_tile_rings * n_tile_rings)
}

/// Number of rings of nodes of a board with `n_tile_rings` rings of tiles.
pub fn get_n_node_rings(n_tile_rings: u32, shape: &TileShape) -> (n: u32)
    requires
        1 <= n_tile_rings <= MAX_TILE_RINGS,
    ensures
        n == node_ring_count(n_tile_rings as int),
        n == 2 * n_tile_rings - 1,
{
    match shape {
        TileShape::Hexagon => get_n_node_rings_hexagon(n_tile_rings),
    }
}

/// Number of rings of nodes of a hexagonal board.
pub fn get_n_node_rings_hexagon(n_tile_rings: u32) -> (n: u32)
    requires
        1 <= n_tile_rings <= MAX_TILE_RINGS,
    ensures
        n == node_ring_count(n_tile_rings as int),
        n == 2 * n_tile_rings - 1,
{
    1 + 2 * (n_tile_rings - 1)
}

/// Number of tiles of a board with `n_tile_rings` rings of tiles.
pub fn get_n_tiles(n_tile_rings: u32, shape: &TileShape) -> (n: u32)
    requires
        1 <= n_tile_rings <= MAX_TILE_RINGS,
    ensures
        n == tile_count(n_tile_rings as int),
{
    match shape {
        TileShape::Hexagon => get_n_tiles_hexagon(n_tile_rings),
    }
}

/// Number of tiles of a hexagonal board with `n_tile_rings` rings of tiles.
pub fn get_n_tiles_hexagon(n_tile_rings: u32) -> (n: u32)
    requires
        1 <= n_tile_rings <= MAX_TILE_RINGS,
    ensures
        n == tile_count(n_tile_rings as int),
        n == 1 + 6 * (n_tile_rings * (n_tile_rings - 1) / 2),
{
    if n_tile_rings == 1 {
        assert(1 * (1 - 1) / 2 == 0int);
        1
    } else {
        assert(n_tile_rings * (n_tile_rings - 1) <= 26754 * 26753) by (nonlinear_arith)
            requires
                1 <= n_tile_rings <= 26754,
        ;
        1 + 6 * (n_tile_rings * (n_tile_rings - 1) / 2)
    }
}

/// The first node id of each node ring from ring 0 to ring `count`.
fn ring_starts(count: u32) -> (starts: Vec<u32>)
    requires
        count <= 2 * MAX_TILE_RINGS,
        ring_start(count as int) <= u32::MAX,
    ensures
        starts.len() == count + 1,
        forall|k: int| 0 <= k <= count ==> #[trigger] starts[k] == ring_start(k),
{
    let mut starts: Vec<u32> = Vec::new();
    let mut start: u32 = 0;
    let mut k: u32 = 0;
    starts.push(0);
    while k < count
        invariant
            k <= count <= 2 * MAX_TILE_RINGS,
            ring_start(count as int) <= u32::MAX,
            start == ring_start(k as int),
            starts.len() == k + 1,
            forall|i: int| 0 <= i <= k ==> #[trigger] starts[i] == ring_start(i),
        decreases count - k,
    {
        proof {
            lemma_ring_start_monotonic(k as int + 1, count as int);
        }
        start = start + 6 * (1 + k / 2);
        k = k + 1;
        starts.push(start);
    }
    starts
}

/// The neighbours of the node at position `p` of node ring `k`.
fn hexagon_node_row(rings: u32, k: u32, p: u32, starts: &Vec<u32>) -> (row: Vec<Option<u32>>)
    requires
        1 <= rings <= MAX_TILE_RINGS,
        k < 2 * rings - 1,
        p < ring_len(k as int),
        starts.len() == 2 * rings,
        forall|i: int| 0 <= i < 2 * rings ==> #[trigger] starts[i] == ring_start(i),
    ensures
        neighbor_row_model(row@) == hex_neighbors(rings as int, k as int, p as int),
{
    proof {
        lemma_hex_neighbors_in_range(rings as int, k as int, p as int);
        assert(node_count(rings as int) <= u32::MAX) by (nonlinear_arith)
            requires
                1 <= rings <= 26754,
        ;
    }
    let ghost spec_row = hex_neighbors(rings as int, k as int, p as int);
    let mut row: Vec<Option<u32>> = Vec::new();
    let n: u32 = 6 * (1 + k / 2);
    if k == 0 {
        row.push(Some((p + 5) % 6));
        row.push(Some((p + 1) % 6));
        if rings > 1 {
            row.push(Some(p + 6));
        } else {
            row.push(None);
        }
    } else if k % 2 == 1 {
        let inward: u32 = starts[(k - 1) as usize];
        let outward: u32 = starts[(k + 1) as usize];
        if p == 0 {
            assert(spec_row[2] == Some(outward + ring_len(k + 1) - 1));
            row.push(Some(inward));
            row.push(Some(outward));
            row.push(Some(outward + (n + 6) - 1));
        } else {
            let d: u32 = (2 * p - 1) / (k + 1);
            assert(spec_row[2] == Some(outward + p + d + 1));
            let o: u32 = outward + p + d;
            assert(spec_row[0] == Some(inward + p));
            row.push(Some(inward + p));
            row.push(Some(o));
            row.push(Some(o + 1));
        }
    } else {
        let here: u32 = starts[k as usize];
        let inward: u32 = starts[(k - 1) as usize];
        let outward: u32 = starts[(k + 1) as usize];
        let side: u32 = n / 6;
        let s: u32 = p / side;
        let t: u32 = p % side;
        assert(s <= p) by (nonlinear_arith)
            requires
                s == p / side,
                side >= 1,
                p >= 0,
        ;
        let inner: u32 = inward + (p - s);
        assert(inner == inward + p - s);
        let first: u32 = if t == 0 {
            inner
        } else if t == 1 {
            assert(spec_row[0] == Some(here + p - 1));
            here + p - 1
        } else {
            assert(spec_row[0] == Some(inner - 1));
            inner - 1
        };
        let second: u32 = if p + 1 == n {
            inward
        } else if t == 0 {
            assert(spec_row[1] == Some(here + p + 1));
            here + p + 1
        } else {
            inner
        };
        row.push(Some(first));
        row.push(Some(second));
        if k + 2 < 2 * rings {
            assert(spec_row[2] == Some(outward + p));
            row.push(Some(outward + p));
        } else {
            row.push(None);
        }
    }
    assert(neighbor_row_model(row@) =~= spec_row);
    row
}

/// The neighbours of every node of a board with `n_tile_rings` rings of
/// tiles, by node id.
pub fn get_node_adjacency(n_tile_rings: u32, shape: &TileShape) -> (adjacency: Vec<
    Vec<Option<u32>>,
>)
    requires
        1 <= n_tile_rings <= MAX_TILE_RINGS,
    ensures
        adjacency_model(adjacency@) == hex_adjacency(n_tile_rings as int),
        adjacency.len() == node_count(n_tile_rings as int),
{
    match shape {
        TileShape::Hexagon => get_node_adjacency_hexagon(n_tile_rings),
    }
}

/// The neighbours of every node of a hexagonal board, by node id. Nodes are
/// numbered ring by ring from the centre outward, and around each ring.
pub fn get_node_adjacency_hexagon(n_tile_rings: u32) -> (adjacency: Vec<Vec<Option<u32>>>)
    requires
        1 <= n_tile_rings <= MAX_TILE_RINGS,
    ensures
        adjacency_model(adjacency@) == hex_adjacency(n_tile_rings as int),
        adjacency.len() == node_count(n_tile_rings as int),
{
    let n_node_rings = get_n_node_rings_hexagon(n_tile_rings);
    proof {
        lemma_node_count_is_ring_sum(n_tile_rings as int);
        assert(node_count(n_tile_rings as int) <= u32::MAX) by (nonlinear_arith)
            requires
                1 <= n_tile_rings <= 26754,
        ;
    }
    let starts = ring_starts(n_node_rings);
    let mut adjacency: Vec<Vec<Option<u32>>> = Vec::new();
    let mut k: u32 = 0;
    while k < n_node_rings
        invariant
            1 <= n_tile_rings <= MAX_TILE_RINGS,
            n_node_rings == 2 * n_tile_rings - 1,
            k <= n_node_rings,
            starts.len() == n_node_rings + 1,
            forall|i: int| 0 <= i <= n_node_rings ==> #[trigger] starts[i] == ring_start(i),
            adjacency_model(adjacency@) == rows_before(n_tile_rings as int, k as int),
            adjacency.len() == ring_start(k as int),
        decreases n_node_rings - k,
    {
        let n: u32 = 6 * (1 + k / 2);
        let mut p: u32 = 0;
        while p < n
            invariant
                1 <= n_tile_rings <= MAX_TILE_RINGS,
                n_node_rings == 2 * n_tile_rings - 1,
                k < n_node_rings,
                n == ring_len(k as int),
                p <= n,
                starts.len() == n_node_rings + 1,
                forall|i: int| 0 <= i <= n_node_rings ==> #[trigger] starts[i] == ring_start(i),
                adjacency_model(adjacency@) == rows_before(n_tile_rings as int, k as int)
                    + ring_rows(n_tile_rings as int, k as int, p as int),
                adjacency.len() == ring_start(k as int) + p,
            decreases n - p,
        {
            let row = hexagon_node_row(n_tile_rings, k, p, &starts);
            let ghost before = adjacency@;
            adjacency.push(row);
            proof {
                let r = n_tile_rings as int;
                assert(ring_rows(r, k as int, p + 1) =~= ring_rows(r, k as int, p as int).push(
                    hex_neighbors(r, k as int, p as int),
                ));
                assert(adjacency_model(adjacency@) =~= adjacency_model(before).push(
                    neighbor_row_model(row@),
                ));
                assert(adjacency_model(adjacency@) =~= rows_before(r, k as int) + ring_rows(
                    r,
                    k as int,
                    p + 1,
                ));
            }
            p = p + 1;
        }
        k = k + 1;
    }
    adjacency
}

/// The corner nodes of the tile at position `t` of tile ring `j`.
fn hexagon_tile_row(rings: u32, j: u32, t: u32, starts: &Vec<u32>) -> (row: Vec<u32>)
    requires
        1 <= rings <= MAX_TILE_RINGS,
        j < rings,
        t < tile_ring_len(j as int),
        starts.len() == 2 * rings,
        forall|i: int| 0 <= i < 2 * rings ==> #[trigger] starts[i] == ring_start(i),
    ensures
        id_row_model(row@) == hex_tile_nodes(j as int, t as int),
{
    proof {
        lemma_hex_tile_nodes_in_range(rings as int, j as int, t as int);
        assert(node_count(rings as int) <= u32::MAX) by (nonlinear_arith)
            requires
                1 <= rings <= 26754,
        ;
    }
    let ghost spec_row = hex_tile_nodes(j as int, t as int);
    let mut row: Vec<u32> = Vec::new();
    if j == 0 {
        row.push(0);
        row.push(1);
        row.push(2);
        row.push(3);
        row.push(4);
        row.push(5);
    } else if j == 1 {
        if t != 5 {
            row.push(t + 1);
            row.push(7 + t);
            row.push(13 + 2 * t);
            row.push(12 + 2 * t);
            row.push(6 + t);
            row.push(t);
        } else {
            row.push(6);
            row.push(0);
            row.push(5);
            row.push(11);
            row.push(22);
            row.push(23);
        }
    } else {
        let first: u32 = starts[(2 * j - 3) as usize];
        let second: u32 = starts[(2 * j - 2) as usize];
        let third: u32 = starts[(2 * j - 1) as usize];
        let fourth: u32 = starts[(2 * j) as usize];
        let corners: u32 = (t + j - 1) / j;
        assert(spec_row[3] == fourth + t + corners);
        assert(spec_row[4] == third + t);
        assert(spec_row[5] == second + t);
        let s: u32 = second + t;
        let th: u32 = third + t;
        let q: u32 = fourth + t + corners;
        if t % j == 0 {
            assert(spec_row[2] == q + 1);
            row.push(s + 1);
            row.push(th + 1);
            row.push(q + 1);
        } else if t + 1 != 6 * j {
            assert(spec_row[0] == first + t - corners + 1);
            assert(corners <= t + 1) by (nonlinear_arith)
                requires
                    corners as int == (t + j - 1) / (j as int),
                    j >= 2,
                    t >= 0,
            ;
            row.push(first + t + 1 - corners);
            row.push(s + 1);
            row.push(th + 1);
        } else {
            row.push(first);
            row.push(second);
            row.push(third);
        }
        row.push(q);
        row.push(th);
        row.push(s);
    }
    assert(id_row_model(row@) =~= spec_row);
    row
}

/// The corner nodes of every tile of a board with `n_tile_rings` rings of
/// tiles, by tile id.
pub fn get_tile_nodes(n_tile_rings: u32, shape: &TileShape) -> (tiles: Vec<Vec<u32>>)
    requires
        1 <= n_tile_rings <= MAX_TILE_RINGS,
    ensures
        id_table_model(tiles@) == hex_tiles(n_tile_rings as int),
        tiles.len() == tile_count(n_tile_rings as int),
{
    match shape {
        TileShape::Hexagon => get_tile_nodes_hexagon(n_tile_rings),
    }
}

/// The corner nodes of every tile of a hexagonal board, by tile id. Tiles
/// are numbered ring by ring from the central tile outward; each tile's
/// corners are listed in rotational order.
pub fn get_tile_nodes_hexagon(n_tile_rings: u32) -> (tiles: Vec<Vec<u32>>)
    requires
        1 <= n_tile_rings <= MAX_TILE_RINGS,
    ensures
        id_table_model(tiles@) == hex_tiles(n_tile_rings as int),
        tiles.len() == tile_count(n_tile_rings as int),
{
    let n_node_rings = get_n_node_rings_hexagon(n_tile_rings);
    proof {
        lemma_node_count_is_ring_sum(n_tile_rings as int);
        lemma_tile_count_is_ring_sum(n_tile_rings as int);
        assert(node_count(n_tile_rings as int) <= u32::MAX) by (nonlinear_arith)
            requires
                1 <= n_tile_rings <= 26754,
        ;
    }
    let starts = ring_starts(n_node_rings);
    let mut tiles: Vec<Vec<u32>> = Vec::new();
    let mut j: u32 = 0;
    while j < n_tile_rings
        invariant
            1 <= n_tile_rings <= MAX_TILE_RINGS,
            n_node_rings == 2 * n_tile_rings - 1,
            j <= n_tile_rings,
            starts.len() == n_node_rings + 1,
            forall|i: int| 0 <= i <= n_node_rings ==> #[trigger] starts[i] == ring_start(i),
            id_table_model(tiles@) == tile_rows_before(j as int),
            tiles.len() == tile_ring_start(j as int),
        decreases n_tile_rings - j,
    {
        let n: u32 = if j == 0 {
            1
        } else {
            6 * j
        };
        let mut t: u32 = 0;
        while t < n
            invariant
                1 <= n_tile_rings <= MAX_TILE_RINGS,
                n_node_rings == 2 * n_tile_rings - 1,
                j < n_tile_rings,
                n == tile_ring_len(j as int),
                t <= n,
                starts.len() == n_node_rings + 1,
                forall|i: int| 0 <= i <= n_node_rings ==> #[trigger] starts[i] == ring_start(i),
                id_table_model(tiles@) == tile_rows_before(j as int) + tile_ring_rows(
                    j as int,
                    t as int,
                ),
                tiles.len() == tile_ring_start(j as int) + t,
            decreases n - t,
        {
            let row = hexagon_tile_row(n_tile_rings, j, t, &starts);
            let ghost before = tiles@;
            tiles.push(row);
            proof {
                assert(tile_ring_rows(j as int, t + 1) =~= tile_ring_rows(j as int, t as int).push(
                    hex_tile_nodes(j as int, t as int),
                ));
                assert(id_table_model(tiles@) =~= id_table_model(before).push(id_row_model(row@)));
                assert(id_table_model(tiles@) =~= tile_rows_before(j as int) + tile_ring_rows(
                    j as int,
                    t + 1,
                ));
            }
            t = t + 1;
        }
        j = j + 1;
    }
    tiles
}

/// Ring and position within the ring of every node, by node id.
pub fn get_node_conc_coords(n_node_rings: u32, tile_shape: &TileShape) -> (coords: Vec<(u32, u32)>)
    requires
        n_node_rings <= 2 * MAX_TILE_RINGS,
        ring_start(n_node_rings as int) <= usize::MAX,
    ensures
        pair_model(coords@) == ring_coords(n_node_rings as int),
{
    match tile_shape {
        TileShape::Hexagon => get_node_conc_coords_hexagon(n_node_rings),
    }
}

/// Ring and position within the ring of every node of a hexagonal board.
pub fn get_node_conc_coords_hexagon(n_node_rings: u32) -> (coords: Vec<(u32, u32)>)
    requires
        n_node_rings <= 2 * MAX_TILE_RINGS,
    ensures
        pair_model(coords@) == ring_coords(n_node_rings as int),
{
    let mut coords: Vec<(u32, u32)> = Vec::new();
    let mut k: u32 = 0;
    while k < n_node_rings
        invariant
            k <= n_node_rings <= 2 * MAX_TILE_RINGS,
            pair_model(coords@) == ring_coords(k as int),
        decreases n_node_rings - k,
    {
        let n: u32 = 6 * (1 + k / 2);
        let mut p: u32 = 0;
        while p < n
            invariant
                k < n_node_rings <= 2 * MAX_TILE_RINGS,
                n == ring_len(k as int),
                p <= n,
                pair_model(coords@) == ring_coords(k as int) + Seq::new(
                    p as nat,
                    |q: int| (k as int, q),
                ),
            decreases n - p,
        {
            let ghost before = coords@;
            coords.push((k, p));
            proof {
                assert(pair_model(coords@) =~= pair_model(before).push((k as int, p as int)));
                assert(Seq::new((p + 1) as nat, |q: int| (k as int, q)) =~= Seq::new(
                    p as nat,
                    |q: int| (k as int, q),
                ).push((k as int, p as int)));
                assert(pair_model(coords@) =~= ring_coords(k as int) + Seq::new(
                    (p + 1) as nat,
                    |q: int| (k as int, q),
                ));
            }
            p = p + 1;
        }
        k = k + 1;
    }
    coords
}

/// Number of neighbours an interior node has.
pub fn get_n_node_neighbors(shape: &TileShape) -> (n: u32)
    ensures
        n == 3,
{
    match shape {
        TileShape::Hexagon => 3,
    }
}

/// Number of corner nodes a tile has.
pub fn get_n_tile_neighbors(shape: &TileShape) -> (n: u32)
    ensures
        n == 6,
{
    match shape {
        TileShape::Hexagon => 6,
    }
}

} // verus!
