use catan_cli::backend::setup::edge::{
    count_unique_edges, create_unique_edges, edge_index_map, make_edge, make_edge_key,
};
use catan_cli::backend::setup::shape::{
    get_n_node, get_n_node_neighbors, get_n_node_rings, get_n_tile_neighbors, get_n_tiles,
    get_node_adjacency, get_node_conc_coords, get_tile_nodes, TileShape,
};

#[test]
fn counts_follow_the_ring_formulas() {
    for r in 1u32..=40 {
        assert_eq!(get_n_node(r, &TileShape::Hexagon), 6 * r * r);
        assert_eq!(get_n_tiles(r, &TileShape::Hexagon), 1 + 6 * (r * (r - 1) / 2));
        assert_eq!(get_n_node_rings(r, &TileShape::Hexagon), 2 * r - 1);
    }
    assert_eq!(get_n_node(3, &TileShape::Hexagon), 54);
    assert_eq!(get_n_tiles(3, &TileShape::Hexagon), 19);
    assert_eq!(get_n_node(0, &TileShape::Hexagon), 0);
    assert_eq!(get_n_node_neighbors(&TileShape::Hexagon), 3);
    assert_eq!(get_n_tile_neighbors(&TileShape::Hexagon), 6);
}

#[test]
fn largest_board_fits() {
    assert_eq!(get_n_node(26754, &TileShape::Hexagon), 4_294_659_096);
    assert_eq!(get_n_tiles(26754, &TileShape::Hexagon), 1 + 3 * 26754 * 26753);
}

#[test]
fn single_ring_is_a_hexagon() {
    let adjacency = get_node_adjacency(1, &TileShape::Hexagon);
    assert_eq!(adjacency.len(), 6);
    assert_eq!(adjacency[0], vec![Some(5), Some(1), None]);
    assert_eq!(adjacency[3], vec![Some(2), Some(4), None]);
    assert_eq!(adjacency[5], vec![Some(4), Some(0), None]);
}

#[test]
fn two_rings_have_known_rows() {
    let adjacency = get_node_adjacency(2, &TileShape::Hexagon);
    assert_eq!(adjacency.len(), 24);
    assert_eq!(adjacency[0], vec![Some(5), Some(1), Some(6)]);
    assert_eq!(adjacency[6], vec![Some(0), Some(12), Some(23)]);
    assert_eq!(adjacency[7], vec![Some(1), Some(13), Some(14)]);
    assert_eq!(adjacency[12], vec![Some(6), Some(13), None]);
    assert_eq!(adjacency[13], vec![Some(12), Some(7), None]);
    assert_eq!(adjacency[23], vec![Some(22), Some(6), None]);
}

#[test]
fn adjacency_is_a_simple_symmetric_graph() {
    for r in 1u32..=6 {
        let adjacency = get_node_adjacency(r, &TileShape::Hexagon);
        let n = adjacency.len();
        assert_eq!(n as u32, 6 * r * r);
        let mut degrees = 0usize;
        for (i, row) in adjacency.iter().enumerate() {
            assert_eq!(row.len(), 3);
            let named: Vec<u32> = row.iter().filter_map(|x| *x).collect();
            assert!(named.len() >= 2);
            degrees += named.len();
            for (a, x) in named.iter().enumerate() {
                assert!((*x as usize) < n);
                assert_ne!(*x as usize, i);
                for y in named.iter().skip(a + 1) {
                    assert_ne!(x, y);
                }
                assert!(adjacency[*x as usize].contains(&Some(i as u32)));
            }
        }
        let edges = create_unique_edges(adjacency);
        assert_eq!(degrees, 2 * count_unique_edges(&edges));
    }
}

#[test]
fn standard_board_has_seventy_two_edges() {
    let edges = create_unique_edges(get_node_adjacency(3, &TileShape::Hexagon));
    assert_eq!(edges.len(), 72);
    assert_eq!(edges[0], (0, 5));
    assert_eq!(edges[1], (0, 1));
    assert_eq!(edges[2], (0, 6));
    assert_eq!(edges[3], (1, 2));
    for (a, b) in &edges {
        assert!(a < b);
    }
}

#[test]
fn tiles_are_hexagons_of_the_graph() {
    for r in 1u32..=6 {
        let adjacency = get_node_adjacency(r, &TileShape::Hexagon);
        let tiles = get_tile_nodes(r, &TileShape::Hexagon);
        assert_eq!(tiles.len() as u32, get_n_tiles(r, &TileShape::Hexagon));
        for tile in &tiles {
            assert_eq!(tile.len(), 6);
            for c in 0..6 {
                let here = tile[c];
                let next = tile[(c + 1) % 6];
                assert!(adjacency[here as usize].contains(&Some(next)));
                assert!(!tile[c + 1..].contains(&here));
            }
        }
    }
}

#[test]
fn tiles_have_known_rows() {
    let tiles = get_tile_nodes(3, &TileShape::Hexagon);
    assert_eq!(tiles[0], vec![0, 1, 2, 3, 4, 5]);
    assert_eq!(tiles[1], vec![1, 7, 13, 12, 6, 0]);
    assert_eq!(tiles[6], vec![6, 0, 5, 11, 22, 23]);
    assert_eq!(tiles[7], vec![13, 25, 37, 36, 24, 12]);
    assert_eq!(tiles[8], vec![7, 14, 26, 38, 25, 13]);
    assert_eq!(tiles[18], vec![6, 12, 24, 53, 35, 23]);
}

#[test]
fn ring_coordinates_count_rings_and_positions() {
    let coords = get_node_conc_coords(3, &TileShape::Hexagon);
    assert_eq!(coords.len(), 24);
    assert_eq!(coords[0], (0, 0));
    assert_eq!(coords[5], (0, 5));
    assert_eq!(coords[6], (1, 0));
    assert_eq!(coords[12], (2, 0));
    assert_eq!(coords[23], (2, 11));
    assert_eq!(get_node_conc_coords(0, &TileShape::Hexagon), vec![]);
}

#[test]
fn edges_put_the_smaller_node_first() {
    assert_eq!(make_edge(3, 9), (3, 9));
    assert_eq!(make_edge(9, 3), (3, 9));
    assert_eq!(make_edge(4, 4), (4, 4));
    assert_eq!(make_edge_key((1, 2)), (1u64 << 32) + 2);
    assert_eq!(make_edge_key((0, 0)), 0);
    assert_eq!(make_edge_key((u32::MAX, u32::MAX)), u64::MAX);
}

#[test]
fn unique_edges_drop_repeats_and_keep_first_order() {
    let table = vec![
        vec![Some(1), Some(2), None],
        vec![Some(0), Some(2)],
        vec![Some(1), Some(0), Some(3)],
        vec![],
    ];
    assert_eq!(create_unique_edges(table), vec![(0, 1), (0, 2), (1, 2), (2, 3)]);
    assert_eq!(create_unique_edges(vec![]), vec![]);
}

#[test]
fn edge_index_finds_every_edge() {
    let edges = vec![(0u32, 1u32), (0, 2), (1, 2), (0, 1)];
    let index = edge_index_map(&edges);
    assert_eq!(index.len(), 3);
    assert_eq!(index[&make_edge_key((0, 1))], 3);
    assert_eq!(index[&make_edge_key((0, 2))], 1);
    assert_eq!(index[&make_edge_key((1, 2))], 2);
    assert!(!index.contains_key(&make_edge_key((2, 1))));
}

#[test]
fn board_has_nine_r_squared_less_three_r_edges() {
    for rings in 1..=6u32 {
        let adjacency = get_node_adjacency(rings, &TileShape::Hexagon);
        let inner = (6 * rings * rings - 6 * rings) as usize;
        for (id, row) in adjacency.iter().enumerate() {
            let degree = row.iter().flatten().count();
            assert_eq!(degree, if id < inner { 3 } else { 2 }, "node {} of {} rings", id, rings);
        }
        let edges = create_unique_edges(adjacency);
        assert_eq!(edges.len() as u32, 9 * rings * rings - 3 * rings);
    }
}

#[test]
fn board_is_in_one_piece() {
    for rings in 1..=6u32 {
        let adjacency = get_node_adjacency(rings, &TileShape::Hexagon);
        let mut seen = vec![false; adjacency.len()];
        let mut open = vec![0usize];
        seen[0] = true;
        while let Some(node) = open.pop() {
            for neighbor in adjacency[node].iter().flatten() {
                if !seen[*neighbor as usize] {
                    seen[*neighbor as usize] = true;
                    open.push(*neighbor as usize);
                }
            }
        }
        assert!(seen.iter().all(|reached| *reached));
    }
}
