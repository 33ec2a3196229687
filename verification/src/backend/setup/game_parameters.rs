use vstd::prelude::*;
use std::collections::HashMap;
use uuid::Uuid;
use crate::backend::setup::edge::{create_unique_edges, edge_index_map};
use crate::backend::setup::shape::{
    adjacency_model, get_n_node, get_node_adjacency, get_tile_nodes, hex_adjacency, hex_tiles,
    id_table_model,
};
use crate::backend::round::budget::table_dims;
use crate::backend::round::phase::Phase;
use crate::backend::setup::city::City;
use crate::backend::setup::dice::seq_sum;
use crate::backend::setup::harbor::Harbor;
use crate::backend::setup::player::{Player, PlayerType};
use crate::backend::setup::road::Road;
use crate::backend::setup::settlement::Settlement;
use crate::backend::setup::shape::{node_count, tile_count, TileShape, MAX_TILE_RINGS};

verus! {

/// Number of kinds of development card: victory point, knight, road
/// building, year of plenty and monopoly, in this order.
pub const N_CARD_KINDS: usize = 5;

/// Number of things that can be bought: road, settlement, city and
/// development card, in this order.
pub const N_BUILDING_KINDS: usize = 4;

/// What a game is played with: the players, the board's layout, the initial
/// position, the seeds of all draws and the limits of each phase.
#[derive(Clone, Debug)]
pub struct GameParameters {
    pub id: String,
    pub title: Option<String>,
    pub dice_seed: u64,
    pub n_dice: u32,
    pub n_faces: u32,
    pub robber_seed: u64,
    pub init_v_robber: Option<Vec<u32>>,
    /// The dice sums that bring the robber.
    pub robber_nos: Vec<u32>,
    pub tile_seed: u64,
    pub tile_shape: TileShape,
    pub n_tile_rings: u32,
    pub n_players: u32,
    pub v_players: Vec<Player>,
    pub n_resources: u32,
    pub init_player: u32,
    pub init_phase: Phase,
    pub init_harbors: Option<Vec<Harbor>>,
    pub init_roads: Option<Vec<Road>>,
    pub init_settlements: Option<Vec<Settlement>>,
    pub init_cities: Option<Vec<City>>,
    pub init_longest_road: Option<(u32, u32)>,
    pub init_largest_army: Option<(u32, u32)>,
    pub init_budgets: Option<Vec<Vec<u32>>>,
    pub init_public_budgets: Option<Vec<Vec<u32>>>,
    pub init_total_drawn_resources: Option<Vec<Vec<u32>>>,
    pub dev_card_seed: u64,
    pub n_dev_card_types: usize,
    pub init_undrawn_dev_cards: Vec<u32>,
    pub init_drawn_dev_cards: Option<Vec<Vec<u32>>>,
    pub init_public_dev_cards: Option<Vec<Vec<u32>>>,
    pub v_tile_resources: Vec<Option<u32>>,
    pub init_tile_rng: Vec<Option<u32>>,
    pub node_adjacency: Vec<Vec<Option<u32>>>,
    pub node_tiles_adjacency: Vec<Vec<usize>>,
    pub tile_nodes: Vec<Vec<u32>>,
    pub edge_map: HashMap<u64, usize>,
    pub n_winning_vp: u32,
    pub max_trades: u32,
    pub max_cards: u32,
    pub max_builds: u32,
    pub n_setup_rounds: u32,
    /// What a road, a settlement, a city and a development card cost, each
    /// as a quantity of every resource.
    pub building_costs: Vec<Vec<u32>>,
}

impl GameParameters {
    /// Parameters that a game can be played with: there is a player, every
    /// player is listed, the dice can be thrown, and each of the four costs
    /// names a quantity of every resource.
    pub open spec fn wf(&self) -> bool {
        &&& self.n_players >= 1
        &&& self.v_players.len() == self.n_players
        &&& self.n_faces >= 1
        &&& self.n_dice * self.n_faces < u32::MAX
        &&& self.building_costs.len() == N_BUILDING_KINDS
        &&& forall|k: int|
            0 <= k < self.building_costs.len() ==> (#[trigger] self.building_costs[k]).len()
                == self.n_resources
    }

    /// Parameters from which a board can be set up: they can be played
    /// with, the tables of the board's layout cover the board and name only
    /// nodes and resources that exist, every piece of the initial position
    /// stands on the board and belongs to a player, and every table of the
    /// initial position has a row for each player and an entry for each
    /// resource or kind of card.
    pub open spec fn board_wf(&self) -> bool {
        let nodes = node_count(self.n_tile_rings as int);
        let tiles = tile_count(self.n_tile_rings as int);
        let players = self.n_players as int;
        let resources = self.n_resources as int;
        &&& self.wf()
        &&& 1 <= self.n_tile_rings <= MAX_TILE_RINGS
        &&& self.init_player < self.n_players
        &&& self.node_adjacency.len() == nodes
        &&& forall|i: int, j: int|
            0 <= i < self.node_adjacency.len() && 0 <= j < self.node_adjacency[i].len()
                ==> match #[trigger] self.node_adjacency[i][j] {
                Some(n) => n < nodes,
                None => true,
            }
        &&& self.tile_nodes.len() == tiles
        &&& forall|t: int, c: int|
            0 <= t < self.tile_nodes.len() && 0 <= c < self.tile_nodes[t].len()
                ==> #[trigger] self.tile_nodes[t][c] < nodes
        &&& self.init_tile_rng.len() == tiles
        &&& self.v_tile_resources.len() == tiles
        &&& forall|t: int|
            0 <= t < self.v_tile_resources.len() ==> match #[trigger] self.v_tile_resources[t] {
                Some(r) => r < resources,
                None => true,
            }
        &&& match self.init_v_robber {
            Some(robbers) => robbers.len() <= u32::MAX && forall|r: int|
                0 <= r < robbers.len() ==> #[trigger] robbers[r] < tiles,
            None => true,
        }
        &&& match self.init_harbors {
            Some(harbors) => forall|h: int|
                0 <= h < harbors.len() ==> (#[trigger] harbors[h]).nodes.0 < nodes
                    && harbors[h].nodes.1 < nodes,
            None => true,
        }
        &&& match self.init_settlements {
            Some(settlements) => forall|s: int|
                0 <= s < settlements.len() ==> (#[trigger] settlements[s]).node_id < nodes
                    && settlements[s].player_id < players,
            None => true,
        }
        &&& match self.init_cities {
            Some(cities) => forall|c: int|
                0 <= c < cities.len() ==> (#[trigger] cities[c]).node_id < nodes
                    && cities[c].player_id < players,
            None => true,
        }
        &&& match self.init_roads {
            Some(roads) => forall|r: int|
                0 <= r < roads.len() ==> (#[trigger] roads[r]).nodes.0 < nodes && roads[r].nodes.1
                    < nodes,
            None => true,
        }
        &&& match self.init_budgets {
            Some(table) => table_dims(table.deep_view(), players, resources),
            None => true,
        }
        &&& match self.init_public_budgets {
            Some(table) => table_dims(table.deep_view(), players, resources),
            None => true,
        }
        &&& match self.init_total_drawn_resources {
            Some(table) => table_dims(table.deep_view(), players, resources),
            None => true,
        }
        &&& match self.init_drawn_dev_cards {
            Some(table) => table_dims(table.deep_view(), players, N_CARD_KINDS as int),
            None => true,
        }
        &&& match self.init_public_dev_cards {
            Some(table) => table_dims(table.deep_view(), players, N_CARD_KINDS as int),
            None => true,
        }
        &&& self.init_undrawn_dev_cards.len() == N_CARD_KINDS
        &&& seq_sum(self.init_undrawn_dev_cards@) >= 1
    }

    /// Whether player `player` is a human.
    pub open spec fn is_human(&self, player: int) -> bool {
        0 <= player < self.v_players.len() && self.v_players[player].player_type
            == PlayerType::Human
    }

    /// The cost of the thing of kind `kind`.
    pub open spec fn cost(&self, kind: int) -> Seq<u32> {
        self.building_costs[kind]@
    }

    /// Whether `sum` is one of the dice sums that bring the robber.
    pub open spec fn brings_robber(&self, sum: u32) -> bool {
        self.robber_nos@.contains(sum)
    }

    /// Whether the parameters can be played with.
    pub fn is_valid(&self) -> (valid: bool)
        ensures
            valid == self.wf(),
    {
        if self.n_players < 1 || self.v_players.len() != self.n_players as usize || self.n_faces
            < 1 {
            return false;
        }
        let dice: u64 = self.n_dice as u64;
        let faces: u64 = self.n_faces as u64;
        assert(dice * faces <= 0xffff_ffff * 0xffff_ffff) by (nonlinear_arith)
            requires
                dice <= 0xffff_ffff,
                faces <= 0xffff_ffff,
        ;
        if dice * faces >= 0xffff_ffff {
            return false;
        }
        if self.building_costs.len() != N_BUILDING_KINDS {
            return false;
        }
        let mut k: usize = 0;
        while k < self.building_costs.len()
            invariant
                k <= self.building_costs.len(),
                forall|l: int|
                    0 <= l < k ==> (#[trigger] self.building_costs[l]).len() == self.n_resources,
            decreases self.building_costs.len() - k,
        {
            if self.building_costs[k].len() != self.n_resources as usize {
                return false;
            }
            k = k + 1;
        }
        true
    }
}

/// Whether every neighbour that `table` names is below `bound`.
fn neighbors_below(table: &Vec<Vec<Option<u32>>>, bound: u32) -> (all: bool)
    ensures
        all == forall|i: int, j: int|
            0 <= i < table.len() && 0 <= j < table[i].len() ==> match #[trigger] table[i][j] {
                Some(n) => n < bound,
                None => true,
            },
{
    let mut i: usize = 0;
    while i < table.len()
        invariant
            i <= table.len(),
            forall|a: int, b: int|
                0 <= a < i && 0 <= b < table[a].len() ==> match #[trigger] table[a][b] {
                    Some(n) => n < bound,
                    None => true,
                },
        decreases table.len() - i,
    {
        let mut j: usize = 0;
        while j < table[i].len()
            invariant
                i < table.len(),
                j <= table[i as int].len(),
                forall|a: int, b: int|
                    0 <= a < i && 0 <= b < table[a].len() ==> match #[trigger] table[a][b] {
                        Some(n) => n < bound,
                        None => true,
                    },
                forall|b: int|
                    0 <= b < j ==> match #[trigger] table[i as int][b] {
                        Some(n) => n < bound,
                        None => true,
                    },
            decreases table[i as int].len() - j,
        {
            match table[i][j] {
                Some(n) => {
                    if n >= bound {
                        return false;
                    }
                },
                None => {},
            }
            j = j + 1;
        }
        i = i + 1;
    }
    true
}

/// Whether every id in `table` is below `bound`.
fn ids_below(table: &Vec<Vec<u32>>, bound: u32) -> (all: bool)
    ensures
        all == forall|i: int, j: int|
            0 <= i < table.len() && 0 <= j < table[i].len() ==> #[trigger] table[i][j] < bound,
{
    let mut i: usize = 0;
    while i < table.len()
        invariant
            i <= table.len(),
            forall|a: int, b: int|
                0 <= a < i && 0 <= b < table[a].len() ==> #[trigger] table[a][b] < bound,
        decreases table.len() - i,
    {
        let mut j: usize = 0;
        while j < table[i].len()
            invariant
                i < table.len(),
                j <= table[i as int].len(),
                forall|a: int, b: int|
                    0 <= a < i && 0 <= b < table[a].len() ==> #[trigger] table[a][b] < bound,
                forall|b: int| 0 <= b < j ==> #[trigger] table[i as int][b] < bound,
            decreases table[i as int].len() - j,
        {
            if table[i][j] >= bound {
                return false;
            }
            j = j + 1;
        }
        i = i + 1;
    }
    true
}

/// Whether every number that `list` names is below `bound`.
fn options_below(list: &Vec<Option<u32>>, bound: u32) -> (all: bool)
    ensures
        all == forall|i: int|
            0 <= i < list.len() ==> match #[trigger] list[i] {
                Some(n) => n < bound,
                None => true,
            },
{
    let mut i: usize = 0;
    while i < list.len()
        invariant
            i <= list.len(),
            forall|a: int|
                0 <= a < i ==> match #[trigger] list[a] {
                    Some(n) => n < bound,
                    None => true,
                },
        decreases list.len() - i,
    {
        match list[i] {
            Some(n) => {
                if n >= bound {
                    return false;
                }
            },
            None => {},
        }
        i = i + 1;
    }
    true
}

/// Whether every number of `list` is below `bound`.
fn numbers_below(list: &Vec<u32>, bound: u32) -> (all: bool)
    ensures
        all == forall|i: int| 0 <= i < list.len() ==> #[trigger] list[i] < bound,
{
    let mut i: usize = 0;
    while i < list.len()
        invariant
            i <= list.len(),
            forall|a: int| 0 <= a < i ==> #[trigger] list[a] < bound,
        decreases list.len() - i,
    {
        if list[i] >= bound {
            return false;
        }
        i = i + 1;
    }
    true
}

/// Whether `table`, if there is one, has `rows` rows of `columns` entries.
#[verifier::loop_isolation(false)]
fn has_dims(table: &Option<Vec<Vec<u32>>>, rows: usize, columns: usize) -> (fits: bool)
    ensures
        fits == match table {
            Some(t) => table_dims(t.deep_view(), rows as int, columns as int),
            None => true,
        },
{
    match table {
        Some(t) => {
            if t.len() != rows {
                return false;
            }
            let mut i: usize = 0;
            while i < t.len()
                invariant
                    i <= t.len(),
                    t.len() == rows,
                    forall|a: int| 0 <= a < i ==> (#[trigger] t.deep_view()[a]).len() == columns,
                decreases t.len() - i,
            {
                assert(t.deep_view()[i as int] =~= t[i as int]@);
                if t[i].len() != columns {
                    return false;
                }
                i = i + 1;
            }
            true
        },
        None => true,
    }
}

impl GameParameters {
    /// Whether the pieces of the initial position stand on a board of
    /// `nodes` nodes and belong to players of the game.
    #[verifier::loop_isolation(false)]
    fn pieces_fit(&self, nodes: u32) -> (fit: bool)
        ensures
            fit == {
                &&& match self.init_harbors {
                    Some(harbors) => forall|h: int|
                        0 <= h < harbors.len() ==> (#[trigger] harbors[h]).nodes.0 < nodes
                            && harbors[h].nodes.1 < nodes,
                    None => true,
                }
                &&& match self.init_settlements {
                    Some(settlements) => forall|s: int|
                        0 <= s < settlements.len() ==> (#[trigger] settlements[s]).node_id < nodes
                            && settlements[s].player_id < self.n_players,
                    None => true,
                }
                &&& match self.init_cities {
                    Some(cities) => forall|c: int|
                        0 <= c < cities.len() ==> (#[trigger] cities[c]).node_id < nodes
                            && cities[c].player_id < self.n_players,
                    None => true,
                }
                &&& match self.init_roads {
                    Some(roads) => forall|r: int|
                        0 <= r < roads.len() ==> (#[trigger] roads[r]).nodes.0 < nodes
                            && roads[r].nodes.1 < nodes,
                    None => true,
                }
            },
    {
        match &self.init_harbors {
            Some(harbors) => {
                let mut h: usize = 0;
                while h < harbors.len()
                    invariant
                        h <= harbors.len(),
                        forall|k: int|
                            0 <= k < h ==> (#[trigger] harbors[k]).nodes.0 < nodes
                                && harbors[k].nodes.1 < nodes,
                    decreases harbors.len() - h,
                {
                    if harbors[h].nodes.0 >= nodes || harbors[h].nodes.1 >= nodes {
                        return false;
                    }
                    h = h + 1;
                }
            },
            None => {},
        }
        match &self.init_settlements {
            Some(settlements) => {
                let mut s: usize = 0;
                while s < settlements.len()
                    invariant
                        s <= settlements.len(),
                        forall|k: int|
                            0 <= k < s ==> (#[trigger] settlements[k]).node_id < nodes
                                && settlements[k].player_id < self.n_players,
                    decreases settlements.len() - s,
                {
                    if settlements[s].node_id >= nodes || settlements[s].player_id
                        >= self.n_players {
                        return false;
                    }
                    s = s + 1;
                }
            },
            None => {},
        }
        match &self.init_cities {
            Some(cities) => {
                let mut c: usize = 0;
                while c < cities.len()
                    invariant
                        c <= cities.len(),
                        forall|k: int|
                            0 <= k < c ==> (#[trigger] cities[k]).node_id < nodes
                                && cities[k].player_id < self.n_players,
                    decreases cities.len() - c,
                {
                    if cities[c].node_id >= nodes || cities[c].player_id >= self.n_players {
                        return false;
                    }
                    c = c + 1;
                }
            },
            None => {},
        }
        match &self.init_roads {
            Some(roads) => {
                let mut r: usize = 0;
                while r < roads.len()
                    invariant
                        r <= roads.len(),
                        forall|k: int|
                            0 <= k < r ==> (#[trigger] roads[k]).nodes.0 < nodes
                                && roads[k].nodes.1 < nodes,
                    decreases roads.len() - r,
                {
                    if roads[r].nodes.0 >= nodes || roads[r].nodes.1 >= nodes {
                        return false;
                    }
                    r = r + 1;
                }
            },
            None => {},
        }
        true
    }

    /// Whether a board can be set up from the parameters.
    pub fn can_build_board(&self) -> (valid: bool)
        ensures
            valid == self.board_wf(),
    {
        if !self.is_valid() || self.n_tile_rings < 1 || self.n_tile_rings > MAX_TILE_RINGS
            || self.init_player >= self.n_players {
            return false;
        }
        let nodes = crate::backend::setup::shape::get_n_node(self.n_tile_rings, &self.tile_shape);
        let tiles = crate::backend::setup::shape::get_n_tiles(self.n_tile_rings, &self.tile_shape);
        if self.node_adjacency.len() != nodes as usize || self.tile_nodes.len() != tiles as usize
            || self.init_tile_rng.len() != tiles as usize || self.v_tile_resources.len()
            != tiles as usize {
            return false;
        }
        if !neighbors_below(&self.node_adjacency, nodes) || !ids_below(&self.tile_nodes, nodes)
            || !options_below(&self.v_tile_resources, self.n_resources) {
            return false;
        }
        let robbers_fit = match &self.init_v_robber {
            Some(robbers) => robbers.len() <= u32::MAX as usize && numbers_below(robbers, tiles),
            None => true,
        };
        if !robbers_fit || !self.pieces_fit(nodes) {
            return false;
        }
        let players = self.n_players as usize;
        let resources = self.n_resources as usize;
        if !has_dims(&self.init_budgets, players, resources) || !has_dims(
            &self.init_public_budgets,
            players,
            resources,
        ) || !has_dims(&self.init_total_drawn_resources, players, resources) || !has_dims(
            &self.init_drawn_dev_cards,
            players,
            N_CARD_KINDS,
        ) || !has_dims(&self.init_public_dev_cards, players, N_CARD_KINDS) {
            return false;
        }
        self.init_undrawn_dev_cards.len() == N_CARD_KINDS
            && crate::backend::round::budget::capped_sum(&self.init_undrawn_dev_cards, 1) >= 1
    }
}

/// A fresh id for a game: the text of a random version 4 UUID, from
/// `uuid`'s `Uuid::new_v4`. The id differs from call to call, so the
/// contract claims nothing of it.
#[verifier::external_body]
fn fresh_id() -> String {
    Uuid::new_v4().to_string()
}

/// The tiles at whose corners node `node` stands, among the first `count`
/// corners of tile `tile`: the tile once for each such corner.
pub open spec fn corners_at(corners: Seq<u32>, tile: int, node: int, count: int) -> Seq<usize>
    decreases count,
{
    if count <= 0 {
        Seq::empty()
    } else if corners[count - 1] == node {
        corners_at(corners, tile, node, count - 1).push(tile as usize)
    } else {
        corners_at(corners, tile, node, count - 1)
    }
}

/// The tiles among the first `count` at whose corners node `node` stands.
pub open spec fn tiles_at(tile_nodes: Seq<Vec<u32>>, node: int, count: int) -> Seq<usize>
    decreases count,
{
    if count <= 0 {
        Seq::empty()
    } else {
        tiles_at(tile_nodes, node, count - 1) + corners_at(
            tile_nodes[count - 1]@,
            count - 1,
            node,
            tile_nodes[count - 1]@.len() as int,
        )
    }
}

/// For each of `n_nodes` nodes, the tiles at whose corners the node
/// stands.
pub fn node_tiles(tile_nodes: &Vec<Vec<u32>>, n_nodes: usize) -> (table: Vec<Vec<usize>>)
    ensures
        table.len() == n_nodes,
        forall|n: int|
            0 <= n < n_nodes ==> (#[trigger] table[n])@ == tiles_at(
                tile_nodes@,
                n,
                tile_nodes.len() as int,
            ),
{
    let mut table: Vec<Vec<usize>> = Vec::new();
    let mut n: usize = 0;
    while n < n_nodes
        invariant
            n <= n_nodes,
            table.len() == n,
            forall|k: int|
                0 <= k < n ==> (#[trigger] table[k])@ == tiles_at(
                    tile_nodes@,
                    k,
                    tile_nodes.len() as int,
                ),
        decreases n_nodes - n,
    {
        let mut tiles: Vec<usize> = Vec::new();
        let mut t: usize = 0;
        while t < tile_nodes.len()
            invariant
                t <= tile_nodes.len(),
                tiles@ == tiles_at(tile_nodes@, n as int, t as int),
            decreases tile_nodes.len() - t,
        {
            let corners = &tile_nodes[t];
            let ghost base = tiles@;
            let mut c: usize = 0;
            assert(tiles@ =~= base + corners_at(corners@, t as int, n as int, 0));
            while c < corners.len()
                invariant
                    c <= corners.len(),
                    tiles@ == base + corners_at(corners@, t as int, n as int, c as int),
                decreases corners.len() - c,
            {
                if corners[c] as usize == n {
                    tiles.push(t);
                }
                c = c + 1;
                assert(tiles@ =~= base + corners_at(corners@, t as int, n as int, c as int));
            }
            t = t + 1;
        }
        table.push(tiles);
        n = n + 1;
    }
    table
}

impl GameParameters {
    /// The parameters of the standard game on a board of three rings of
    /// tiles, with the given resource and dice sum of every tile and the
    /// given harbors: four players who move at random, five resources, two
    /// dice of six faces, the robber on a seven, two rounds of set-up and
    /// the standard deck and costs.
    pub fn standard(
        v_tile_resources: Vec<Option<u32>>,
        harbors: Vec<Harbor>,
        init_tile_rng: Vec<Option<u32>>,
    ) -> (parameters: GameParameters)
        ensures
            parameters.wf(),
            parameters.title is None,
            parameters.n_tile_rings == 3,
            parameters.n_players == 4,
            parameters.n_resources == 5,
            parameters.n_dice == 2,
            parameters.n_faces == 6,
            parameters.dice_seed == 42,
            parameters.robber_seed == 4444,
            parameters.dev_card_seed == 8888,
            parameters.tile_seed == 123,
            parameters.robber_nos@ == seq![7u32],
            parameters.init_player == 0,
            parameters.init_phase == Phase::SetUp,
            parameters.n_winning_vp == 10,
            parameters.max_trades == 5,
            parameters.max_cards == 1,
            parameters.max_builds == 5,
            parameters.n_setup_rounds == 2,
            parameters.n_dev_card_types == N_CARD_KINDS,
            parameters.init_undrawn_dev_cards@ == seq![5u32, 14u32, 2u32, 2u32, 2u32],
            parameters.building_costs.deep_view() == seq![
                seq![1u32, 0u32, 1u32, 0u32, 0u32],
                seq![1u32, 1u32, 1u32, 0u32, 1u32],
                seq![0u32, 2u32, 0u32, 3u32, 0u32],
                seq![0u32, 1u32, 0u32, 1u32, 1u32],
            ],
            parameters.v_tile_resources == v_tile_resources,
            parameters.init_tile_rng == init_tile_rng,
            parameters.init_harbors == Some(harbors),
            parameters.init_v_robber is None,
            parameters.init_roads is None,
            parameters.init_settlements is None,
            parameters.init_cities is None,
            parameters.init_longest_road is None,
            parameters.init_largest_army is None,
            parameters.init_budgets is None,
            parameters.init_public_budgets is None,
            parameters.init_total_drawn_resources is None,
            parameters.init_drawn_dev_cards is None,
            parameters.init_public_dev_cards is None,
            adjacency_model(parameters.node_adjacency@) == hex_adjacency(3),
            id_table_model(parameters.tile_nodes@) == hex_tiles(3),
            forall|p: int|
                0 <= p < 4 ==> (#[trigger] parameters.v_players[p]).player_type
                    == PlayerType::Random && parameters.v_players[p].id == p,
    {
        let n_tile_rings: u32 = 3;
        let shape = TileShape::Hexagon;
        let node_adjacency = get_node_adjacency(n_tile_rings, &shape);
        let unique_edges = create_unique_edges(get_node_adjacency(n_tile_rings, &shape));
        let edge_map = edge_index_map(&unique_edges);
        let tile_nodes = get_tile_nodes(n_tile_rings, &shape);
        let n_nodes = get_n_node(n_tile_rings, &shape) as usize;
        let node_tiles_adjacency = node_tiles(&tile_nodes, n_nodes);
        let n_players: u32 = 4;
        let mut v_players: Vec<Player> = Vec::new();
        let mut p: u32 = 0;
        while p < n_players
            invariant
                p <= n_players,
                v_players.len() == p,
                forall|k: int|
                    0 <= k < p ==> (#[trigger] v_players[k]).player_type == PlayerType::Random
                        && v_players[k].id == k,
            decreases n_players - p,
        {
            v_players.push(Player::new_empty(p));
            p = p + 1;
        }
        let mut robber_nos: Vec<u32> = Vec::new();
        robber_nos.push(7);
        let mut building_costs: Vec<Vec<u32>> = Vec::new();
        building_costs.push(vec![1, 0, 1, 0, 0]);
        building_costs.push(vec![1, 1, 1, 0, 1]);
        building_costs.push(vec![0, 2, 0, 3, 0]);
        building_costs.push(vec![0, 1, 0, 1, 1]);
        let init_undrawn_dev_cards: Vec<u32> = vec![5, 14, 2, 2, 2];
        assert(robber_nos@ =~= seq![7u32]);
        assert(init_undrawn_dev_cards@ =~= seq![5u32, 14u32, 2u32, 2u32, 2u32]);
        assert(building_costs.deep_view() =~~= seq![
            seq![1u32, 0u32, 1u32, 0u32, 0u32],
            seq![1u32, 1u32, 1u32, 0u32, 1u32],
            seq![0u32, 2u32, 0u32, 3u32, 0u32],
            seq![0u32, 1u32, 0u32, 1u32, 1u32],
        ]);
        GameParameters {
            id: fresh_id(),
            title: None,
            dice_seed: 42,
            n_dice: 2,
            n_faces: 6,
            robber_seed: 4444,
            init_v_robber: None,
            robber_nos,
            tile_seed: 123,
            tile_shape: shape,
            n_tile_rings,
            n_players,
            v_players,
            n_resources: 5,
            init_player: 0,
            init_phase: Phase::SetUp,
            init_harbors: Some(harbors),
            init_roads: None,
            init_settlements: None,
            init_cities: None,
            init_longest_road: None,
            init_largest_army: None,
            init_budgets: None,
            init_public_budgets: None,
            init_total_drawn_resources: None,
            dev_card_seed: 8888,
            n_dev_card_types: N_CARD_KINDS,
            init_undrawn_dev_cards,
            init_drawn_dev_cards: None,
            init_public_dev_cards: None,
            v_tile_resources,
            init_tile_rng,
            node_adjacency,
            node_tiles_adjacency,
            tile_nodes,
            edge_map,
            n_winning_vp: 10,
            max_trades: 5,
            max_cards: 1,
            max_builds: 5,
            n_setup_rounds: 2,
            building_costs,
        }
    }
}

} // verus!
