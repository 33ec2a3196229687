use vstd::prelude::*;
use crate::backend::round::budget::{clone_table, table_dims, zero_table, zeros};
use crate::backend::round::longest_road::get_longest_road;
use crate::backend::round::moves::lemma_building_keeps_owners;
use crate::backend::round::rules::{road_lengths, scores_of};
use crate::backend::round::score::{get_public_score, get_score};
use crate::backend::setup::city::{city_refusal, with_city, City};
use crate::backend::setup::dice::{seq_sum, Dice};
use crate::backend::setup::game_parameters::{GameParameters, N_CARD_KINDS};
use crate::backend::setup::harbor::{with_harbor, Harbor};
use crate::backend::setup::node::{nodes_wf, Node, NodeModel};
use crate::backend::setup::node_status::NodeStatus;
use crate::backend::setup::placement::PlacementError;
use crate::backend::setup::road::{road_refused, with_road_between, Road};
use crate::backend::setup::settlement::{
    settlement_refusal, with_settlement, BuildingModel, Settlement,
};
use crate::backend::setup::shape::{get_n_node, get_n_tiles};
use crate::backend::setup::tile::{Tile, TileModel};

verus! {

/// The state of the board: the nodes and tiles with what stands on them, the
/// robbers, every player's resources and development cards, both as they
/// are and as the other players can know them, the awards and the scores.
#[derive(Clone, Debug)]
pub struct Board {
    pub nodes: Vec<Node>,
    pub tiles: Vec<Tile>,
    /// The tile on which each robber stands.
    pub v_robbers: Vec<u32>,
    pub roads: Option<Vec<Road>>,
    pub harbors: Option<Vec<Harbor>>,
    /// The dice sum of each tile, also while a robber covers it.
    pub tile_rng: Vec<Option<u32>>,
    pub budgets: Vec<Vec<u32>>,
    pub public_budgets: Vec<Vec<u32>>,
    pub total_drawn_resources: Vec<Vec<u32>>,
    pub undrawn_dev_cards: Vec<u32>,
    pub drawn_dev_cards: Vec<Vec<u32>>,
    pub public_dev_cards: Vec<Vec<u32>>,
    pub longest_roads: Option<Vec<u32>>,
    /// The holder of the longest-road award so far, with the length that
    /// earned it.
    pub prev_longest_road: Option<(u32, u32)>,
    pub armies: Vec<u32>,
    /// The holder of the largest-army award so far, with the size that
    /// earned it.
    pub prev_largest_army: Option<(u32, u32)>,
    pub scores: Vec<u32>,
    pub public_scores: Vec<u32>,
    pub dice: Dice,
    pub dice_outcome: Option<u32>,
}

/// The mathematical content of a [`Board`].
pub struct BoardModel {
    pub nodes: Seq<NodeModel>,
    pub tiles: Seq<TileModel>,
    pub v_robbers: Seq<u32>,
    pub roads: Option<Seq<Road>>,
    pub harbors: Option<Seq<Harbor>>,
    pub tile_rng: Seq<Option<u32>>,
    pub budgets: Seq<Seq<u32>>,
    pub public_budgets: Seq<Seq<u32>>,
    pub total_drawn_resources: Seq<Seq<u32>>,
    pub undrawn_dev_cards: Seq<u32>,
    pub drawn_dev_cards: Seq<Seq<u32>>,
    pub public_dev_cards: Seq<Seq<u32>>,
    pub longest_roads: Option<Seq<u32>>,
    pub prev_longest_road: Option<(u32, u32)>,
    pub armies: Seq<u32>,
    pub prev_largest_army: Option<(u32, u32)>,
    pub scores: Seq<u32>,
    pub public_scores: Seq<u32>,
    pub dice: Dice,
    pub dice_outcome: Option<u32>,
}

impl DeepView for Board {
    type V = BoardModel;

    open spec fn deep_view(&self) -> BoardModel {
        BoardModel {
            nodes: self.nodes.deep_view(),
            tiles: self.tiles.deep_view(),
            v_robbers: self.v_robbers@,
            roads: match self.roads {
                Some(r) => Some(r@),
                None => None,
            },
            harbors: match self.harbors {
                Some(h) => Some(h@),
                None => None,
            },
            tile_rng: self.tile_rng@,
            budgets: self.budgets.deep_view(),
            public_budgets: self.public_budgets.deep_view(),
            total_drawn_resources: self.total_drawn_resources.deep_view(),
            undrawn_dev_cards: self.undrawn_dev_cards@,
            drawn_dev_cards: self.drawn_dev_cards.deep_view(),
            public_dev_cards: self.public_dev_cards.deep_view(),
            longest_roads: match self.longest_roads {
                Some(l) => Some(l@),
                None => None,
            },
            prev_longest_road: self.prev_longest_road,
            armies: self.armies@,
            prev_largest_army: self.prev_largest_army,
            scores: self.scores@,
            public_scores: self.public_scores@,
            dice: self.dice,
            dice_outcome: self.dice_outcome,
        }
    }
}

impl BoardModel {
    /// A board that fits the parameters of its game: nodes, tiles and
    /// robbers name only what exists, builders and resources are players
    /// and resources of the game, every table has a row for each player and
    /// an entry for each resource or kind of card, and the deck holds a
    /// card.
    pub open spec fn wf(self, parameters: &GameParameters) -> bool {
        let players = parameters.n_players as int;
        let resources = parameters.n_resources as int;
        &&& nodes_wf(self.nodes)
        &&& forall|i: int|
            0 <= i < self.nodes.len() ==> match (#[trigger] self.nodes[i]).node_status.owner() {
                Some(owner) => owner < players,
                None => true,
            }
        &&& self.tiles.len() <= u32::MAX
        &&& forall|t: int, c: int|
            0 <= t < self.tiles.len() && 0 <= c < self.tiles[t].nodes.len()
                ==> #[trigger] self.tiles[t].nodes[c] < self.nodes.len()
        &&& forall|t: int|
            0 <= t < self.tiles.len() ==> match (#[trigger] self.tiles[t]).resource {
                Some(r) => r < resources,
                None => true,
            }
        &&& self.tile_rng.len() == self.tiles.len()
        &&& self.v_robbers.len() <= u32::MAX
        &&& forall|r: int| 0 <= r < self.v_robbers.len() ==> #[trigger] self.v_robbers[r] < self.tiles.len()
        &&& table_dims(self.budgets, players, resources)
        &&& table_dims(self.public_budgets, players, resources)
        &&& table_dims(self.total_drawn_resources, players, resources)
        &&& table_dims(self.drawn_dev_cards, players, N_CARD_KINDS as int)
        &&& table_dims(self.public_dev_cards, players, N_CARD_KINDS as int)
        &&& self.undrawn_dev_cards.len() == N_CARD_KINDS
        &&& seq_sum(self.undrawn_dev_cards) >= 1
        &&& match self.longest_roads {
            Some(l) => l.len() == players,
            None => true,
        }
        &&& self.armies.len() == players
        &&& self.scores.len() == players
        &&& self.public_scores.len() == players
        &&& self.dice.wf()
    }
}

/// The nodes of an empty board with the given neighbours.
pub open spec fn bare_nodes(adjacency: Seq<Vec<Option<u32>>>) -> Seq<NodeModel> {
    Seq::new(
        adjacency.len(),
        |i: int|
            NodeModel {
                id: i as u32,
                node_status: NodeStatus::Free,
                neighbors: adjacency[i]@,
                roads: None,
                harbor: None,
                settlement: None,
                city: None,
                coords_conc: None,
            },
    )
}

/// The tiles of a board with the given corners, dice sums and resources.
pub open spec fn bare_tiles(
    corners: Seq<Vec<u32>>,
    sums: Seq<Option<u32>>,
    resources: Seq<Option<u32>>,
) -> Seq<TileModel> {
    Seq::new(
        corners.len(),
        |t: int| TileModel { id: t as u32, nodes: corners[t]@, rng: sums[t], resource: resources[t] },
    )
}

/// The nodes after the first `count` of `harbors` were placed one after
/// another, or the error of the first harbor that could not be placed.
pub open spec fn harbors_placed(nodes: Seq<NodeModel>, harbors: Seq<Harbor>, count: int) -> Result<
    Seq<NodeModel>,
    PlacementError,
>
    decreases count,
{
    if count <= 0 {
        Ok(nodes)
    } else {
        match harbors_placed(nodes, harbors, count - 1) {
            Ok(before) => {
                let harbor = harbors[count - 1];
                if before[harbor.nodes.0 as int].harbor is Some
                    || before[harbor.nodes.1 as int].harbor is Some {
                    Err(PlacementError::HarborOverlap)
                } else {
                    Ok(with_harbor(before, harbor))
                }
            },
            Err(e) => Err(e),
        }
    }
}

/// The nodes after the first `count` of `settlements` were placed one after
/// another, or the error of the first that could not be placed.
pub open spec fn settlements_placed(
    nodes: Seq<NodeModel>,
    settlements: Seq<BuildingModel>,
    count: int,
) -> Result<Seq<NodeModel>, PlacementError>
    decreases count,
{
    if count <= 0 {
        Ok(nodes)
    } else {
        match settlements_placed(nodes, settlements, count - 1) {
            Ok(before) => {
                let settlement = settlements[count - 1];
                match settlement_refusal(before[settlement.node_id as int].node_status) {
                    Some(e) => Err(e),
                    None => Ok(with_settlement(before, settlement)),
                }
            },
            Err(e) => Err(e),
        }
    }
}

/// The nodes after the first `count` of `cities` were placed one after
/// another, or the error of the first that could not be placed.
pub open spec fn cities_placed(nodes: Seq<NodeModel>, cities: Seq<BuildingModel>, count: int) -> Result<
    Seq<NodeModel>,
    PlacementError,
>
    decreases count,
{
    if count <= 0 {
        Ok(nodes)
    } else {
        match cities_placed(nodes, cities, count - 1) {
            Ok(before) => {
                let city = cities[count - 1];
                match city_refusal(before[city.node_id as int].node_status, city.player_id) {
                    Some(e) => Err(e),
                    None => Ok(with_city(before, city)),
                }
            },
            Err(e) => Err(e),
        }
    }
}

/// The nodes after the first `count` of `roads` were placed one after
/// another, or the error of the first that could not be placed.
pub open spec fn roads_placed(nodes: Seq<NodeModel>, roads: Seq<Road>, count: int) -> Result<
    Seq<NodeModel>,
    PlacementError,
>
    decreases count,
{
    if count <= 0 {
        Ok(nodes)
    } else {
        match roads_placed(nodes, roads, count - 1) {
            Ok(before) => {
                let road = roads[count - 1];
                if road_refused(before, road.nodes.0, road.nodes.1) {
                    Err(PlacementError::RoadOnRoad)
                } else {
                    Ok(with_road_between(before, road))
                }
            },
            Err(e) => Err(e),
        }
    }
}

/// The list, or the empty list where there is none.
pub open spec fn listed<T>(list: Option<Seq<T>>) -> Seq<T> {
    match list {
        Some(items) => items,
        None => Seq::empty(),
    }
}

/// The nodes of the initial position: on the empty board the harbors are
/// placed, then the settlements, the cities and the roads, each list in its
/// order; the first piece that cannot be placed ends the set-up with its
/// error.
pub open spec fn initial_nodes(parameters: &GameParameters) -> Result<Seq<NodeModel>, PlacementError> {
    let harbors = listed(parameters.init_harbors.deep_view());
    let settlements = listed(parameters.init_settlements.deep_view());
    let cities = listed(parameters.init_cities.deep_view());
    let roads = listed(parameters.init_roads.deep_view());
    match harbors_placed(bare_nodes(parameters.node_adjacency@), harbors, harbors.len() as int) {
        Ok(with_harbors) => match settlements_placed(
            with_harbors,
            settlements,
            settlements.len() as int,
        ) {
            Ok(with_settlements) => match cities_placed(
                with_settlements,
                cities,
                cities.len() as int,
            ) {
                Ok(with_cities) => roads_placed(with_cities, roads, roads.len() as int),
                Err(e) => Err(e),
            },
            Err(e) => Err(e),
        },
        Err(e) => Err(e),
    }
}

/// The first of the first `count` tiles that shows no dice sum, or tile 0
/// where every tile shows one.
pub open spec fn first_bare_tile(sums: Seq<Option<u32>>, count: int) -> u32
    decreases count,
{
    if count <= 0 {
        0
    } else if exists|t: int| 0 <= t < count - 1 && (#[trigger] sums[t]) is None {
        first_bare_tile(sums, count - 1)
    } else if sums[count - 1] is None {
        (count - 1) as u32
    } else {
        0
    }
}

/// The table, or a table of zeros of the given dimensions where there is
/// none.
pub open spec fn table_or_zeros(table: Option<Seq<Seq<u32>>>, rows: nat, columns: nat) -> Seq<
    Seq<u32>,
> {
    match table {
        Some(t) => t,
        None => zeros(rows, columns),
    }
}

/// The second entry of every row: the knights that each player has shown.
pub open spec fn knights_shown(cards: Seq<Seq<u32>>) -> Seq<u32> {
    Seq::new(cards.len(), |p: int| cards[p][1])
}

/// The board of the initial position with the given nodes: the tiles as
/// the parameters lay them out, the robbers where the parameters put them
/// or one robber on the first tile without a dice sum, the tables of the
/// parameters or tables of zeros, every player's longest route and score
/// counted, and the dice not yet thrown.
pub open spec fn initial_board(parameters: &GameParameters, nodes: Seq<NodeModel>) -> BoardModel {
    let players = parameters.n_players as nat;
    let resources = parameters.n_resources as nat;
    let public_dev_cards = table_or_zeros(
        parameters.init_public_dev_cards.deep_view(),
        players,
        N_CARD_KINDS as nat,
    );
    let counted = BoardModel {
        nodes,
        tiles: bare_tiles(
            parameters.tile_nodes@,
            parameters.init_tile_rng@,
            parameters.v_tile_resources@,
        ),
        v_robbers: match parameters.init_v_robber {
            Some(robbers) => robbers@,
            None => seq![
                first_bare_tile(parameters.init_tile_rng@, parameters.init_tile_rng.len() as int),
            ],
        },
        roads: match parameters.init_roads {
            Some(r) => Some(r@),
            None => None,
        },
        harbors: match parameters.init_harbors {
            Some(h) => Some(h@),
            None => None,
        },
        tile_rng: parameters.init_tile_rng@,
        budgets: table_or_zeros(parameters.init_budgets.deep_view(), players, resources),
        public_budgets: table_or_zeros(
            parameters.init_public_budgets.deep_view(),
            players,
            resources,
        ),
        total_drawn_resources: table_or_zeros(
            parameters.init_total_drawn_resources.deep_view(),
            players,
            resources,
        ),
        undrawn_dev_cards: parameters.init_undrawn_dev_cards@,
        drawn_dev_cards: table_or_zeros(
            parameters.init_drawn_dev_cards.deep_view(),
            players,
            N_CARD_KINDS as nat,
        ),
        public_dev_cards,
        longest_roads: match parameters.init_roads {
            Some(r) => Some(road_lengths(r@, players as int)),
            None => None,
        },
        prev_longest_road: parameters.init_longest_road,
        armies: knights_shown(public_dev_cards),
        prev_largest_army: parameters.init_largest_army,
        scores: Seq::empty(),
        public_scores: Seq::empty(),
        dice: Dice {
            n_dice: parameters.n_dice,
            n_faces: parameters.n_faces,
            seed: parameters.dice_seed,
            n_throws: 0,
            draw: None,
        },
        dice_outcome: None,
    };
    BoardModel {
        scores: scores_of(counted, counted.drawn_dev_cards, players as int),
        public_scores: scores_of(counted, counted.public_dev_cards, players as int),
        ..counted
    }
}

/// A copy of a list of plain values.
pub fn copy_vec<T: Copy>(list: &Vec<T>) -> (copy: Vec<T>)
    ensures
        copy@ == list@,
{
    let mut copy: Vec<T> = Vec::new();
    let mut i: usize = 0;
    while i < list.len()
        invariant
            i <= list.len(),
            copy@ == list@.take(i as int),
        decreases list.len() - i,
    {
        copy.push(list[i]);
        i = i + 1;
        assert(copy@ =~= list@.take(i as int));
    }
    assert(list@.take(list.len() as int) =~= list@);
    copy
}

/// A copy of an optional name.
pub fn copy_name(name: &Option<String>) -> (copy: Option<String>)
    ensures
        copy.deep_view() == name.deep_view(),
{
    match name {
        Some(text) => Some(text.clone()),
        None => None,
    }
}

/// A copy of a table, or a table of zeros where there is none.
fn table_or_zero(table: &Option<Vec<Vec<u32>>>, rows: usize, columns: usize) -> (copy: Vec<Vec<u32>>)
    ensures
        copy.deep_view() == table_or_zeros(table.deep_view(), rows as nat, columns as nat),
{
    match table {
        Some(t) => clone_table(t),
        None => zero_table(rows, columns),
    }
}

/// The nodes of an empty board with the given neighbours.
fn make_nodes(adjacency: &Vec<Vec<Option<u32>>>) -> (nodes: Vec<Node>)
    requires
        adjacency.len() <= u32::MAX,
    ensures
        nodes.deep_view() == bare_nodes(adjacency@),
{
    let mut nodes: Vec<Node> = Vec::new();
    let mut i: usize = 0;
    while i < adjacency.len()
        invariant
            i <= adjacency.len() <= u32::MAX,
            nodes.len() == i,
            forall|k: int| 0 <= k < i ==> (#[trigger] nodes[k]).deep_view() == bare_nodes(adjacency@)[k],
        decreases adjacency.len() - i,
    {
        let node = Node {
            id: i as u32,
            node_status: NodeStatus::Free,
            neighbors: copy_vec(&adjacency[i]),
            roads: None,
            harbor: None,
            settlement: None,
            city: None,
            coords_conc: None,
        };
        nodes.push(node);
        i = i + 1;
    }
    assert(nodes.deep_view() =~= bare_nodes(adjacency@));
    nodes
}

/// The tiles of a board with the given corners, dice sums and resources.
fn make_tiles(
    corners: &Vec<Vec<u32>>,
    sums: &Vec<Option<u32>>,
    resources: &Vec<Option<u32>>,
) -> (tiles: Vec<Tile>)
    requires
        corners.len() <= u32::MAX,
        sums.len() == corners.len(),
        resources.len() == corners.len(),
    ensures
        tiles.deep_view() == bare_tiles(corners@, sums@, resources@),
{
    let mut tiles: Vec<Tile> = Vec::new();
    let mut t: usize = 0;
    while t < corners.len()
        invariant
            t <= corners.len() <= u32::MAX,
            sums.len() == corners.len(),
            resources.len() == corners.len(),
            tiles.len() == t,
            forall|k: int|
                0 <= k < t ==> (#[trigger] tiles[k]).deep_view() == bare_tiles(
                    corners@,
                    sums@,
                    resources@,
                )[k],
        decreases corners.len() - t,
    {
        let tile = Tile {
            id: t as u32,
            nodes: copy_vec(&corners[t]),
            rng: sums[t],
            resource: resources[t],
        };
        tiles.push(tile);
        t = t + 1;
    }
    assert(tiles.deep_view() =~= bare_tiles(corners@, sums@, resources@));
    tiles
}

/// The first tile that shows no dice sum, or tile 0.
fn find_bare_tile(sums: &Vec<Option<u32>>) -> (tile: u32)
    requires
        sums.len() <= u32::MAX,
    ensures
        tile == first_bare_tile(sums@, sums.len() as int),
        sums.len() > 0 ==> tile < sums.len(),
{
    let mut found: Option<u32> = None;
    let mut t: usize = 0;
    while t < sums.len()
        invariant
            t <= sums.len() <= u32::MAX,
            match found {
                Some(tile) => tile < t && tile == first_bare_tile(sums@, t as int) && exists|k: int|
                    0 <= k < t && (#[trigger] sums[k]) is None,
                None => first_bare_tile(sums@, t as int) == 0 && forall|k: int|
                    0 <= k < t ==> (#[trigger] sums[k]) is Some,
            },
        decreases sums.len() - t,
    {
        if found.is_none() && sums[t].is_none() {
            found = Some(t as u32);
        }
        proof {
            if exists|k: int| 0 <= k < t && (#[trigger] sums[k]) is None {
                let k = choose|k: int| 0 <= k < t && (#[trigger] sums[k]) is None;
                assert(0 <= k < t + 1 && sums[k] is None);
            }
            if found is Some && !(exists|k: int| 0 <= k < t && (#[trigger] sums[k]) is None) {
                assert(sums[t as int] is None);
            }
        }
        t = t + 1;
    }
    match found {
        Some(tile) => tile,
        None => 0,
    }
}

/// Places the harbors one after another.
fn place_harbors(nodes: &mut Vec<Node>, harbors: &Vec<Harbor>) -> (result: Result<
    (),
    PlacementError,
>)
    requires
        nodes_wf(old(nodes).deep_view()),
        forall|h: int|
            0 <= h < harbors.len() ==> (#[trigger] harbors[h]).nodes.0 < old(nodes).len()
                && harbors[h].nodes.1 < old(nodes).len(),
    ensures
        final(nodes).len() == old(nodes).len(),
        nodes_wf(final(nodes).deep_view()),
        match result {
            Ok(()) => harbors_placed(old(nodes).deep_view(), harbors@, harbors.len() as int) == Ok::<
                Seq<NodeModel>,
                PlacementError,
            >(final(nodes).deep_view()),
            Err(e) => harbors_placed(old(nodes).deep_view(), harbors@, harbors.len() as int)
                == Err::<Seq<NodeModel>, PlacementError>(e),
        },
        forall|i: int|
            0 <= i < old(nodes).len() ==> (#[trigger] final(nodes).deep_view()[i]).node_status
                == old(nodes).deep_view()[i].node_status,
{
    let ghost start = nodes.deep_view();
    let mut h: usize = 0;
    while h < harbors.len()
        invariant
            h <= harbors.len(),
            nodes.len() == start.len(),
            start == old(nodes).deep_view(),
            nodes_wf(nodes.deep_view()),
            forall|k: int|
                0 <= k < harbors.len() ==> (#[trigger] harbors[k]).nodes.0 < start.len()
                    && harbors[k].nodes.1 < start.len(),
            harbors_placed(start, harbors@, h as int) == Ok::<Seq<NodeModel>, PlacementError>(
                nodes.deep_view(),
            ),
            forall|i: int|
                0 <= i < start.len() ==> (#[trigger] nodes.deep_view()[i]).node_status
                    == start[i].node_status,
        decreases harbors.len() - h,
    {
        let ghost before = nodes.deep_view();
        assert(before[harbors[h as int].nodes.0 as int]
            == nodes[harbors[h as int].nodes.0 as int].deep_view());
        assert(before[harbors[h as int].nodes.1 as int]
            == nodes[harbors[h as int].nodes.1 as int].deep_view());
        match harbors[h].place(nodes) {
            Ok(()) => {},
            Err(e) => {
                proof {
                    lemma_harbors_fail(start, harbors@, h + 1, harbors.len() as int);
                }
                return Err(e);
            },
        }
        h = h + 1;
    }
    Ok(())
}

/// Once a harbor cannot be placed, no longer list of harbors can be.
pub proof fn lemma_harbors_fail(nodes: Seq<NodeModel>, harbors: Seq<Harbor>, failed: int, count: int)
    requires
        harbors_placed(nodes, harbors, failed) is Err,
        failed <= count,
    ensures
        harbors_placed(nodes, harbors, count) == harbors_placed(nodes, harbors, failed),
    decreases count - failed,
{
    if failed < count {
        lemma_harbors_fail(nodes, harbors, failed, count - 1);
    }
}

/// Once a settlement cannot be placed, no longer list of settlements can
/// be.
pub proof fn lemma_settlements_fail(
    nodes: Seq<NodeModel>,
    settlements: Seq<BuildingModel>,
    failed: int,
    count: int,
)
    requires
        settlements_placed(nodes, settlements, failed) is Err,
        failed <= count,
    ensures
        settlements_placed(nodes, settlements, count) == settlements_placed(
            nodes,
            settlements,
            failed,
        ),
    decreases count - failed,
{
    if failed < count {
        lemma_settlements_fail(nodes, settlements, failed, count - 1);
    }
}

/// Once a city cannot be placed, no longer list of cities can be.
pub proof fn lemma_cities_fail(
    nodes: Seq<NodeModel>,
    cities: Seq<BuildingModel>,
    failed: int,
    count: int,
)
    requires
        cities_placed(nodes, cities, failed) is Err,
        failed <= count,
    ensures
        cities_placed(nodes, cities, count) == cities_placed(nodes, cities, failed),
    decreases count - failed,
{
    if failed < count {
        lemma_cities_fail(nodes, cities, failed, count - 1);
    }
}

/// Once a road cannot be placed, no longer list of roads can be.
pub proof fn lemma_roads_fail(nodes: Seq<NodeModel>, roads: Seq<Road>, failed: int, count: int)
    requires
        roads_placed(nodes, roads, failed) is Err,
        failed <= count,
    ensures
        roads_placed(nodes, roads, count) == roads_placed(nodes, roads, failed),
    decreases count - failed,
{
    if failed < count {
        lemma_roads_fail(nodes, roads, failed, count - 1);
    }
}

/// Whether every builder on the nodes is one of the first `players`
/// players.
pub open spec fn owners_below(nodes: Seq<NodeModel>, players: int) -> bool {
    forall|i: int|
        0 <= i < nodes.len() ==> match (#[trigger] nodes[i]).node_status.owner() {
            Some(owner) => owner < players,
            None => true,
        }
}

/// Places the settlements one after another.
fn place_settlements(nodes: &mut Vec<Node>, settlements: &Vec<Settlement>, Ghost(players): Ghost<
    int,
>) -> (result: Result<(), PlacementError>)
    requires
        nodes_wf(old(nodes).deep_view()),
        owners_below(old(nodes).deep_view(), players),
        forall|s: int|
            0 <= s < settlements.len() ==> (#[trigger] settlements[s]).node_id < old(nodes).len()
                && settlements[s].player_id < players,
    ensures
        final(nodes).len() == old(nodes).len(),
        nodes_wf(final(nodes).deep_view()),
        owners_below(final(nodes).deep_view(), players),
        match result {
            Ok(()) => settlements_placed(
                old(nodes).deep_view(),
                settlements.deep_view(),
                settlements.len() as int,
            ) == Ok::<Seq<NodeModel>, PlacementError>(final(nodes).deep_view()),
            Err(e) => settlements_placed(
                old(nodes).deep_view(),
                settlements.deep_view(),
                settlements.len() as int,
            ) == Err::<Seq<NodeModel>, PlacementError>(e),
        },
{
    let ghost start = nodes.deep_view();
    let ghost models = settlements.deep_view();
    let mut s: usize = 0;
    while s < settlements.len()
        invariant
            s <= settlements.len(),
            models == settlements.deep_view(),
            nodes.len() == start.len(),
            start == old(nodes).deep_view(),
            nodes_wf(nodes.deep_view()),
            owners_below(nodes.deep_view(), players),
            forall|k: int|
                0 <= k < settlements.len() ==> (#[trigger] settlements[k]).node_id < start.len()
                    && settlements[k].player_id < players,
            settlements_placed(start, models, s as int) == Ok::<Seq<NodeModel>, PlacementError>(
                nodes.deep_view(),
            ),
        decreases settlements.len() - s,
    {
        let ghost before = nodes.deep_view();
        let given = &settlements[s];
        assert(models[s as int] == given.deep_view());
        assert(before[given.node_id as int] == nodes[given.node_id as int].deep_view());
        let settlement = Settlement {
            name: copy_name(&given.name),
            node_id: given.node_id,
            player_id: given.player_id,
        };
        assert(settlement.deep_view() == models[s as int]);
        match settlement.place(nodes) {
            Ok(()) => {
                proof {
                    lemma_building_keeps_owners(
                        before,
                        nodes.deep_view(),
                        given.node_id as int,
                        players,
                    );
                }
            },
            Err(e) => {
                proof {
                    lemma_settlements_fail(start, models, s + 1, settlements.len() as int);
                }
                return Err(e);
            },
        }
        s = s + 1;
    }
    Ok(())
}

/// Places the cities one after another.
fn place_cities(nodes: &mut Vec<Node>, cities: &Vec<City>, Ghost(players): Ghost<int>) -> (result:
    Result<(), PlacementError>)
    requires
        nodes_wf(old(nodes).deep_view()),
        owners_below(old(nodes).deep_view(), players),
        forall|c: int|
            0 <= c < cities.len() ==> (#[trigger] cities[c]).node_id < old(nodes).len()
                && cities[c].player_id < players,
    ensures
        final(nodes).len() == old(nodes).len(),
        nodes_wf(final(nodes).deep_view()),
        owners_below(final(nodes).deep_view(), players),
        match result {
            Ok(()) => cities_placed(old(nodes).deep_view(), cities.deep_view(), cities.len() as int)
                == Ok::<Seq<NodeModel>, PlacementError>(final(nodes).deep_view()),
            Err(e) => cities_placed(old(nodes).deep_view(), cities.deep_view(), cities.len() as int)
                == Err::<Seq<NodeModel>, PlacementError>(e),
        },
{
    let ghost start = nodes.deep_view();
    let ghost models = cities.deep_view();
    let mut c: usize = 0;
    while c < cities.len()
        invariant
            c <= cities.len(),
            models == cities.deep_view(),
            nodes.len() == start.len(),
            start == old(nodes).deep_view(),
            nodes_wf(nodes.deep_view()),
            owners_below(nodes.deep_view(), players),
            forall|k: int|
                0 <= k < cities.len() ==> (#[trigger] cities[k]).node_id < start.len()
                    && cities[k].player_id < players,
            cities_placed(start, models, c as int) == Ok::<Seq<NodeModel>, PlacementError>(
                nodes.deep_view(),
            ),
        decreases cities.len() - c,
    {
        let ghost before = nodes.deep_view();
        let given = &cities[c];
        assert(models[c as int] == given.deep_view());
        assert(before[given.node_id as int] == nodes[given.node_id as int].deep_view());
        let city = City {
            name: copy_name(&given.name),
            node_id: given.node_id,
            player_id: given.player_id,
        };
        assert(city.deep_view() == models[c as int]);
        match city.place(nodes) {
            Ok(()) => {
                proof {
                    lemma_building_keeps_owners(
                        before,
                        nodes.deep_view(),
                        given.node_id as int,
                        players,
                    );
                }
            },
            Err(e) => {
                proof {
                    lemma_cities_fail(start, models, c + 1, cities.len() as int);
                }
                return Err(e);
            },
        }
        c = c + 1;
    }
    Ok(())
}

/// Places the roads one after another.
fn place_roads(nodes: &mut Vec<Node>, roads: &Vec<Road>, Ghost(players): Ghost<int>) -> (result:
    Result<(), PlacementError>)
    requires
        nodes_wf(old(nodes).deep_view()),
        owners_below(old(nodes).deep_view(), players),
        forall|r: int|
            0 <= r < roads.len() ==> (#[trigger] roads[r]).nodes.0 < old(nodes).len()
                && roads[r].nodes.1 < old(nodes).len(),
    ensures
        final(nodes).len() == old(nodes).len(),
        nodes_wf(final(nodes).deep_view()),
        owners_below(final(nodes).deep_view(), players),
        match result {
            Ok(()) => roads_placed(old(nodes).deep_view(), roads@, roads.len() as int) == Ok::<
                Seq<NodeModel>,
                PlacementError,
            >(final(nodes).deep_view()),
            Err(e) => roads_placed(old(nodes).deep_view(), roads@, roads.len() as int) == Err::<
                Seq<NodeModel>,
                PlacementError,
            >(e),
        },
{
    let ghost start = nodes.deep_view();
    let mut r: usize = 0;
    while r < roads.len()
        invariant
            r <= roads.len(),
            nodes.len() == start.len(),
            start == old(nodes).deep_view(),
            nodes_wf(nodes.deep_view()),
            owners_below(nodes.deep_view(), players),
            forall|k: int|
                0 <= k < roads.len() ==> (#[trigger] roads[k]).nodes.0 < start.len()
                    && roads[k].nodes.1 < start.len(),
            roads_placed(start, roads@, r as int) == Ok::<Seq<NodeModel>, PlacementError>(
                nodes.deep_view(),
            ),
        decreases roads.len() - r,
    {
        let ghost before = nodes.deep_view();
        match roads[r].place(nodes) {
            Ok(()) => {
                proof {
                    let after = nodes.deep_view();
                    assert forall|i: int| 0 <= i < after.len() implies match (#[trigger] after[i]).node_status.owner() {
                        Some(owner) => owner < players,
                        None => true,
                    } by {
                        assert(after[i].node_status == before[i].node_status);
                    }
                }
            },
            Err(e) => {
                proof {
                    lemma_roads_fail(start, roads@, r + 1, roads.len() as int);
                }
                return Err(e);
            },
        }
        r = r + 1;
    }
    Ok(())
}

/// The longest route length of each player.
pub fn measure_roads(roads: &Vec<Road>, n_players: u32) -> (lengths: Vec<u32>)
    ensures
        lengths@ == road_lengths(roads@, n_players as int),
{
    let mut lengths: Vec<u32> = Vec::new();
    let mut p: u32 = 0;
    while p < n_players
        invariant
            p <= n_players,
            lengths.len() == p,
            forall|k: int|
                0 <= k < p ==> lengths[k]
                    == crate::backend::round::longest_road::longest_road_length(roads@, k as u32),
        decreases n_players - p,
    {
        lengths.push(get_longest_road(p, roads));
        p = p + 1;
    }
    assert(lengths@ =~= road_lengths(roads@, n_players as int));
    lengths
}

/// The knights that each player has shown.
fn count_knights(cards: &Vec<Vec<u32>>) -> (armies: Vec<u32>)
    requires
        forall|p: int| 0 <= p < cards.len() ==> (#[trigger] cards[p]).len() == N_CARD_KINDS,
    ensures
        armies@ == knights_shown(cards.deep_view()),
{
    let mut armies: Vec<u32> = Vec::new();
    let mut p: usize = 0;
    while p < cards.len()
        invariant
            p <= cards.len(),
            armies.len() == p,
            forall|p: int| 0 <= p < cards.len() ==> (#[trigger] cards[p]).len() == N_CARD_KINDS,
            forall|k: int| 0 <= k < p ==> armies[k] == cards[k][1],
        decreases cards.len() - p,
    {
        armies.push(cards[p][1]);
        p = p + 1;
    }
    assert(armies@ =~= knights_shown(cards.deep_view()));
    armies
}

impl Board {
    /// The score of every player, as it is and as the others know it.
    pub fn count_scores(&self, n_players: u32) -> (scores: (Vec<u32>, Vec<u32>))
        requires
            self.nodes.len() <= u32::MAX,
            table_dims(self.drawn_dev_cards.deep_view(), n_players as int, N_CARD_KINDS as int),
            table_dims(self.public_dev_cards.deep_view(), n_players as int, N_CARD_KINDS as int),
            self.longest_roads matches Some(lengths) ==> lengths.len() == n_players,
            self.armies.len() == n_players,
        ensures
            scores.0@ == scores_of(
                self.deep_view(),
                self.deep_view().drawn_dev_cards,
                n_players as int,
            ),
            scores.1@ == scores_of(
                self.deep_view(),
                self.deep_view().public_dev_cards,
                n_players as int,
            ),
    {
        let ghost model = self.deep_view();
        let mut scores: Vec<u32> = Vec::new();
        let mut public_scores: Vec<u32> = Vec::new();
        let mut p: u32 = 0;
        while p < n_players
            invariant
                p <= n_players,
                model == self.deep_view(),
                self.nodes.len() <= u32::MAX,
                table_dims(model.drawn_dev_cards, n_players as int, N_CARD_KINDS as int),
                table_dims(model.public_dev_cards, n_players as int, N_CARD_KINDS as int),
                self.longest_roads matches Some(lengths) ==> lengths.len() == n_players,
                self.armies.len() == n_players,
                scores.len() == p,
                public_scores.len() == p,
                forall|k: int|
                    0 <= k < p ==> scores[k] == scores_of(
                        model,
                        model.drawn_dev_cards,
                        n_players as int,
                    )[k],
                forall|k: int|
                    0 <= k < p ==> public_scores[k] == scores_of(
                        model,
                        model.public_dev_cards,
                        n_players as int,
                    )[k],
            decreases n_players - p,
        {
            assert(model.drawn_dev_cards[p as int] == self.drawn_dev_cards[p as int]@);
            assert(model.public_dev_cards[p as int] == self.public_dev_cards[p as int]@);
            assert(model.drawn_dev_cards[p as int].len() == 5);
            assert(model.public_dev_cards[p as int].len() == 5);
            assert(self.longest_roads.deep_view() =~= model.longest_roads) by {
                if self.longest_roads is Some {
                    assert(self.longest_roads->0.deep_view() =~= self.longest_roads->0@);
                }
            }
            scores.push(
                get_score(
                    p,
                    &self.nodes,
                    &self.drawn_dev_cards,
                    &self.longest_roads,
                    &self.prev_longest_road,
                    &self.armies,
                    &self.prev_largest_army,
                ),
            );
            public_scores.push(
                get_public_score(
                    p,
                    &self.nodes,
                    &self.public_dev_cards,
                    &self.longest_roads,
                    &self.prev_longest_road,
                    &self.armies,
                    &self.prev_largest_army,
                ),
            );
            p = p + 1;
        }
        assert(scores@ =~= scores_of(model, model.drawn_dev_cards, n_players as int));
        assert(public_scores@ =~= scores_of(model, model.public_dev_cards, n_players as int));
        (scores, public_scores)
    }

    /// The nodes of the initial position.
    fn initial_nodes(parameters: &GameParameters) -> (result: Result<Vec<Node>, PlacementError>)
        requires
            parameters.board_wf(),
        ensures
            match result {
                Ok(nodes) => {
                    &&& initial_nodes(parameters) == Ok::<Seq<NodeModel>, PlacementError>(
                        nodes.deep_view(),
                    )
                    &&& nodes_wf(nodes.deep_view())
                    &&& owners_below(nodes.deep_view(), parameters.n_players as int)
                    &&& nodes.len() == parameters.node_adjacency.len()
                },
                Err(e) => initial_nodes(parameters) == Err::<Seq<NodeModel>, PlacementError>(e),
            },
    {
        let ghost players = parameters.n_players as int;
        proof {
            assert(crate::backend::setup::shape::node_count(parameters.n_tile_rings as int)
                <= u32::MAX) by (nonlinear_arith)
                requires
                    1 <= parameters.n_tile_rings <= 26754,
            ;
        }
        let mut nodes = make_nodes(&parameters.node_adjacency);
        let ghost bare = nodes.deep_view();
        assert(nodes_wf(bare)) by {
            assert forall|i: int, j: int|
                0 <= i < bare.len() && 0 <= j < bare[i].neighbors.len() implies match #[trigger] bare[i].neighbors[j] {
                Some(n) => n < bare.len(),
                None => true,
            } by {
                assert(bare[i].neighbors[j] == parameters.node_adjacency[i][j]);
            }
        }
        let ghost harbors = listed(parameters.init_harbors.deep_view());
        match &parameters.init_harbors {
            Some(list) => {
                assert(list.deep_view() =~= list@);
                match place_harbors(&mut nodes, list) {
                    Ok(()) => {},
                    Err(e) => {
                        return Err(e);
                    },
                }
            },
            None => {},
        }
        let ghost with_harbors = nodes.deep_view();
        assert(harbors_placed(bare, harbors, harbors.len() as int) == Ok::<
            Seq<NodeModel>,
            PlacementError,
        >(with_harbors));
        assert(owners_below(with_harbors, players)) by {
            assert forall|i: int| 0 <= i < with_harbors.len() implies match (#[trigger] with_harbors[i]).node_status.owner() {
                Some(owner) => owner < players,
                None => true,
            } by {
                if parameters.init_harbors is Some {
                    assert(with_harbors[i].node_status == bare[i].node_status);
                }
            }
        }
        match &parameters.init_settlements {
            Some(list) => {
                match place_settlements(&mut nodes, list, Ghost(players)) {
                    Ok(()) => {},
                    Err(e) => {
                        return Err(e);
                    },
                }
            },
            None => {},
        }
        match &parameters.init_cities {
            Some(list) => {
                match place_cities(&mut nodes, list, Ghost(players)) {
                    Ok(()) => {},
                    Err(e) => {
                        return Err(e);
                    },
                }
            },
            None => {},
        }
        match &parameters.init_roads {
            Some(list) => {
                assert(list.deep_view() =~= list@);
                match place_roads(&mut nodes, list, Ghost(players)) {
                    Ok(()) => {},
                    Err(e) => {
                        return Err(e);
                    },
                }
            },
            None => {},
        }
        Ok(nodes)
    }

    /// The board of the initial position that the parameters describe. The
    /// pieces of the initial position are placed by the rules of placement;
    /// the first piece that cannot be placed ends the set-up with its error.
    pub fn new(parameters: &GameParameters) -> (result: Result<Board, PlacementError>)
        requires
            parameters.board_wf(),
        ensures
            match result {
                Ok(board) => {
                    &&& initial_nodes(parameters) is Ok
                    &&& board.deep_view() == initial_board(parameters, initial_nodes(parameters)->Ok_0)
                    &&& board.deep_view().wf(parameters)
                },
                Err(e) => initial_nodes(parameters) == Err::<Seq<NodeModel>, PlacementError>(e),
            },
    {
        let n_players = parameters.n_players as usize;
        let n_resources = parameters.n_resources as usize;
        let n_nodes = get_n_node(parameters.n_tile_rings, &parameters.tile_shape);
        let n_tiles = get_n_tiles(parameters.n_tile_rings, &parameters.tile_shape);
        let nodes = match Board::initial_nodes(parameters) {
            Ok(nodes) => nodes,
            Err(e) => {
                return Err(e);
            },
        };
        let tiles = make_tiles(
            &parameters.tile_nodes,
            &parameters.init_tile_rng,
            &parameters.v_tile_resources,
        );
        let v_robbers = match &parameters.init_v_robber {
            Some(robbers) => copy_vec(robbers),
            None => {
                let mut robbers: Vec<u32> = Vec::new();
                robbers.push(find_bare_tile(&parameters.init_tile_rng));
                robbers
            },
        };
        let roads = match &parameters.init_roads {
            Some(list) => Some(copy_vec(list)),
            None => None,
        };
        let harbors = match &parameters.init_harbors {
            Some(list) => Some(copy_vec(list)),
            None => None,
        };
        let longest_roads = match &parameters.init_roads {
            Some(list) => Some(measure_roads(list, parameters.n_players)),
            None => None,
        };
        let public_dev_cards = table_or_zero(&parameters.init_public_dev_cards, n_players, N_CARD_KINDS);
        proof {
            assert forall|p: int| 0 <= p < public_dev_cards.len() implies (
            #[trigger] public_dev_cards[p]).len() == N_CARD_KINDS by {
                assert(public_dev_cards.deep_view()[p] =~= public_dev_cards[p]@);
            }
        }
        let armies = count_knights(&public_dev_cards);
        let mut board = Board {
            nodes,
            tiles,
            v_robbers,
            roads,
            harbors,
            tile_rng: copy_vec(&parameters.init_tile_rng),
            budgets: table_or_zero(&parameters.init_budgets, n_players, n_resources),
            public_budgets: table_or_zero(&parameters.init_public_budgets, n_players, n_resources),
            total_drawn_resources: table_or_zero(
                &parameters.init_total_drawn_resources,
                n_players,
                n_resources,
            ),
            undrawn_dev_cards: copy_vec(&parameters.init_undrawn_dev_cards),
            drawn_dev_cards: table_or_zero(&parameters.init_drawn_dev_cards, n_players, N_CARD_KINDS),
            public_dev_cards,
            longest_roads,
            prev_longest_road: parameters.init_longest_road,
            armies,
            prev_largest_army: parameters.init_largest_army,
            scores: Vec::new(),
            public_scores: Vec::new(),
            dice: Dice::new(parameters.n_dice, parameters.n_faces, parameters.dice_seed),
            dice_outcome: None,
        };
        let ghost counted = board.deep_view();
        let (scores, public_scores) = board.count_scores(parameters.n_players);
        board.scores = scores;
        board.public_scores = public_scores;
        proof {
            let model = board.deep_view();
            let goal = initial_board(parameters, initial_nodes(parameters)->Ok_0);
            assert(counted.scores =~= Seq::<u32>::empty());
            assert(counted.public_scores =~= Seq::<u32>::empty());
            assert(model == goal);
            assert forall|t: int, c: int|
                0 <= t < model.tiles.len() && 0 <= c < model.tiles[t].nodes.len()
                    implies #[trigger] model.tiles[t].nodes[c] < model.nodes.len() by {
                assert(model.tiles[t].nodes[c] == parameters.tile_nodes[t][c]);
            }
            assert forall|t: int| 0 <= t < model.tiles.len() implies match (#[trigger] model.tiles[t]).resource {
                Some(r) => r < parameters.n_resources,
                None => true,
            } by {
                assert(model.tiles[t].resource == parameters.v_tile_resources[t]);
            }
        }
        Ok(board)
    }
}

} // verus!
