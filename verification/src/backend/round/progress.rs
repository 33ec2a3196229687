use vstd::prelude::*;
use crate::backend::round::action::ActionModel;
use crate::backend::round::cards::CardType;
use crate::backend::round::phase::next_turn;
use crate::backend::round::round_struct::RoundModel;
use crate::backend::round::rules::{
    accepts, applied, dice_thrown, lemma_production_is_private, limits_of, played, recorded,
    refreshed, refusal, robber_played, same_edge, turn_of, with_board, with_turn,
};
use crate::backend::setup::board::{
    bare_nodes, cities_placed, harbors_placed, initial_nodes, listed, roads_placed,
    settlements_placed, BoardModel,
};
use crate::backend::setup::city::{city_refusal, lemma_city_moves_status_forward, with_city};
use crate::backend::setup::game::GameModel;
use crate::backend::setup::game_parameters::GameParameters;
use crate::backend::setup::harbor::{with_harbor, Harbor};
use crate::backend::setup::node::{names_among, nodes_wf, NodeModel};
use crate::backend::setup::node_status::NodeStatus;
use crate::backend::setup::road::{
    lemma_road_keeps_roads_mirrored, lemma_road_keeps_roads_single, road_refused,
    roads_mirrored, roads_single, with_road_between, Road,
};
use crate::backend::setup::settlement::{
    lemma_settlement_moves_status_forward, settlement_refusal, with_settlement, BuildingModel,
};
use crate::backend::setup::shape::{adjacency_model, hex_adjacency, MAX_TILE_RINGS};
use crate::backend::setup::topology::{lemma_hex_adjacency_is_simple, names};

verus! {

/// Whether no node of `after` has an earlier status than it has in
/// `before`, in the order Free, Adjacent, Settled, Citied, and the nodes are
/// as many as they were.
pub open spec fn status_kept_or_raised(before: Seq<NodeModel>, after: Seq<NodeModel>) -> bool {
    &&& after.len() == before.len()
    &&& forall|i: int|
        0 <= i < before.len() ==> (#[trigger] after[i]).node_status.rank()
            >= before[i].node_status.rank()
}

/// A road leaves the status of every node as it was.
pub proof fn lemma_road_keeps_status(nodes: Seq<NodeModel>, road: Road)
    requires
        road.nodes.0 < nodes.len(),
        road.nodes.1 < nodes.len(),
    ensures
        with_road_between(nodes, road).len() == nodes.len(),
        forall|i: int|
            0 <= i < nodes.len() ==> (#[trigger] with_road_between(nodes, road)[i]).node_status
                == nodes[i].node_status,
{
}

proof fn lemma_robber_keeps_nodes(game: GameModel, robber: u32, tile: u32, victim: Option<u32>)
    ensures
        robber_played(game, robber, tile, victim).round.board.nodes == game.round.board.nodes,
{
}

proof fn lemma_monopoly_keeps_nodes(board: BoardModel, player: int, resource: int, upto: int)
    ensures
        board.monopolized(player, resource, upto).nodes == board.nodes,
    decreases upto,
{
    if upto > 0 {
        lemma_monopoly_keeps_nodes(board, player, resource, upto - 1);
    }
}

proof fn lemma_throw_keeps_nodes(game: GameModel)
    ensures
        dice_thrown(game).round.board.nodes == game.round.board.nodes,
{
    let dice = game.round.board.dice.thrown();
    let board = BoardModel { dice, dice_outcome: dice.draw, ..game.round.board };
    lemma_production_is_private(board, dice.draw->0, board.tiles.len() as int);
}

proof fn lemma_applied_moves_status_forward(
    game: GameModel,
    action: ActionModel,
    name: Option<Seq<char>>,
)
    requires
        accepts(game, action),
        refusal(game, action) is None,
    ensures
        status_kept_or_raised(
            game.round.board.nodes,
            applied(game, action, name).round.board.nodes,
        ),
{
    reveal(accepts);
    reveal(refusal);
    reveal(applied);
    let nodes = game.round.board.nodes;
    let player = game.round.active_player;
    let after = applied(game, action, name).round.board.nodes;
    match action {
        ActionModel::SetUpMove(a, b) => {
            let road = Road { player, nodes: (a, b) };
            let settlement = BuildingModel { name, node_id: a, player_id: player };
            lemma_road_keeps_status(nodes, road);
            let roaded = with_road_between(nodes, road);
            assert(roaded[a as int].node_status == nodes[a as int].node_status);
            assert(after == with_settlement(roaded, settlement));
            assert forall|i: int| 0 <= i < nodes.len() implies (#[trigger] after[i]).node_status.rank()
                >= nodes[i].node_status.rank() by {
                lemma_settlement_moves_status_forward(roaded, settlement, i);
                assert(roaded[i].node_status == nodes[i].node_status);
            }
            lemma_settlement_moves_status_forward(roaded, settlement, 0);
        },
        ActionModel::Robber(r, t, v) => {
            let cleared = GameModel {
                round: RoundModel {
                    outcome: None,
                    ..game.round
                },
                ..game
            };
            lemma_robber_keeps_nodes(cleared, r, t, v);
        },
        ActionModel::CardPlay(card) => {
            let cleared = GameModel {
                round: RoundModel {
                    outcome: None,
                    ..game.round
                },
                ..game
            };
            let shown = GameModel {
                round: RoundModel {
                    board: cleared.round.board.card_shown(player as int, card.kind()),
                    ..cleared.round
                },
                ..cleared
            };
            assert(shown.round.board.nodes == nodes);
            match card {
                CardType::VPCard => {},
                CardType::KnightCard(r, t, v) => {
                    lemma_robber_keeps_nodes(shown, r, t, v);
                },
                CardType::RoadsCard(a, b, c, d) => {
                    let first = Road { player, nodes: (a, b) };
                    let second = Road { player, nodes: (c, d) };
                    lemma_road_keeps_status(nodes, first);
                    lemma_road_keeps_status(with_road_between(nodes, first), second);
                },
                CardType::PlentyCard(_, _) => {},
                CardType::MonopolyCard(r) => {
                    lemma_monopoly_keeps_nodes(
                        shown.round.board,
                        player as int,
                        r as int,
                        game.parameters.n_players as int,
                    );
                },
            }
        },
        ActionModel::BuildRoad(a, b) => {
            lemma_road_keeps_status(nodes, Road { player, nodes: (a, b) });
        },
        ActionModel::BuildSettlement(n) => {
            let settlement = BuildingModel { name, node_id: n, player_id: player };
            assert forall|i: int| 0 <= i < nodes.len() implies (#[trigger] after[i]).node_status.rank()
                >= nodes[i].node_status.rank() by {
                lemma_settlement_moves_status_forward(nodes, settlement, i);
            }
            lemma_settlement_moves_status_forward(nodes, settlement, 0);
        },
        ActionModel::BuildCity(n) => {
            let city = BuildingModel { name, node_id: n, player_id: player };
            assert forall|i: int| 0 <= i < nodes.len() implies (#[trigger] after[i]).node_status.rank()
                >= nodes[i].node_status.rank() by {
                lemma_city_moves_status_forward(nodes, city, i);
            }
            lemma_city_moves_status_forward(nodes, city, 0);
        },
        _ => {},
    }
}

/// The status of a node only ever moves forward: whatever action a game
/// carries out, no node has an earlier status afterwards than it had
/// before, in the order Free, Adjacent, Settled, Citied.
pub proof fn lemma_status_moves_forward(
    game: GameModel,
    action: ActionModel,
    name: Option<Seq<char>>,
)
    requires
        accepts(game, action),
        refusal(game, action) is None,
    ensures
        status_kept_or_raised(
            game.round.board.nodes,
            played(game, action, name).round.board.nodes,
        ),
{
    lemma_applied_moves_status_forward(game, action, name);
    lemma_play_keeps_applied_nodes(game, action, name);
}

/// A road on one edge does not stand in the way of a road on another.
proof fn lemma_other_edge_stays_open(nodes: Seq<NodeModel>, road: Road, c: u32, d: u32)
    requires
        road.nodes.0 < nodes.len(),
        road.nodes.1 < nodes.len(),
        c < nodes.len(),
        d < nodes.len(),
        !road_refused(nodes, c, d),
        !same_edge(road.nodes.0, road.nodes.1, c, d),
    ensures
        !road_refused(with_road_between(nodes, road), c, d),
{
    let after = with_road_between(nodes, road);
    if after[c as int].has_road_to(d) {
        let k = choose|k: int|
            0 <= k < after[c as int].road_list().len() && (#[trigger] after[c as int].road_list()[k]).1
                == d;
        if k < nodes[c as int].road_list().len() {
            assert(nodes[c as int].road_list()[k].1 == d);
        }
    }
    if after[d as int].has_road_to(c) {
        let k = choose|k: int|
            0 <= k < after[d as int].road_list().len() && (#[trigger] after[d as int].road_list()[k]).1
                == c;
        if k < nodes[d as int].road_list().len() {
            assert(nodes[d as int].road_list()[k].1 == c);
        }
    }
}

/// A building leaves the roads of every node as they were.
proof fn lemma_buildings_keep_roads(nodes: Seq<NodeModel>, building: BuildingModel)
    requires
        building.node_id < nodes.len(),
        roads_single(nodes),
    ensures
        roads_single(with_settlement(nodes, building)),
        roads_single(with_city(nodes, building)),
{
    let settled = with_settlement(nodes, building);
    let citied = with_city(nodes, building);
    assert forall|i: int, j: int, k: int|
        0 <= i < settled.len() && 0 <= j < k < settled[i].road_list().len() implies (
    #[trigger] settled[i].road_list()[j]).1 != (#[trigger] settled[i].road_list()[k]).1 by {
        assert(settled[i].roads == nodes[i].roads);
        assert(nodes[i].road_list()[j].1 != nodes[i].road_list()[k].1);
    }
    assert forall|i: int, j: int, k: int|
        0 <= i < citied.len() && 0 <= j < k < citied[i].road_list().len() implies (
    #[trigger] citied[i].road_list()[j]).1 != (#[trigger] citied[i].road_list()[k]).1 by {
        assert(citied[i].roads == nodes[i].roads);
        assert(nodes[i].road_list()[j].1 != nodes[i].road_list()[k].1);
    }
}

/// At most one road joins two nodes, whoever owns it: where that holds of
/// a board it holds after whatever action the game carries out.
pub proof fn lemma_edges_keep_one_road(
    game: GameModel,
    action: ActionModel,
    name: Option<Seq<char>>,
)
    requires
        accepts(game, action),
        refusal(game, action) is None,
        roads_single(game.round.board.nodes),
    ensures
        roads_single(played(game, action, name).round.board.nodes),
{
    reveal(accepts);
    reveal(refusal);
    reveal(applied);
    let nodes = game.round.board.nodes;
    let player = game.round.active_player;
    let after = applied(game, action, name).round.board.nodes;
    let cleared = GameModel { round: RoundModel { outcome: None, ..game.round }, ..game };
    match action {
        ActionModel::SetUpMove(a, b) => {
            let road = Road { player, nodes: (a, b) };
            let settlement = BuildingModel { name, node_id: a, player_id: player };
            lemma_road_keeps_roads_single(nodes, road);
            lemma_buildings_keep_roads(with_road_between(nodes, road), settlement);
            assert(after == with_settlement(with_road_between(nodes, road), settlement));
        },
        ActionModel::Robber(r, t, v) => {
            lemma_robber_keeps_nodes(cleared, r, t, v);
        },
        ActionModel::CardPlay(card) => {
            let shown = GameModel {
                round: RoundModel {
                    board: cleared.round.board.card_shown(player as int, card.kind()),
                    ..cleared.round
                },
                ..cleared
            };
            assert(shown.round.board.nodes == nodes);
            match card {
                CardType::VPCard => {},
                CardType::KnightCard(r, t, v) => {
                    lemma_robber_keeps_nodes(shown, r, t, v);
                },
                CardType::RoadsCard(a, b, c, d) => {
                    let first = Road { player, nodes: (a, b) };
                    let second = Road { player, nodes: (c, d) };
                    lemma_road_keeps_roads_single(nodes, first);
                    lemma_other_edge_stays_open(nodes, first, c, d);
                    lemma_road_keeps_roads_single(with_road_between(nodes, first), second);
                },
                CardType::PlentyCard(_, _) => {},
                CardType::MonopolyCard(r) => {
                    lemma_monopoly_keeps_nodes(
                        shown.round.board,
                        player as int,
                        r as int,
                        game.parameters.n_players as int,
                    );
                },
            }
        },
        ActionModel::BuildRoad(a, b) => {
            lemma_road_keeps_roads_single(nodes, Road { player, nodes: (a, b) });
        },
        ActionModel::BuildSettlement(n) => {
            lemma_buildings_keep_roads(nodes, BuildingModel { name, node_id: n, player_id: player });
        },
        ActionModel::BuildCity(n) => {
            lemma_buildings_keep_roads(nodes, BuildingModel { name, node_id: n, player_id: player });
        },
        _ => {},
    }
    assert(roads_single(after));
    lemma_play_keeps_applied_nodes(game, action, name);
}

/// What follows an action's effect (the record, the count of the scores,
/// the move of the phase, a throw of the dice) leaves the nodes as the
/// effect left them.
pub proof fn lemma_play_keeps_applied_nodes(game: GameModel, action: ActionModel, name: Option<Seq<char>>)
    ensures
        played(game, action, name).round.board.nodes == applied(
            game,
            action,
            name,
        ).round.board.nodes,
{
    let acted = recorded(applied(game, action, name), action);
    assert(acted.round.board.nodes == applied(game, action, name).round.board.nodes);
    let counted = with_board(
        acted,
        refreshed(acted.round.board, acted.parameters.n_players as int),
    );
    assert(counted.round.board.nodes == acted.round.board.nodes);
    let (turn, throw) = next_turn(turn_of(counted.round), action, limits_of(&counted.parameters));
    let moved = GameModel { round: with_turn(counted.round, turn), ..counted };
    lemma_throw_keeps_nodes(moved);
}

/// Whether the neighbour lists answer one another: a node that names a
/// neighbour is named by that neighbour.
pub open spec fn neighbors_answer(nodes: Seq<NodeModel>) -> bool {
    forall|i: int, k: int|
        0 <= i < nodes.len() && 0 <= k < nodes[i].neighbors.len() ==> match #[trigger] nodes[i].neighbors[k] {
            Some(n) => nodes[n as int].names_neighbor(i),
            None => true,
        }
}

/// Whether the buildings keep their distance: no neighbour of a node that
/// is built on is free for a settlement, and no two neighbours are both
/// built on.
pub open spec fn buildings_apart(nodes: Seq<NodeModel>) -> bool {
    forall|i: int, k: int|
        0 <= i < nodes.len() && 0 <= k < nodes[i].neighbors.len()
            && nodes[i].node_status.is_built() ==> match #[trigger] nodes[i].neighbors[k] {
            Some(n) => !(nodes[n as int].node_status is Free) && (n != i
                ==> !nodes[n as int].node_status.is_built()),
            None => true,
        }
}

/// Roads leave the buildings at their distance.
proof fn lemma_road_keeps_buildings_apart(nodes: Seq<NodeModel>, road: Road)
    requires
        nodes_wf(nodes),
        buildings_apart(nodes),
        road.nodes.0 < nodes.len(),
        road.nodes.1 < nodes.len(),
    ensures
        buildings_apart(with_road_between(nodes, road)),
        neighbors_answer(nodes) ==> neighbors_answer(with_road_between(nodes, road)),
        nodes_wf(with_road_between(nodes, road)),
{
    let after = with_road_between(nodes, road);
    assert forall|i: int| 0 <= i < nodes.len() implies (#[trigger] after[i]).neighbors
        == nodes[i].neighbors && after[i].node_status == nodes[i].node_status && after[i].id
        == nodes[i].id by {}
    assert forall|i: int, k: int|
        0 <= i < after.len() && 0 <= k < after[i].neighbors.len()
            && after[i].node_status.is_built() implies match #[trigger] after[i].neighbors[k] {
        Some(n) => !(after[n as int].node_status is Free) && (n != i
            ==> !after[n as int].node_status.is_built()),
        None => true,
    } by {
        assert(nodes[i].neighbors[k] == after[i].neighbors[k]);
    }
    if neighbors_answer(nodes) {
        assert forall|i: int, k: int|
            0 <= i < after.len() && 0 <= k < after[i].neighbors.len() implies match #[trigger] after[i].neighbors[k] {
            Some(n) => after[n as int].names_neighbor(i),
            None => true,
        } by {
            assert(nodes[i].neighbors[k] == after[i].neighbors[k]);
            match nodes[i].neighbors[k] {
                Some(n) => {
                    let back = choose|back: int|
                        0 <= back < nodes[n as int].neighbors.len()
                            && #[trigger] nodes[n as int].neighbors[back] == Some(i as u32);
                    assert(after[n as int].neighbors[back] == Some(i as u32));
                },
                None => {},
            }
        }
    }
    assert forall|i: int, j: int|
        0 <= i < after.len() && 0 <= j < after[i].neighbors.len() implies match #[trigger] after[i].neighbors[j] {
        Some(n) => n < after.len(),
        None => true,
    } by {
        assert(nodes[i].neighbors[j] == after[i].neighbors[j]);
    }
}

/// A settlement that is not refused stands at a distance from every other
/// building, and closes its neighbours to settlements.
pub proof fn lemma_settlement_keeps_buildings_apart(nodes: Seq<NodeModel>, settlement: BuildingModel)
    requires
        nodes_wf(nodes),
        neighbors_answer(nodes),
        buildings_apart(nodes),
        settlement.node_id < nodes.len(),
        settlement_refusal(nodes[settlement.node_id as int].node_status) is None,
    ensures
        buildings_apart(with_settlement(nodes, settlement)),
        neighbors_answer(with_settlement(nodes, settlement)),
        nodes_wf(with_settlement(nodes, settlement)),
{
    let at = settlement.node_id as int;
    let after = with_settlement(nodes, settlement);
    assert forall|i: int| 0 <= i < nodes.len() implies (#[trigger] after[i]).neighbors
        == nodes[i].neighbors && after[i].id == nodes[i].id by {}
    assert forall|i: int, k: int|
        0 <= i < after.len() && 0 <= k < after[i].neighbors.len()
            && after[i].node_status.is_built() implies match #[trigger] after[i].neighbors[k] {
        Some(n) => !(after[n as int].node_status is Free) && (n != i
            ==> !after[n as int].node_status.is_built()),
        None => true,
    } by {
        assert(nodes[i].neighbors[k] == after[i].neighbors[k]);
        match nodes[i].neighbors[k] {
            Some(n) => {
                if i == at {
                    lemma_settlement_is_blocking(nodes, settlement, k);
                    if n != at && nodes[n as int].node_status.is_built() {
                        let back = choose|back: int|
                            0 <= back < nodes[n as int].neighbors.len()
                                && #[trigger] nodes[n as int].neighbors[back] == Some(at as u32);
                        assert(!(nodes[at].node_status is Free));
                    }
                } else {
                    assert(nodes[i].node_status.is_built());
                    assert(n != at);
                }
            },
            None => {},
        }
    }
    assert forall|i: int, k: int|
        0 <= i < after.len() && 0 <= k < after[i].neighbors.len() implies match #[trigger] after[i].neighbors[k] {
        Some(n) => after[n as int].names_neighbor(i),
        None => true,
    } by {
        assert(nodes[i].neighbors[k] == after[i].neighbors[k]);
        match nodes[i].neighbors[k] {
            Some(n) => {
                let back = choose|back: int|
                    0 <= back < nodes[n as int].neighbors.len()
                        && #[trigger] nodes[n as int].neighbors[back] == Some(i as u32);
                assert(after[n as int].neighbors[back] == Some(i as u32));
            },
            None => {},
        }
    }
    assert forall|i: int, j: int|
        0 <= i < after.len() && 0 <= j < after[i].neighbors.len() implies match #[trigger] after[i].neighbors[j] {
        Some(n) => n < after.len(),
        None => true,
    } by {
        assert(nodes[i].neighbors[j] == after[i].neighbors[j]);
    }
}

/// The neighbour that entry `k` of a settled node names is not free after
/// the settlement, and is built on only where it was before.
proof fn lemma_settlement_is_blocking(nodes: Seq<NodeModel>, settlement: BuildingModel, k: int)
    requires
        nodes_wf(nodes),
        settlement.node_id < nodes.len(),
        0 <= k < nodes[settlement.node_id as int].neighbors.len(),
        nodes[settlement.node_id as int].neighbors[k] is Some,
    ensures
        ({
            let n = nodes[settlement.node_id as int].neighbors[k]->0 as int;
            let after = with_settlement(nodes, settlement);
            &&& !(after[n].node_status is Free)
            &&& n != settlement.node_id ==> (after[n].node_status.is_built()
                <==> nodes[n].node_status.is_built())
        }),
{
    let at = settlement.node_id as int;
    let n = nodes[at].neighbors[k]->0 as int;
    let placed = nodes.update(
        at,
        NodeModel {
            node_status: NodeStatus::Settled(settlement.player_id),
            settlement: Some(settlement),
            ..nodes[at].with_harbor_claimed(settlement.player_id)
        },
    );
    assert(placed[at].neighbors[k] == Some(n as u32));
    assert(names_among(
        placed[at].neighbors,
        placed[at].neighbors.len() as int,
        n,
    ));
}

/// A city that is not refused leaves the buildings at their distance.
pub proof fn lemma_city_keeps_buildings_apart(nodes: Seq<NodeModel>, city: BuildingModel)
    requires
        nodes_wf(nodes),
        neighbors_answer(nodes),
        buildings_apart(nodes),
        city.node_id < nodes.len(),
        city_refusal(nodes[city.node_id as int].node_status, city.player_id) is None,
    ensures
        buildings_apart(with_city(nodes, city)),
        neighbors_answer(with_city(nodes, city)),
        nodes_wf(with_city(nodes, city)),
{
    let at = city.node_id as int;
    let after = with_city(nodes, city);
    assert forall|i: int| 0 <= i < nodes.len() implies (#[trigger] after[i]).neighbors
        == nodes[i].neighbors && after[i].id == nodes[i].id && (after[i].node_status.is_built()
        <==> nodes[i].node_status.is_built()) && (nodes[i].node_status is Free
        <== after[i].node_status is Free) by {}
    assert forall|i: int, k: int|
        0 <= i < after.len() && 0 <= k < after[i].neighbors.len()
            && after[i].node_status.is_built() implies match #[trigger] after[i].neighbors[k] {
        Some(n) => !(after[n as int].node_status is Free) && (n != i
            ==> !after[n as int].node_status.is_built()),
        None => true,
    } by {
        assert(nodes[i].neighbors[k] == after[i].neighbors[k]);
    }
    assert forall|i: int, k: int|
        0 <= i < after.len() && 0 <= k < after[i].neighbors.len() implies match #[trigger] after[i].neighbors[k] {
        Some(n) => after[n as int].names_neighbor(i),
        None => true,
    } by {
        assert(nodes[i].neighbors[k] == after[i].neighbors[k]);
        match nodes[i].neighbors[k] {
            Some(n) => {
                let back = choose|back: int|
                    0 <= back < nodes[n as int].neighbors.len()
                        && #[trigger] nodes[n as int].neighbors[back] == Some(i as u32);
                assert(after[n as int].neighbors[back] == Some(i as u32));
            },
            None => {},
        }
    }
    assert forall|i: int, j: int|
        0 <= i < after.len() && 0 <= j < after[i].neighbors.len() implies match #[trigger] after[i].neighbors[j] {
        Some(n) => n < after.len(),
        None => true,
    } by {
        assert(nodes[i].neighbors[j] == after[i].neighbors[j]);
    }
}

/// Whether the nodes are a board on which the buildings keep their
/// distance: the nodes know their places, their neighbour lists answer one
/// another, and no two neighbours are both built on.
pub open spec fn board_spaced(nodes: Seq<NodeModel>) -> bool {
    nodes_wf(nodes) && neighbors_answer(nodes) && buildings_apart(nodes)
}

/// The buildings keep their distance throughout a game: where no two
/// neighbouring nodes are both built on, and every neighbour of a building
/// is closed to settlements, that is so after whatever action the game
/// carries out.
pub proof fn lemma_buildings_stay_apart(
    game: GameModel,
    action: ActionModel,
    name: Option<Seq<char>>,
)
    requires
        accepts(game, action),
        refusal(game, action) is None,
        board_spaced(game.round.board.nodes),
    ensures
        board_spaced(played(game, action, name).round.board.nodes),
{
    reveal(accepts);
    reveal(refusal);
    reveal(applied);
    let nodes = game.round.board.nodes;
    let player = game.round.active_player;
    let after = applied(game, action, name).round.board.nodes;
    let cleared = GameModel { round: RoundModel { outcome: None, ..game.round }, ..game };
    match action {
        ActionModel::SetUpMove(a, b) => {
            let road = Road { player, nodes: (a, b) };
            let settlement = BuildingModel { name, node_id: a, player_id: player };
            lemma_road_keeps_buildings_apart(nodes, road);
            lemma_road_keeps_status(nodes, road);
            let roaded = with_road_between(nodes, road);
            assert(roaded[a as int].node_status == nodes[a as int].node_status);
            lemma_settlement_keeps_buildings_apart(roaded, settlement);
            assert(after == with_settlement(roaded, settlement));
        },
        ActionModel::Robber(r, t, v) => {
            lemma_robber_keeps_nodes(cleared, r, t, v);
        },
        ActionModel::CardPlay(card) => {
            let shown = GameModel {
                round: RoundModel {
                    board: cleared.round.board.card_shown(player as int, card.kind()),
                    ..cleared.round
                },
                ..cleared
            };
            assert(shown.round.board.nodes == nodes);
            match card {
                CardType::VPCard => {},
                CardType::KnightCard(r, t, v) => {
                    lemma_robber_keeps_nodes(shown, r, t, v);
                },
                CardType::RoadsCard(a, b, c, d) => {
                    let first = Road { player, nodes: (a, b) };
                    let second = Road { player, nodes: (c, d) };
                    lemma_road_keeps_buildings_apart(nodes, first);
                    lemma_road_keeps_buildings_apart(with_road_between(nodes, first), second);
                },
                CardType::PlentyCard(_, _) => {},
                CardType::MonopolyCard(r) => {
                    lemma_monopoly_keeps_nodes(
                        shown.round.board,
                        player as int,
                        r as int,
                        game.parameters.n_players as int,
                    );
                },
            }
        },
        ActionModel::BuildRoad(a, b) => {
            lemma_road_keeps_buildings_apart(nodes, Road { player, nodes: (a, b) });
        },
        ActionModel::BuildSettlement(n) => {
            lemma_settlement_keeps_buildings_apart(
                nodes,
                BuildingModel { name, node_id: n, player_id: player },
            );
        },
        ActionModel::BuildCity(n) => {
            lemma_city_keeps_buildings_apart(
                nodes,
                BuildingModel { name, node_id: n, player_id: player },
            );
        },
        _ => {},
    }
    assert(board_spaced(after));
    lemma_play_keeps_applied_nodes(game, action, name);
}

/// Whether no node names itself as a neighbour.
pub open spec fn no_self_neighbors(nodes: Seq<NodeModel>) -> bool {
    forall|i: int, k: int|
        0 <= i < nodes.len() && 0 <= k < nodes[i].neighbors.len() ==> #[trigger] nodes[i].neighbors[k]
            != Some(i as u32)
}

/// Whether the pieces stand by the rules of placement on a board that is a
/// graph: no node is its own neighbour, the buildings keep their distance,
/// at most one road joins two nodes, and every road is listed at both its
/// ends.
pub open spec fn board_orderly(nodes: Seq<NodeModel>) -> bool {
    &&& board_spaced(nodes)
    &&& no_self_neighbors(nodes)
    &&& roads_single(nodes)
    &&& roads_mirrored(nodes)
}

/// Nodes that keep their neighbours and their roads keep what is said of
/// neighbours and roads alone.
proof fn lemma_same_plan(before: Seq<NodeModel>, after: Seq<NodeModel>)
    requires
        after.len() == before.len(),
        forall|i: int|
            0 <= i < before.len() ==> (#[trigger] after[i]).neighbors == before[i].neighbors
                && after[i].roads == before[i].roads,
    ensures
        no_self_neighbors(before) ==> no_self_neighbors(after),
        roads_mirrored(before) ==> roads_mirrored(after),
        roads_single(before) ==> roads_single(after),
{
    if no_self_neighbors(before) {
        assert forall|i: int, k: int|
            0 <= i < after.len() && 0 <= k < after[i].neighbors.len() implies #[trigger] after[i].neighbors[k]
            != Some(i as u32) by {
            assert(before[i].neighbors[k] != Some(i as u32));
        }
    }
    if roads_mirrored(before) {
        assert forall|i: int, k: int|
            0 <= i < after.len() && 0 <= k < after[i].road_list().len() implies {
            let far = (#[trigger] after[i].road_list()[k]).1;
            far < after.len() && after[far as int].has_road_to(i as u32)
        } by {
            let far = before[i].road_list()[k].1;
            assert(after[i].road_list() == before[i].road_list());
            assert(far < before.len() && before[far as int].has_road_to(i as u32));
            let back = choose|back: int|
                0 <= back < before[far as int].road_list().len() && (
                #[trigger] before[far as int].road_list()[back]).1 == i as u32;
            assert(after[far as int].road_list()[back].1 == i as u32);
        }
    }
    if roads_single(before) {
        assert forall|i: int, j: int, k: int|
            0 <= i < after.len() && 0 <= j < k < after[i].road_list().len() implies (
        #[trigger] after[i].road_list()[j]).1 != (#[trigger] after[i].road_list()[k]).1 by {
            assert(before[i].road_list()[j].1 != before[i].road_list()[k].1);
        }
    }
}

/// A building leaves the neighbours and the roads of every node as they
/// were.
proof fn lemma_buildings_keep_plan(nodes: Seq<NodeModel>, building: BuildingModel)
    requires
        building.node_id < nodes.len(),
    ensures
        no_self_neighbors(nodes) ==> no_self_neighbors(with_settlement(nodes, building))
            && no_self_neighbors(with_city(nodes, building)),
        roads_mirrored(nodes) ==> roads_mirrored(with_settlement(nodes, building))
            && roads_mirrored(with_city(nodes, building)),
{
    lemma_same_plan(nodes, with_settlement(nodes, building));
    lemma_same_plan(nodes, with_city(nodes, building));
}

/// A road leaves the neighbours of every node as they were.
proof fn lemma_road_keeps_neighbors(nodes: Seq<NodeModel>, road: Road)
    requires
        road.nodes.0 < nodes.len(),
        road.nodes.1 < nodes.len(),
        no_self_neighbors(nodes),
    ensures
        no_self_neighbors(with_road_between(nodes, road)),
{
    let after = with_road_between(nodes, road);
    assert forall|i: int, k: int|
        0 <= i < after.len() && 0 <= k < after[i].neighbors.len() implies #[trigger] after[i].neighbors[k]
        != Some(i as u32) by {
        assert(after[i].neighbors == nodes[i].neighbors);
        assert(nodes[i].neighbors[k] != Some(i as u32));
    }
}

/// The empty hexagonal board is in order: its neighbour lists answer one
/// another, and nothing is built on it.
pub proof fn lemma_bare_board_is_orderly(rings: int, adjacency: Seq<Vec<Option<u32>>>)
    requires
        1 <= rings,
        adjacency.len() <= u32::MAX,
        adjacency_model(adjacency) == hex_adjacency(rings),
    ensures
        board_orderly(bare_nodes(adjacency)),
{
    let nodes = bare_nodes(adjacency);
    let table = hex_adjacency(rings);
    lemma_hex_adjacency_is_simple(rings);
    assert(table.len() == adjacency.len());
    assert forall|i: int, k: int|
        0 <= i < nodes.len() && 0 <= k < nodes[i].neighbors.len() implies match #[trigger] nodes[i].neighbors[k] {
        Some(n) => n < nodes.len() && n != i && nodes[n as int].names_neighbor(i),
        None => true,
    } by {
        assert(table[i].len() == adjacency[i]@.len());
        match nodes[i].neighbors[k] {
            Some(n) => {
                assert(table[i][k] == Some(n as int));
                assert(names(table, n as int, i));
                let back = choose|back: int|
                    0 <= back < table[n as int].len() && #[trigger] table[n as int][back] == Some(
                        i,
                    );
                assert(table[n as int].len() == adjacency[n as int]@.len());
                assert(nodes[n as int].neighbors[back] == Some(i as u32));
            },
            None => {},
        }
    }
}

/// A harbor leaves the pieces in order.
proof fn lemma_harbor_keeps_order(nodes: Seq<NodeModel>, harbor: Harbor)
    requires
        board_orderly(nodes),
        harbor.nodes.0 < nodes.len(),
        harbor.nodes.1 < nodes.len(),
    ensures
        board_orderly(with_harbor(nodes, harbor)),
        with_harbor(nodes, harbor).len() == nodes.len(),
{
    let after = with_harbor(nodes, harbor);
    assert forall|i: int| 0 <= i < nodes.len() implies (#[trigger] after[i]).neighbors
        == nodes[i].neighbors && after[i].id == nodes[i].id && after[i].node_status
        == nodes[i].node_status && after[i].roads == nodes[i].roads by {}
    lemma_same_plan(nodes, after);
    assert forall|i: int, k: int|
        0 <= i < after.len() && 0 <= k < after[i].neighbors.len() implies match #[trigger] after[i].neighbors[k] {
        Some(n) => n < after.len() && after[n as int].names_neighbor(i) && (
        after[i].node_status.is_built() ==> !(after[n as int].node_status is Free) && (n != i
            ==> !after[n as int].node_status.is_built())),
        None => true,
    } by {
        assert(nodes[i].neighbors[k] == after[i].neighbors[k]);
        match nodes[i].neighbors[k] {
            Some(n) => {
                let back = choose|back: int|
                    0 <= back < nodes[n as int].neighbors.len()
                        && #[trigger] nodes[n as int].neighbors[back] == Some(i as u32);
                assert(after[n as int].neighbors[back] == Some(i as u32));
            },
            None => {},
        }
    }
    assert forall|i: int, j: int, k: int|
        0 <= i < after.len() && 0 <= j < k < after[i].road_list().len() implies (
    #[trigger] after[i].road_list()[j]).1 != (#[trigger] after[i].road_list()[k]).1 by {
        assert(nodes[i].road_list()[j].1 != nodes[i].road_list()[k].1);
    }
}

proof fn lemma_harbors_keep_order(nodes: Seq<NodeModel>, harbors: Seq<Harbor>, count: int)
    requires
        board_orderly(nodes),
        0 <= count <= harbors.len(),
        forall|h: int|
            0 <= h < count ==> (#[trigger] harbors[h]).nodes.0 < nodes.len() && harbors[h].nodes.1
                < nodes.len(),
    ensures
        harbors_placed(nodes, harbors, count) matches Ok(placed) ==> board_orderly(placed)
            && placed.len() == nodes.len(),
    decreases count,
{
    if count > 0 {
        lemma_harbors_keep_order(nodes, harbors, count - 1);
        match harbors_placed(nodes, harbors, count - 1) {
            Ok(before) => {
                let harbor = harbors[count - 1];
                lemma_harbor_keeps_order(before, harbor);
            },
            Err(_) => {},
        }
    }
}

proof fn lemma_settlements_keep_order(nodes: Seq<NodeModel>, settlements: Seq<BuildingModel>, count: int)
    requires
        board_orderly(nodes),
        0 <= count <= settlements.len(),
        forall|s: int| 0 <= s < count ==> (#[trigger] settlements[s]).node_id < nodes.len(),
    ensures
        settlements_placed(nodes, settlements, count) matches Ok(placed) ==> board_orderly(placed)
            && placed.len() == nodes.len(),
    decreases count,
{
    if count > 0 {
        lemma_settlements_keep_order(nodes, settlements, count - 1);
        match settlements_placed(nodes, settlements, count - 1) {
            Ok(before) => {
                let settlement = settlements[count - 1];
                if settlement_refusal(before[settlement.node_id as int].node_status) is None {
                    lemma_settlement_keeps_buildings_apart(before, settlement);
                    lemma_buildings_keep_roads(before, settlement);
                    lemma_buildings_keep_plan(before, settlement);
                }
            },
            Err(_) => {},
        }
    }
}

proof fn lemma_cities_keep_order(nodes: Seq<NodeModel>, cities: Seq<BuildingModel>, count: int)
    requires
        board_orderly(nodes),
        0 <= count <= cities.len(),
        forall|c: int| 0 <= c < count ==> (#[trigger] cities[c]).node_id < nodes.len(),
    ensures
        cities_placed(nodes, cities, count) matches Ok(placed) ==> board_orderly(placed)
            && placed.len() == nodes.len(),
    decreases count,
{
    if count > 0 {
        lemma_cities_keep_order(nodes, cities, count - 1);
        match cities_placed(nodes, cities, count - 1) {
            Ok(before) => {
                let city = cities[count - 1];
                if city_refusal(before[city.node_id as int].node_status, city.player_id) is None {
                    lemma_city_keeps_buildings_apart(before, city);
                    lemma_buildings_keep_roads(before, city);
                    lemma_buildings_keep_plan(before, city);
                }
            },
            Err(_) => {},
        }
    }
}

proof fn lemma_roads_keep_order(nodes: Seq<NodeModel>, roads: Seq<Road>, count: int)
    requires
        board_orderly(nodes),
        0 <= count <= roads.len(),
        forall|r: int|
            0 <= r < count ==> (#[trigger] roads[r]).nodes.0 < nodes.len() && roads[r].nodes.1
                < nodes.len(),
    ensures
        roads_placed(nodes, roads, count) matches Ok(placed) ==> board_orderly(placed)
            && placed.len() == nodes.len(),
    decreases count,
{
    if count > 0 {
        lemma_roads_keep_order(nodes, roads, count - 1);
        match roads_placed(nodes, roads, count - 1) {
            Ok(before) => {
                let road = roads[count - 1];
                if !road_refused(before, road.nodes.0, road.nodes.1) {
                    lemma_road_keeps_buildings_apart(before, road);
                    lemma_road_keeps_roads_single(before, road);
                    lemma_road_keeps_roads_mirrored(before, road);
                    lemma_road_keeps_neighbors(before, road);
                }
            },
            Err(_) => {},
        }
    }
}

/// A game on a hexagonal board starts in order: where the pieces of the
/// initial position can be placed at all, the buildings keep their distance
/// and at most one road joins two nodes.
pub proof fn lemma_initial_position_is_orderly(parameters: &GameParameters)
    requires
        parameters.board_wf(),
        adjacency_model(parameters.node_adjacency@) == hex_adjacency(
            parameters.n_tile_rings as int,
        ),
    ensures
        initial_nodes(parameters) matches Ok(nodes) ==> board_orderly(nodes),
{
    let harbors = listed(parameters.init_harbors.deep_view());
    let settlements = listed(parameters.init_settlements.deep_view());
    let cities = listed(parameters.init_cities.deep_view());
    let roads = listed(parameters.init_roads.deep_view());
    let bare = bare_nodes(parameters.node_adjacency@);
    let rings = parameters.n_tile_rings as int;
    assert(6 * rings * rings <= u32::MAX) by (nonlinear_arith)
        requires
            1 <= rings <= MAX_TILE_RINGS,
    ;
    lemma_bare_board_is_orderly(parameters.n_tile_rings as int, parameters.node_adjacency@);
    lemma_harbors_keep_order(bare, harbors, harbors.len() as int);
    match harbors_placed(bare, harbors, harbors.len() as int) {
        Ok(with_harbors) => {
            lemma_settlements_keep_order(with_harbors, settlements, settlements.len() as int);
            match settlements_placed(with_harbors, settlements, settlements.len() as int) {
                Ok(with_settlements) => {
                    lemma_cities_keep_order(with_settlements, cities, cities.len() as int);
                    match cities_placed(with_settlements, cities, cities.len() as int) {
                        Ok(with_cities) => {
                            lemma_roads_keep_order(with_cities, roads, roads.len() as int);
                        },
                        Err(_) => {},
                    }
                },
                Err(_) => {},
            }
        },
        Err(_) => {},
    }
}

/// The pieces stay in order throughout a game: where they stand by the
/// rules of placement, they do so after whatever action the game carries
/// out.
pub proof fn lemma_play_keeps_board_orderly(
    game: GameModel,
    action: ActionModel,
    name: Option<Seq<char>>,
)
    requires
        accepts(game, action),
        refusal(game, action) is None,
        board_orderly(game.round.board.nodes),
    ensures
        board_orderly(played(game, action, name).round.board.nodes),
{
    lemma_buildings_stay_apart(game, action, name);
    lemma_edges_keep_one_road(game, action, name);
    lemma_play_keeps_applied_nodes(game, action, name);
    reveal(accepts);
    reveal(refusal);
    reveal(applied);
    let nodes = game.round.board.nodes;
    let player = game.round.active_player;
    let after = applied(game, action, name).round.board.nodes;
    let cleared = GameModel { round: RoundModel { outcome: None, ..game.round }, ..game };
    match action {
        ActionModel::SetUpMove(a, b) => {
            let road = Road { player, nodes: (a, b) };
            let settlement = BuildingModel { name, node_id: a, player_id: player };
            lemma_road_keeps_roads_mirrored(nodes, road);
            lemma_road_keeps_neighbors(nodes, road);
            lemma_buildings_keep_plan(with_road_between(nodes, road), settlement);
            assert(after == with_settlement(with_road_between(nodes, road), settlement));
        },
        ActionModel::Robber(r, t, v) => {
            lemma_robber_keeps_nodes(cleared, r, t, v);
        },
        ActionModel::CardPlay(card) => {
            let shown = GameModel {
                round: RoundModel {
                    board: cleared.round.board.card_shown(player as int, card.kind()),
                    ..cleared.round
                },
                ..cleared
            };
            assert(shown.round.board.nodes == nodes);
            match card {
                CardType::VPCard => {},
                CardType::KnightCard(r, t, v) => {
                    lemma_robber_keeps_nodes(shown, r, t, v);
                },
                CardType::RoadsCard(a, b, c, d) => {
                    let first = Road { player, nodes: (a, b) };
                    let second = Road { player, nodes: (c, d) };
                    lemma_road_keeps_roads_mirrored(nodes, first);
                    lemma_road_keeps_neighbors(nodes, first);
                    lemma_road_keeps_roads_mirrored(with_road_between(nodes, first), second);
                    lemma_road_keeps_neighbors(with_road_between(nodes, first), second);
                },
                CardType::PlentyCard(_, _) => {},
                CardType::MonopolyCard(r) => {
                    lemma_monopoly_keeps_nodes(
                        shown.round.board,
                        player as int,
                        r as int,
                        game.parameters.n_players as int,
                    );
                },
            }
        },
        ActionModel::BuildRoad(a, b) => {
            lemma_road_keeps_roads_mirrored(nodes, Road { player, nodes: (a, b) });
            lemma_road_keeps_neighbors(nodes, Road { player, nodes: (a, b) });
        },
        ActionModel::BuildSettlement(n) => {
            lemma_buildings_keep_plan(nodes, BuildingModel { name, node_id: n, player_id: player });
        },
        ActionModel::BuildCity(n) => {
            lemma_buildings_keep_plan(nodes, BuildingModel { name, node_id: n, player_id: player });
        },
        _ => {},
    }
    assert(no_self_neighbors(after) && roads_mirrored(after));
}

} // verus!
