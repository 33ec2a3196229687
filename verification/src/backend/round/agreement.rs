use vstd::prelude::*;
use crate::backend::round::action::ActionModel;
use crate::backend::round::cards::CardType;
use crate::backend::round::flow::lemma_legal_actions_are_accepted;
use crate::backend::round::legal::legal_actions;
use crate::backend::round::legality::{
    is_open_road, is_setup_move, lemma_legal_actions_are_the_allowed_actions,
};
use crate::backend::round::phase::Phase;
use crate::backend::round::progress::{
    board_orderly, lemma_play_keeps_applied_nodes, no_self_neighbors,
};
use crate::backend::round::rules::{accepts, applied, played, refusal};
use crate::backend::setup::game::GameModel;
use crate::backend::setup::node::{names_among, nodes_wf, NodeModel};
use crate::backend::setup::node_status::NodeStatus;
use crate::backend::setup::road::{road_refused, roads_mirrored, with_road_between, Road};
use crate::backend::setup::settlement::{with_settlement, BuildingModel};

verus! {

/// Whether no road ends at a free node, as it is while the players set up
/// on a board that was empty.
pub open spec fn free_nodes_roadless(nodes: Seq<NodeModel>) -> bool {
    forall|i: int|
        0 <= i < nodes.len() && (#[trigger] nodes[i]).node_status is Free
            ==> nodes[i].road_list().len() == 0
}

/// The board does not refuse a road that a player may build: the road ends
/// at a neighbour, which is another node, and no road joins the two yet.
pub proof fn lemma_open_road_is_not_refused(nodes: Seq<NodeModel>, player: u32, from: u32, to: u32)
    requires
        nodes_wf(nodes),
        no_self_neighbors(nodes),
        roads_mirrored(nodes),
        is_open_road(nodes, player, from, to),
    ensures
        to < nodes.len(),
        !road_refused(nodes, from, to),
{
    let k = choose|k: int|
        0 <= k < nodes[from as int].neighbors.len() && #[trigger] nodes[from as int].neighbors[k]
            == Some(to as int as u32);
    assert(nodes[from as int].neighbors[k] == Some(to));
    if nodes[to as int].has_road_to(from) {
        let back = choose|back: int|
            0 <= back < nodes[to as int].road_list().len() && (
            #[trigger] nodes[to as int].road_list()[back]).1 == from;
        assert(nodes[from as int].has_road_to(to as int as u32));
    }
}

/// The board does not refuse a set-up move that is open while no road ends
/// at a free node.
pub proof fn lemma_setup_move_is_not_refused(nodes: Seq<NodeModel>, at: u32, end: u32)
    requires
        nodes_wf(nodes),
        no_self_neighbors(nodes),
        roads_mirrored(nodes),
        free_nodes_roadless(nodes),
        is_setup_move(nodes, at, end),
    ensures
        end < nodes.len(),
        !road_refused(nodes, at, end),
{
    let k = choose|k: int|
        0 <= k < nodes[at as int].neighbors.len() && #[trigger] nodes[at as int].neighbors[k]
            == Some(end as int as u32);
    assert(nodes[at as int].neighbors[k] == Some(end));
    if nodes[end as int].has_road_to(at) {
        let back = choose|back: int|
            0 <= back < nodes[end as int].road_list().len() && (
            #[trigger] nodes[end as int].road_list()[back]).1 == at;
        assert(nodes[at as int].has_road_to(end as int as u32));
    }
}

/// The enumerator and the executor agree: on a board whose pieces stand in
/// order, the game can take every action that the enumerator offers, but
/// for `Quit`, and the board refuses none of them. In the set-up this is so
/// while no road ends at a free node.
pub proof fn lemma_offered_actions_are_carried_out(game: GameModel, action: ActionModel)
    requires
        game.wf(),
        board_orderly(game.round.board.nodes),
        game.round.phase == Phase::SetUp ==> free_nodes_roadless(game.round.board.nodes),
        legal_actions(game).contains(action),
    ensures
        !(action is Quit) ==> accepts(game, action),
        refusal(game, action) is None,
{
    lemma_legal_actions_are_accepted(game);
    let k = choose|k: int| 0 <= k < legal_actions(game).len() && legal_actions(game)[k] == action;
    assert(legal_actions(game)[k] is Quit || accepts(game, legal_actions(game)[k]));
    lemma_legal_actions_are_the_allowed_actions(game, action);
    reveal(refusal);
    let nodes = game.round.board.nodes;
    let player = game.round.active_player;
    match action {
        ActionModel::SetUpMove(at, end) => {
            assert(game.round.phase == Phase::SetUp);
            lemma_setup_move_is_not_refused(nodes, at, end);
        },
        ActionModel::CardPlay(CardType::RoadsCard(a, b, c, d)) => {
            lemma_open_road_is_not_refused(nodes, player, a, b);
            lemma_open_road_is_not_refused(nodes, player, c, d);
        },
        ActionModel::BuildRoad(from, to) => {
            lemma_open_road_is_not_refused(nodes, player, from, to);
        },
        _ => {},
    }
}

/// While the players set up, no road comes to end at a free node: a set-up
/// move that is open settles one end of its road and closes the other to
/// settlements.
pub proof fn lemma_setup_keeps_free_nodes_roadless(
    game: GameModel,
    at: u32,
    end: u32,
    name: Option<Seq<char>>,
)
    requires
        nodes_wf(game.round.board.nodes),
        free_nodes_roadless(game.round.board.nodes),
        is_setup_move(game.round.board.nodes, at, end),
        end < game.round.board.nodes.len(),
    ensures
        free_nodes_roadless(
            played(game, ActionModel::SetUpMove(at, end), name).round.board.nodes,
        ),
{
    let action = ActionModel::SetUpMove(at, end);
    lemma_play_keeps_applied_nodes(game, action, name);
    reveal(applied);
    let nodes = game.round.board.nodes;
    let player = game.round.active_player;
    let road = Road { player, nodes: (at, end) };
    let settlement = BuildingModel { name, node_id: at, player_id: player };
    let roaded = with_road_between(nodes, road);
    let after = with_settlement(roaded, settlement);
    assert(applied(game, action, name).round.board.nodes == after);
    let k = choose|k: int|
        0 <= k < nodes[at as int].neighbors.len() && #[trigger] nodes[at as int].neighbors[k]
            == Some(end as int as u32);
    assert(nodes[at as int].neighbors[k] == Some(end));
    let placed = roaded.update(
        at as int,
        NodeModel {
            node_status: NodeStatus::Settled(player),
            settlement: Some(settlement),
            ..roaded[at as int].with_harbor_claimed(player)
        },
    );
    assert(placed[at as int].neighbors[k] == Some(end));
    assert(names_among(placed[at as int].neighbors, placed[at as int].neighbors.len() as int, end as int));
    assert(!(after[end as int].node_status is Free));
    assert(!(after[at as int].node_status is Free));
    assert forall|i: int| 0 <= i < after.len() && (#[trigger] after[i]).node_status is Free implies after[i].road_list().len()
        == 0 by {
        assert(i != at && i != end);
        assert(after[i].roads == nodes[i].roads);
        assert(nodes[i].node_status is Free);
    }
}

} // verus!
