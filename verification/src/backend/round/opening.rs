use vstd::prelude::*;
use crate::backend::round::legal::{neighbor_pairs, phase_actions, setup_pairs, PairKind};
use crate::backend::round::phase::Phase;
use crate::backend::setup::degree::{degree_sum, degree_upto, edge_count, lemma_hex_degree_sum};
use crate::backend::setup::game::GameModel;
use crate::backend::setup::node::NodeModel;
use crate::backend::setup::shape::{hex_adjacency, neighbor_row_model, node_count};
use crate::backend::setup::topology::lemma_hex_adjacency_is_simple;

verus! {

/// The neighbour lists of the nodes as an adjacency table.
pub open spec fn neighbor_table(nodes: Seq<NodeModel>) -> Seq<Seq<Option<int>>> {
    Seq::new(nodes.len(), |i: int| neighbor_row_model(nodes[i].neighbors))
}

/// Whether the set-up of the game is under way: the game is in the set-up
/// phase and its set-up rounds are not used up.
pub open spec fn in_set_up(game: GameModel) -> bool {
    game.round.phase == Phase::SetUp && game.round.phase_count / game.parameters.n_players
        < game.parameters.n_setup_rounds
}

proof fn lemma_pair_actions_len(kind: PairKind, pairs: Seq<(u32, u32)>, count: int)
    requires
        0 <= count,
    ensures
        kind.actions(pairs, count).len() == count,
    decreases count,
{
    if count > 0 {
        lemma_pair_actions_len(kind, pairs, count - 1);
    }
}

proof fn lemma_neighbor_pairs_len(node: NodeModel, count: int)
    requires
        0 <= count <= node.neighbors.len(),
    ensures
        neighbor_pairs(node, count).len() == degree_upto(
            neighbor_row_model(node.neighbors),
            count,
        ),
    decreases count,
{
    if count > 0 {
        lemma_neighbor_pairs_len(node, count - 1);
    }
}

/// While every node is free, the set-up moves open on the first `count`
/// nodes are as many as the neighbours that those nodes name.
proof fn lemma_setup_pairs_len(nodes: Seq<NodeModel>, count: int)
    requires
        0 <= count <= nodes.len(),
        forall|i: int| 0 <= i < count ==> (#[trigger] nodes[i]).node_status is Free,
    ensures
        setup_pairs(nodes, count).len() == degree_sum(neighbor_table(nodes), count),
    decreases count,
{
    if count > 0 {
        lemma_setup_pairs_len(nodes, count - 1);
        let node = nodes[count - 1];
        lemma_neighbor_pairs_len(node, node.neighbors.len() as int);
        assert(node.node_status is Free);
    }
}

/// On a board on which nothing is built yet, the set-up offers one move for
/// every node and each of its neighbours, and nothing else: as many moves
/// as the degrees of the nodes add up to.
pub proof fn lemma_free_board_offers_a_move_per_neighbor(game: GameModel)
    requires
        in_set_up(game),
        forall|i: int|
            0 <= i < game.round.board.nodes.len() ==> (#[trigger] game.round.board.nodes[i]).node_status
                is Free,
    ensures
        phase_actions(game).len() == degree_sum(
            neighbor_table(game.round.board.nodes),
            game.round.board.nodes.len() as int,
        ),
{
    let nodes = game.round.board.nodes;
    let pairs = setup_pairs(nodes, nodes.len() as int);
    lemma_setup_pairs_len(nodes, nodes.len() as int);
    lemma_pair_actions_len(PairKind::SetUp, pairs, pairs.len() as int);
}

/// On the empty hexagonal board with `rings` rings of tiles the set-up
/// offers `18·rings² − 6·rings` moves: three for every inner node and two
/// for every node of the outermost ring, twice the number of edges.
pub proof fn lemma_empty_hex_board_offers_moves(game: GameModel, rings: int)
    requires
        1 <= rings,
        in_set_up(game),
        neighbor_table(game.round.board.nodes) == hex_adjacency(rings),
        forall|i: int|
            0 <= i < game.round.board.nodes.len() ==> (#[trigger] game.round.board.nodes[i]).node_status
                is Free,
    ensures
        phase_actions(game).len() == 2 * edge_count(rings),
        phase_actions(game).len() == 18 * rings * rings - 6 * rings,
{
    lemma_free_board_offers_a_move_per_neighbor(game);
    lemma_hex_degree_sum(rings);
    lemma_hex_adjacency_is_simple(rings);
    assert(game.round.board.nodes.len() == node_count(rings));
    assert(2 * (9 * rings * rings - 3 * rings) == 18 * rings * rings - 6 * rings) by (nonlinear_arith);
}

} // verus!
