use vstd::prelude::*;
use crate::backend::round::action::{ActionModel, Quote};
use crate::backend::round::budget::covers;
use crate::backend::round::cards::CardType;
use crate::backend::round::legal::{
    card_actions, card_plays, legal_actions, plays_of_kind, plenty_plays, road_pairs_with,
    road_plays, harbor_trades, node_harbor_trades, open_harbor_trades, quantities_offered, quotes_of,
    resource_trades, trading_actions, Row, can_accept, discards, hands_from, hands_upto, building_actions, city_sites, discard_actions, moves_to, neighbor_pairs, open_roads, open_roads_of, phase_actions, reaches, robber_moves, robber_on, robberies, settlement_sites, setup_pairs, victims_at, MoveKind, PairKind, SiteKind};
use crate::backend::round::phase::Phase;
use crate::backend::round::rules::same_edge;
use crate::backend::setup::game_parameters::N_CARD_KINDS;
use crate::backend::setup::board::BoardModel;
use crate::backend::setup::dice::seq_sum;
use crate::backend::setup::game::GameModel;
use crate::backend::setup::node::{nodes_wf, NodeModel};
use crate::backend::setup::node_status::NodeStatus;

verus! {

/// A list of one list after another holds what either holds.
pub proof fn lemma_contains_concat<T>(a: Seq<T>, b: Seq<T>, x: T)
    ensures
        (a + b).contains(x) <==> a.contains(x) || b.contains(x),
{
    if a.contains(x) {
        let k = choose|k: int| 0 <= k < a.len() && a[k] == x;
        assert((a + b)[k] == x);
    }
    if b.contains(x) {
        let k = choose|k: int| 0 <= k < b.len() && b[k] == x;
        assert((a + b)[a.len() + k] == x);
    }
    if (a + b).contains(x) {
        let k = choose|k: int| 0 <= k < (a + b).len() && (a + b)[k] == x;
        if k < a.len() {
            assert(a[k] == x);
        } else {
            assert(b[k - a.len()] == x);
        }
    }
}

/// A list with one more item holds what it held, and the item.
pub proof fn lemma_contains_push<T>(a: Seq<T>, y: T, x: T)
    ensures
        a.push(y).contains(x) <==> a.contains(x) || x == y,
{
    if a.contains(x) {
        let k = choose|k: int| 0 <= k < a.len() && a[k] == x;
        assert(a.push(y)[k] == x);
    }
    if x == y {
        assert(a.push(y)[a.len() as int] == x);
    }
    if a.push(y).contains(x) {
        let k = choose|k: int| 0 <= k < a.push(y).len() && a.push(y)[k] == x;
        if k < a.len() {
            assert(a[k] == x);
        }
    }
}

/// Whether one of the first `count` entries of the node's list of
/// neighbours names `neighbor`.
pub open spec fn names_within(node: NodeModel, count: int, neighbor: u32) -> bool {
    exists|k: int| 0 <= k < count && k < node.neighbors.len() && #[trigger] node.neighbors[k] == Some(neighbor)
}

/// Whether a set-up move may settle node `at` and build a road to `end`:
/// the node is free and `end` is one of its neighbours.
pub open spec fn is_setup_move(nodes: Seq<NodeModel>, at: u32, end: u32) -> bool {
    &&& at < nodes.len()
    &&& nodes[at as int].node_status is Free
    &&& nodes[at as int].names_neighbor(end as int)
}

/// Whether `player` may build a road from node `from` to node `to`: the
/// player has built on `from` or one of the player's roads ends there, `to`
/// is a neighbour of `from`, and no road leads from `from` to `to` yet.
pub open spec fn is_open_road(nodes: Seq<NodeModel>, player: u32, from: u32, to: u32) -> bool {
    &&& from < nodes.len()
    &&& reaches(nodes[from as int], player)
    &&& nodes[from as int].names_neighbor(to as int)
    &&& !nodes[from as int].has_road_to(to)
}

/// Whether `player` may build a settlement on node `at`: the node is free
/// and one of the player's roads ends there.
pub open spec fn is_settlement_site(nodes: Seq<NodeModel>, player: u32, at: u32) -> bool {
    &&& at < nodes.len()
    &&& nodes[at as int].node_status is Free
    &&& nodes[at as int].has_road_of(player)
}

/// Whether `player` may build a city on node `at`: the player has settled
/// the node.
pub open spec fn is_city_site(nodes: Seq<NodeModel>, player: u32, at: u32) -> bool {
    at < nodes.len() && nodes[at as int].node_status == NodeStatus::Settled(player)
}

proof fn lemma_neighbor_pairs_hold(node: NodeModel, count: int, pair: (u32, u32))
    requires
        0 <= count <= node.neighbors.len(),
    ensures
        neighbor_pairs(node, count).contains(pair) <==> pair.0 == node.id && names_within(
            node,
            count,
            pair.1,
        ),
        open_roads_of(node, count).contains(pair) <==> pair.0 == node.id && names_within(
            node,
            count,
            pair.1,
        ) && !node.has_road_to(pair.1),
    decreases count,
{
    if count > 0 {
        lemma_neighbor_pairs_hold(node, count - 1, pair);
        let last = count - 1;
        if names_within(node, count, pair.1) {
            let k = choose|k: int|
                0 <= k < count && k < node.neighbors.len() && #[trigger] node.neighbors[k] == Some(
                    pair.1,
                );
            if k < last {
                assert(names_within(node, count - 1, pair.1));
            }
        }
        if names_within(node, count - 1, pair.1) {
            let k = choose|k: int|
                0 <= k < count - 1 && k < node.neighbors.len() && #[trigger] node.neighbors[k]
                    == Some(pair.1);
            assert(0 <= k < count && node.neighbors[k] == Some(pair.1));
        }
        match node.neighbors[last] {
            Some(neighbor) => {
                lemma_contains_push(neighbor_pairs(node, count - 1), (node.id, neighbor), pair);
                lemma_contains_push(open_roads_of(node, count - 1), (node.id, neighbor), pair);
                if pair == (node.id, neighbor) {
                    assert(node.neighbors[last] == Some(pair.1));
                }
            },
            None => {},
        }
    }
}

/// The set-up moves, the roads and the building sites that the enumerator
/// lists are exactly those that the rules allow.
pub proof fn lemma_sites_hold(nodes: Seq<NodeModel>, player: u32, count: int, pair: (u32, u32), at: u32)
    requires
        nodes_wf(nodes),
        0 <= count <= nodes.len(),
    ensures
        setup_pairs(nodes, count).contains(pair) <==> pair.0 < count && is_setup_move(
            nodes,
            pair.0,
            pair.1,
        ),
        open_roads(nodes, player, count).contains(pair) <==> pair.0 < count && is_open_road(
            nodes,
            player,
            pair.0,
            pair.1,
        ),
        settlement_sites(nodes, player, count).contains(at) <==> at < count && is_settlement_site(
            nodes,
            player,
            at,
        ),
        city_sites(nodes, player, count).contains(at) <==> at < count && is_city_site(
            nodes,
            player,
            at,
        ),
    decreases count,
{
    if count > 0 {
        lemma_sites_hold(nodes, player, count - 1, pair, at);
        let node = nodes[count - 1];
        let all = node.neighbors.len() as int;
        assert(node.id == count - 1);
        lemma_neighbor_pairs_hold(node, all, pair);
        assert(names_within(node, all, pair.1) <==> node.names_neighbor(pair.1 as int)) by {
            if names_within(node, all, pair.1) {
                let k = choose|k: int|
                    0 <= k < all && k < node.neighbors.len() && #[trigger] node.neighbors[k]
                        == Some(pair.1);
                assert(node.neighbors[k] == Some((pair.1 as int) as u32));
            }
            if node.names_neighbor(pair.1 as int) {
                let k = choose|k: int|
                    0 <= k < node.neighbors.len() && #[trigger] node.neighbors[k] == Some(
                        (pair.1 as int) as u32,
                    );
                assert(0 <= k < all && node.neighbors[k] == Some(pair.1));
            }
        }
        lemma_contains_concat(setup_pairs(nodes, count - 1), neighbor_pairs(node, all), pair);
        lemma_contains_concat(
            open_roads(nodes, player, count - 1),
            open_roads_of(node, all),
            pair,
        );
        lemma_contains_push(settlement_sites(nodes, player, count - 1), node.id, at);
        lemma_contains_push(city_sites(nodes, player, count - 1), node.id, at);
    }
}

/// The actions made of pairs are the actions of the pairs.
pub proof fn lemma_pair_actions_hold(kind: PairKind, pairs: Seq<(u32, u32)>, count: int, a: ActionModel)
    requires
        0 <= count <= pairs.len(),
    ensures
        kind.actions(pairs, count).contains(a) <==> exists|k: int|
            0 <= k < count && a == kind.action(#[trigger] pairs[k]),
    decreases count,
{
    if count > 0 {
        lemma_pair_actions_hold(kind, pairs, count - 1, a);
        lemma_contains_push(kind.actions(pairs, count - 1), kind.action(pairs[count - 1]), a);
        if exists|k: int| 0 <= k < count - 1 && a == kind.action(#[trigger] pairs[k]) {
            let k = choose|k: int| 0 <= k < count - 1 && a == kind.action(#[trigger] pairs[k]);
            assert(0 <= k < count && a == kind.action(pairs[k]));
        }
        if exists|k: int| 0 <= k < count && a == kind.action(#[trigger] pairs[k]) {
            let k = choose|k: int| 0 <= k < count && a == kind.action(#[trigger] pairs[k]);
            if k < count - 1 {
                assert(a == kind.action(pairs[k]));
            }
        }
    }
}

/// The actions made of sites are the actions of the sites.
pub proof fn lemma_site_actions_hold(kind: SiteKind, sites: Seq<u32>, count: int, a: ActionModel)
    requires
        0 <= count <= sites.len(),
    ensures
        kind.actions(sites, count).contains(a) <==> exists|k: int|
            0 <= k < count && a == kind.action(#[trigger] sites[k]),
    decreases count,
{
    if count > 0 {
        lemma_site_actions_hold(kind, sites, count - 1, a);
        lemma_contains_push(kind.actions(sites, count - 1), kind.action(sites[count - 1]), a);
        if exists|k: int| 0 <= k < count - 1 && a == kind.action(#[trigger] sites[k]) {
            let k = choose|k: int| 0 <= k < count - 1 && a == kind.action(#[trigger] sites[k]);
            assert(0 <= k < count && a == kind.action(sites[k]));
        }
        if exists|k: int| 0 <= k < count && a == kind.action(#[trigger] sites[k]) {
            let k = choose|k: int| 0 <= k < count && a == kind.action(#[trigger] sites[k]);
            if k < count - 1 {
                assert(a == kind.action(sites[k]));
            }
        }
    }
}

/// The actions made of robber moves are the actions of the moves.
pub proof fn lemma_move_actions_hold(
    kind: MoveKind,
    moves: Seq<(u32, u32, Option<u32>)>,
    count: int,
    a: ActionModel,
)
    requires
        0 <= count <= moves.len(),
    ensures
        kind.actions(moves, count).contains(a) <==> exists|k: int|
            0 <= k < count && a == kind.action(#[trigger] moves[k]),
    decreases count,
{
    if count > 0 {
        lemma_move_actions_hold(kind, moves, count - 1, a);
        lemma_contains_push(kind.actions(moves, count - 1), kind.action(moves[count - 1]), a);
        if exists|k: int| 0 <= k < count - 1 && a == kind.action(#[trigger] moves[k]) {
            let k = choose|k: int| 0 <= k < count - 1 && a == kind.action(#[trigger] moves[k]);
            assert(0 <= k < count && a == kind.action(moves[k]));
        }
        if exists|k: int| 0 <= k < count && a == kind.action(#[trigger] moves[k]) {
            let k = choose|k: int| 0 <= k < count && a == kind.action(#[trigger] moves[k]);
            if k < count - 1 {
                assert(a == kind.action(moves[k]));
            }
        }
    }
}

/// While set-up rounds remain, the legal actions of the set-up are exactly
/// the set-up moves that the rules allow: a settlement on any free node
/// with a road to any neighbour of the node. Once the rounds are used up,
/// the only legal action of the set-up is to finish the round.
pub proof fn lemma_setup_offers_allowed_moves(game: GameModel, a: ActionModel)
    requires
        game.wf(),
        game.round.phase == Phase::SetUp,
    ensures
        game.round.phase_count / game.parameters.n_players < game.parameters.n_setup_rounds ==> (
        phase_actions(game).contains(a) <==> (a matches ActionModel::SetUpMove(at, end)
            && is_setup_move(game.round.board.nodes, at, end))),
        game.round.phase_count / game.parameters.n_players >= game.parameters.n_setup_rounds ==> (
        phase_actions(game).contains(a) <==> a == ActionModel::FinishRound),
{
    let nodes = game.round.board.nodes;
    let all = nodes.len() as int;
    let pairs = setup_pairs(nodes, all);
    if game.round.phase_count / game.parameters.n_players < game.parameters.n_setup_rounds {
        lemma_pair_actions_hold(PairKind::SetUp, pairs, pairs.len() as int, a);
        if phase_actions(game).contains(a) {
            let k = choose|k: int|
                0 <= k < pairs.len() && a == PairKind::SetUp.action(#[trigger] pairs[k]);
            assert(pairs.contains(pairs[k]));
            lemma_sites_hold(nodes, 0, all, pairs[k], 0);
        }
        match a {
            ActionModel::SetUpMove(at, end) => {
                if is_setup_move(nodes, at, end) {
                    lemma_sites_hold(nodes, 0, all, (at, end), 0);
                    let k = choose|k: int| 0 <= k < pairs.len() && pairs[k] == (at, end);
                    assert(a == PairKind::SetUp.action(pairs[k]));
                }
            },
            _ => {},
        }
    } else {
        let only = seq![ActionModel::FinishRound];
        assert(only[0] == ActionModel::FinishRound);
        if only.contains(a) {
            let k = choose|k: int| 0 <= k < only.len() && only[k] == a;
            assert(k == 0);
        }
    }
}

/// In the building phase the legal actions are exactly these: to buy
/// nothing; a road that the player can pay for, from a node that the
/// player reaches to a neighbour to which no road leads; a settlement that
/// the player can pay for, on a free node at which a road of the player
/// ends; a city that the player can pay for, on a node that the player has
/// settled; and a development card that the player can pay for.
pub proof fn lemma_building_offers_allowed_purchases(game: GameModel, a: ActionModel)
    requires
        game.wf(),
    ensures
        building_actions(game).contains(a) <==> {
            let player = game.round.active_player;
            let nodes = game.round.board.nodes;
            let budget = game.round.board.budgets[player as int];
            match a {
                ActionModel::NoBuying => true,
                ActionModel::BuildRoad(from, to) => covers(budget, game.parameters.cost(0))
                    && is_open_road(nodes, player, from, to),
                ActionModel::BuildSettlement(at) => covers(budget, game.parameters.cost(1))
                    && is_settlement_site(nodes, player, at),
                ActionModel::BuildCity(at) => covers(budget, game.parameters.cost(2))
                    && is_city_site(nodes, player, at),
                ActionModel::BuyDevCard => covers(budget, game.parameters.cost(3)),
                _ => false,
            }
        },
{
    let player = game.round.active_player;
    let nodes = game.round.board.nodes;
    let all = nodes.len() as int;
    let budget = game.round.board.budgets[player as int];
    let empty = Seq::<ActionModel>::empty();
    let roads = open_roads(nodes, player, all);
    let settlements = settlement_sites(nodes, player, all);
    let cities = city_sites(nodes, player, all);
    let first = seq![ActionModel::NoBuying];
    let b = if covers(budget, game.parameters.cost(0)) {
        PairKind::Road.actions(roads, roads.len() as int)
    } else {
        empty
    };
    let c = if covers(budget, game.parameters.cost(1)) {
        SiteKind::Settlement.actions(settlements, settlements.len() as int)
    } else {
        empty
    };
    let d = if covers(budget, game.parameters.cost(2)) {
        SiteKind::City.actions(cities, cities.len() as int)
    } else {
        empty
    };
    let last = if covers(budget, game.parameters.cost(3)) {
        seq![ActionModel::BuyDevCard]
    } else {
        empty
    };
    assert(building_actions(game) == first + b + c + d + last);
    lemma_contains_concat(first + b + c + d, last, a);
    lemma_contains_concat(first + b + c, d, a);
    lemma_contains_concat(first + b, c, a);
    lemma_contains_concat(first, b, a);
    assert(first.contains(a) <==> a == ActionModel::NoBuying) by {
        assert(first[0] == ActionModel::NoBuying);
        if first.contains(a) {
            let k = choose|k: int| 0 <= k < first.len() && first[k] == a;
            assert(k == 0);
        }
    }
    assert(last.contains(a) <==> a == ActionModel::BuyDevCard && covers(
        budget,
        game.parameters.cost(3),
    )) by {
        if covers(budget, game.parameters.cost(3)) {
            assert(last[0] == ActionModel::BuyDevCard);
        }
        if last.contains(a) {
            let k = choose|k: int| 0 <= k < last.len() && last[k] == a;
            assert(k == 0);
        }
    }
    assert(!empty.contains(a));
    lemma_pair_actions_hold(PairKind::Road, roads, roads.len() as int, a);
    lemma_site_actions_hold(SiteKind::Settlement, settlements, settlements.len() as int, a);
    lemma_site_actions_hold(SiteKind::City, cities, cities.len() as int, a);
    assert(PairKind::Road.actions(roads, roads.len() as int).contains(a) <==> (
    a matches ActionModel::BuildRoad(from, to) && is_open_road(nodes, player, from, to))) by {
        if PairKind::Road.actions(roads, roads.len() as int).contains(a) {
            let k = choose|k: int|
                0 <= k < roads.len() && a == PairKind::Road.action(#[trigger] roads[k]);
            assert(roads.contains(roads[k]));
            lemma_sites_hold(nodes, player, all, roads[k], 0);
        }
        match a {
            ActionModel::BuildRoad(from, to) => {
                if is_open_road(nodes, player, from, to) {
                    lemma_sites_hold(nodes, player, all, (from, to), 0);
                    let k = choose|k: int| 0 <= k < roads.len() && roads[k] == (from, to);
                    assert(a == PairKind::Road.action(roads[k]));
                }
            },
            _ => {},
        }
    }
    assert(SiteKind::Settlement.actions(settlements, settlements.len() as int).contains(a) <==> (
    a matches ActionModel::BuildSettlement(at) && is_settlement_site(nodes, player, at))) by {
        if SiteKind::Settlement.actions(settlements, settlements.len() as int).contains(a) {
            let k = choose|k: int|
                0 <= k < settlements.len() && a == SiteKind::Settlement.action(
                    #[trigger] settlements[k],
                );
            assert(settlements.contains(settlements[k]));
            lemma_sites_hold(nodes, player, all, (0, 0), settlements[k]);
        }
        match a {
            ActionModel::BuildSettlement(at) => {
                if is_settlement_site(nodes, player, at) {
                    lemma_sites_hold(nodes, player, all, (0, 0), at);
                    let k = choose|k: int| 0 <= k < settlements.len() && settlements[k] == at;
                    assert(a == SiteKind::Settlement.action(settlements[k]));
                }
            },
            _ => {},
        }
    }
    assert(SiteKind::City.actions(cities, cities.len() as int).contains(a) <==> (
    a matches ActionModel::BuildCity(at) && is_city_site(nodes, player, at))) by {
        if SiteKind::City.actions(cities, cities.len() as int).contains(a) {
            let k = choose|k: int|
                0 <= k < cities.len() && a == SiteKind::City.action(#[trigger] cities[k]);
            assert(cities.contains(cities[k]));
            lemma_sites_hold(nodes, player, all, (0, 0), cities[k]);
        }
        match a {
            ActionModel::BuildCity(at) => {
                if is_city_site(nodes, player, at) {
                    lemma_sites_hold(nodes, player, all, (0, 0), at);
                    let k = choose|k: int| 0 <= k < cities.len() && cities[k] == at;
                    assert(a == SiteKind::City.action(cities[k]));
                }
            },
            _ => {},
        }
    }
}

/// Whether `player` can rob player `victim` at tile `tile`: the victim is
/// another player who has built on a corner of the tile.
pub open spec fn is_victim(board: BoardModel, player: u32, tile: int, victim: u32) -> bool {
    victim != player && exists|c: int|
        0 <= c < board.tiles[tile].nodes.len() && board.nodes[(
        #[trigger] board.tiles[tile].nodes[c]) as int].node_status.owner() == Some(victim)
}

/// Whether `player` may make the robber move `robbery`: the robber exists,
/// the tile exists, shows a dice sum and holds no robber, and the move robs
/// another player who has built at the tile, or nobody where nobody else
/// has built there.
pub open spec fn is_robber_move(board: BoardModel, player: u32, robbery: (u32, u32, Option<u32>)) -> bool {
    let tile = robbery.1 as int;
    &&& robbery.0 < board.v_robbers.len()
    &&& tile < board.tiles.len()
    &&& !robber_on(board.v_robbers, tile)
    &&& board.tiles[tile].rng is Some
    &&& match robbery.2 {
        Some(victim) => is_victim(board, player, tile, victim),
        None => forall|victim: u32| !is_victim(board, player, tile, victim),
    }
}

/// Whether a player with `budget` may discard `hand`: the hand names a
/// quantity of every resource, of no resource more than the player holds,
/// and holds half of the player's cards, rounded down.
pub open spec fn is_discard(budget: Seq<u32>, hand: Seq<u32>) -> bool {
    &&& hand.len() == budget.len()
    &&& forall|r: int| 0 <= r < hand.len() ==> #[trigger] hand[r] <= budget[r]
    &&& seq_sum(hand) == seq_sum(budget) / 2
}

proof fn lemma_victims_hold(board: BoardModel, player: u32, tile: int, count: int, victim: u32)
    requires
        0 <= tile < board.tiles.len(),
        0 <= count <= board.tiles[tile].nodes.len(),
    ensures
        victims_at(board.nodes, board.tiles[tile], player, count).contains(victim) <==> victim
            != player && exists|c: int|
            0 <= c < count && board.nodes[(#[trigger] board.tiles[tile].nodes[c]) as int].node_status.owner()
                == Some(victim),
    decreases count,
{
    if count > 0 {
        lemma_victims_hold(board, player, tile, count - 1, victim);
        let corners = board.tiles[tile].nodes;
        let before = victims_at(board.nodes, board.tiles[tile], player, count - 1);
        let owner = board.nodes[corners[count - 1] as int].node_status.owner();
        if exists|c: int|
            0 <= c < count - 1 && board.nodes[(#[trigger] corners[c]) as int].node_status.owner()
                == Some(victim) {
            let c = choose|c: int|
                0 <= c < count - 1 && board.nodes[(#[trigger] corners[c]) as int].node_status.owner()
                    == Some(victim);
            assert(0 <= c < count && board.nodes[corners[c] as int].node_status.owner() == Some(
                victim,
            ));
        }
        if exists|c: int|
            0 <= c < count && board.nodes[(#[trigger] corners[c]) as int].node_status.owner()
                == Some(victim) {
            let c = choose|c: int|
                0 <= c < count && board.nodes[(#[trigger] corners[c]) as int].node_status.owner()
                    == Some(victim);
            if c < count - 1 {
                assert(board.nodes[corners[c] as int].node_status.owner() == Some(victim));
            }
        }
        match owner {
            Some(o) => {
                if o != player {
                    lemma_contains_push(before, o, victim);
                    if victim == o {
                        assert(board.nodes[corners[count - 1] as int].node_status.owner() == Some(
                            victim,
                        ));
                    }
                }
            },
            None => {},
        }
    }
}

proof fn lemma_robberies_hold(
    robber: u32,
    tile: u32,
    victims: Seq<u32>,
    count: int,
    robbery: (u32, u32, Option<u32>),
)
    requires
        0 <= count <= victims.len(),
    ensures
        robberies(robber, tile, victims, count).contains(robbery) <==> robbery.0 == robber
            && robbery.1 == tile && exists|k: int|
            0 <= k < count && robbery.2 == Some(#[trigger] victims[k]),
    decreases count,
{
    if count > 0 {
        lemma_robberies_hold(robber, tile, victims, count - 1, robbery);
        lemma_contains_push(
            robberies(robber, tile, victims, count - 1),
            (robber, tile, Some(victims[count - 1])),
            robbery,
        );
        if exists|k: int| 0 <= k < count - 1 && robbery.2 == Some(#[trigger] victims[k]) {
            let k = choose|k: int| 0 <= k < count - 1 && robbery.2 == Some(#[trigger] victims[k]);
            assert(0 <= k < count && robbery.2 == Some(victims[k]));
        }
        if exists|k: int| 0 <= k < count && robbery.2 == Some(#[trigger] victims[k]) {
            let k = choose|k: int| 0 <= k < count && robbery.2 == Some(#[trigger] victims[k]);
            if k < count - 1 {
                assert(robbery.2 == Some(victims[k]));
            }
        }
    }
}

proof fn lemma_moves_to_hold(tile: u32, victims: Seq<u32>, count: int, robbery: (u32, u32, Option<u32>))
    requires
        0 <= count <= u32::MAX,
    ensures
        moves_to(tile, victims, count).contains(robbery) <==> robbery.0 < count && robbery.1 == tile
            && match robbery.2 {
            Some(victim) => victims.contains(victim),
            None => victims.len() == 0,
        },
    decreases count,
{
    if count > 0 {
        lemma_moves_to_hold(tile, victims, count - 1, robbery);
        let robber = (count - 1) as u32;
        let before = moves_to(tile, victims, count - 1);
        if victims.len() == 0 {
            lemma_contains_push(before, (robber, tile, None), robbery);
            if robbery.2 is Some && victims.contains(robbery.2->0) {
                let k = choose|k: int| 0 <= k < victims.len() && victims[k] == robbery.2->0;
            }
        } else {
            let row = robberies(robber, tile, victims, victims.len() as int);
            lemma_contains_concat(before, row, robbery);
            lemma_robberies_hold(robber, tile, victims, victims.len() as int, robbery);
            if robbery.2 is Some && victims.contains(robbery.2->0) {
                let k = choose|k: int| 0 <= k < victims.len() && victims[k] == robbery.2->0;
                assert(robbery.2 == Some(victims[k]));
            }
            if row.contains(robbery) {
                let k = choose|k: int|
                    0 <= k < victims.len() && robbery.2 == Some(#[trigger] victims[k]);
                assert(victims.contains(victims[k]));
            }
        }
    }
}

/// The robber moves that the enumerator lists are exactly those that the
/// rules allow.
pub proof fn lemma_robber_moves_hold(
    board: BoardModel,
    player: u32,
    count: int,
    robbery: (u32, u32, Option<u32>),
)
    requires
        0 <= count <= board.tiles.len(),
        board.tiles.len() <= u32::MAX,
        board.v_robbers.len() <= u32::MAX,
    ensures
        robber_moves(board, player, count).contains(robbery) <==> robbery.1 < count
            && is_robber_move(board, player, robbery),
    decreases count,
{
    if count > 0 {
        lemma_robber_moves_hold(board, player, count - 1, robbery);
        let t = count - 1;
        let tile = board.tiles[t];
        let all = tile.nodes.len() as int;
        let victims = victims_at(board.nodes, tile, player, all);
        if !(robber_on(board.v_robbers, t) || tile.rng is None) {
            let row = moves_to(t as u32, victims, board.v_robbers.len() as int);
            lemma_contains_concat(robber_moves(board, player, count - 1), row, robbery);
            lemma_moves_to_hold(t as u32, victims, board.v_robbers.len() as int, robbery);
            if robbery.1 == t {
                match robbery.2 {
                    Some(victim) => {
                        lemma_victims_hold(board, player, t, all, victim);
                    },
                    None => {
                        if victims.len() == 0 {
                            assert forall|victim: u32| !is_victim(board, player, t, victim) by {
                                lemma_victims_hold(board, player, t, all, victim);
                            }
                        } else {
                            lemma_victims_hold(board, player, t, all, victims[0]);
                            assert(victims.contains(victims[0]));
                            assert(is_victim(board, player, t, victims[0]));
                        }
                    },
                }
            }
        }
    }
}

proof fn lemma_sum_push(s: Seq<u32>, x: u32)
    ensures
        seq_sum(s.push(x)) == seq_sum(s) + x,
{
    assert(s.push(x).drop_last() =~= s);
}

proof fn lemma_sum_with_prefix(hand: Seq<u32>, n: int)
    requires
        0 <= n < hand.len(),
    ensures
        hand.take(n + 1) == hand.take(n).push(hand[n]),
{
    assert(hand.take(n + 1) =~= hand.take(n).push(hand[n]));
}

/// Whether `hand` extends the choice `chosen` to a whole hand within the
/// budget that adds up to `target`.
pub open spec fn extends_to(budget: Seq<u32>, target: int, chosen: Seq<u32>, hand: Seq<u32>) -> bool {
    &&& hand.len() == budget.len()
    &&& chosen.len() <= hand.len()
    &&& hand.take(chosen.len() as int) == chosen
    &&& forall|r: int| chosen.len() <= r < hand.len() ==> #[trigger] hand[r] <= budget[r]
    &&& seq_sum(hand) == target
}

proof fn lemma_hands_from_hold(budget: Seq<u32>, target: int, chosen: Seq<u32>, hand: Seq<u32>)
    requires
        chosen.len() <= budget.len(),
    ensures
        hands_from(budget, target, chosen, seq_sum(chosen)).contains(hand) <==> extends_to(
            budget,
            target,
            chosen,
            hand,
        ),
    decreases budget.len() - chosen.len(), if chosen.len() < budget.len() {
        budget[chosen.len() as int] + 2
    } else {
        0
    },
{
    let sum = seq_sum(chosen);
    if chosen.len() >= budget.len() {
        let only = seq![chosen];
        if sum == target {
            assert(only[0] == chosen);
            if only.contains(hand) {
                let k = choose|k: int| 0 <= k < only.len() && only[k] == hand;
                assert(hand == chosen);
                assert(hand.take(chosen.len() as int) =~= chosen);
            }
            if extends_to(budget, target, chosen, hand) {
                assert(hand.take(hand.len() as int) =~= hand);
            }
        } else {
            if extends_to(budget, target, chosen, hand) {
                assert(hand.take(hand.len() as int) =~= hand);
            }
        }
    } else {
        let n = chosen.len() as int;
        lemma_hands_upto_hold(budget, target, chosen, budget[n] + 1, hand);
    }
}

proof fn lemma_hands_upto_hold(
    budget: Seq<u32>,
    target: int,
    chosen: Seq<u32>,
    count: int,
    hand: Seq<u32>,
)
    requires
        chosen.len() < budget.len(),
        0 <= count <= budget[chosen.len() as int] + 1,
    ensures
        hands_upto(budget, target, chosen, seq_sum(chosen), count).contains(hand) <==> extends_to(
            budget,
            target,
            chosen,
            hand,
        ) && hand[chosen.len() as int] < count,
    decreases budget.len() - chosen.len(), count,
{
    let n = chosen.len() as int;
    let sum = seq_sum(chosen);
    if count > 0 {
        let quantity = (count - 1) as u32;
        let longer = chosen.push(quantity);
        lemma_hands_upto_hold(budget, target, chosen, count - 1, hand);
        lemma_sum_push(chosen, quantity);
        lemma_hands_from_hold(budget, target, longer, hand);
        lemma_contains_concat(
            hands_upto(budget, target, chosen, sum, count - 1),
            hands_from(budget, target, longer, sum + count - 1),
            hand,
        );
        if extends_to(budget, target, longer, hand) {
            assert(hand.take(n) =~= longer.take(n));
            assert(longer.take(n) =~= chosen);
            assert(hand[n] == hand.take(n + 1)[n]);
            assert forall|r: int| n <= r < hand.len() implies #[trigger] hand[r] <= budget[r] by {
                if r == n {
                    assert(hand[n] == quantity);
                }
            }
        }
        if extends_to(budget, target, chosen, hand) && hand[n] == quantity {
            lemma_sum_with_prefix(hand, n);
        }
    }
}

/// The hands that the enumerator lists for a discard are exactly those that
/// the rules allow.
pub proof fn lemma_discards_hold(budget: Seq<u32>, hand: Seq<u32>)
    ensures
        discards(budget).contains(hand) <==> is_discard(budget, hand),
{
    let none = Seq::<u32>::empty();
    lemma_hands_from_hold(budget, seq_sum(budget) / 2, none, hand);
    if is_discard(budget, hand) {
        assert(hand.take(0) =~= none);
    }
}

/// The discards made of hands are the discards of the hands.
pub proof fn lemma_discard_actions_hold(hands: Seq<Seq<u32>>, count: int, a: ActionModel)
    requires
        0 <= count <= hands.len(),
    ensures
        discard_actions(hands, count).contains(a) <==> exists|k: int|
            0 <= k < count && a == ActionModel::DiscardCards(#[trigger] hands[k]),
    decreases count,
{
    if count > 0 {
        lemma_discard_actions_hold(hands, count - 1, a);
        lemma_contains_push(
            discard_actions(hands, count - 1),
            ActionModel::DiscardCards(hands[count - 1]),
            a,
        );
        if exists|k: int| 0 <= k < count - 1 && a == ActionModel::DiscardCards(#[trigger] hands[k]) {
            let k = choose|k: int|
                0 <= k < count - 1 && a == ActionModel::DiscardCards(#[trigger] hands[k]);
            assert(0 <= k < count && a == ActionModel::DiscardCards(hands[k]));
        }
        if exists|k: int| 0 <= k < count && a == ActionModel::DiscardCards(#[trigger] hands[k]) {
            let k = choose|k: int|
                0 <= k < count && a == ActionModel::DiscardCards(#[trigger] hands[k]);
            if k < count - 1 {
                assert(a == ActionModel::DiscardCards(hands[k]));
            }
        }
    }
}

/// When the robber comes, a player with more than seven cards must discard
/// one of the hands that the rules allow, and any other player discards
/// nothing.
pub proof fn lemma_discard_phase_offers_allowed_hands(game: GameModel, a: ActionModel)
    requires
        game.wf(),
        game.round.phase == Phase::RobberDiscard,
    ensures
        ({
            let budget = game.round.board.budgets[game.round.active_player as int];
            phase_actions(game).contains(a) <==> if seq_sum(budget) > 7 {
                a matches ActionModel::DiscardCards(hand) && is_discard(budget, hand)
            } else {
                a == ActionModel::NoDiscard
            }
        }),
{
    let budget = game.round.board.budgets[game.round.active_player as int];
    if seq_sum(budget) > 7 {
        let hands = discards(budget);
        lemma_discard_actions_hold(hands, hands.len() as int, a);
        if phase_actions(game).contains(a) {
            let k = choose|k: int|
                0 <= k < hands.len() && a == ActionModel::DiscardCards(#[trigger] hands[k]);
            assert(hands.contains(hands[k]));
            lemma_discards_hold(budget, hands[k]);
        }
        match a {
            ActionModel::DiscardCards(hand) => {
                if is_discard(budget, hand) {
                    lemma_discards_hold(budget, hand);
                    let k = choose|k: int| 0 <= k < hands.len() && hands[k] == hand;
                    assert(a == ActionModel::DiscardCards(hands[k]));
                }
            },
            _ => {},
        }
    } else {
        let only = seq![ActionModel::NoDiscard];
        assert(only[0] == ActionModel::NoDiscard);
        if only.contains(a) {
            let k = choose|k: int| 0 <= k < only.len() && only[k] == a;
            assert(k == 0);
        }
    }
}

/// When the robber is to be moved, the legal actions are exactly the robber
/// moves that the rules allow.
pub proof fn lemma_robber_phase_offers_allowed_moves(game: GameModel, a: ActionModel)
    requires
        game.wf(),
        game.round.phase == Phase::RobberMove,
    ensures
        phase_actions(game).contains(a) <==> (a matches ActionModel::Robber(robber, tile, victim)
            && is_robber_move(game.round.board, game.round.active_player, (robber, tile, victim))),
{
    let board = game.round.board;
    let player = game.round.active_player;
    let all = board.tiles.len() as int;
    let moves = robber_moves(board, player, all);
    lemma_move_actions_hold(MoveKind::Robber, moves, moves.len() as int, a);
    if phase_actions(game).contains(a) {
        let k = choose|k: int|
            0 <= k < moves.len() && a == MoveKind::Robber.action(#[trigger] moves[k]);
        assert(moves.contains(moves[k]));
        lemma_robber_moves_hold(board, player, all, moves[k]);
    }
    match a {
        ActionModel::Robber(robber, tile, victim) => {
            if is_robber_move(board, player, (robber, tile, victim)) {
                lemma_robber_moves_hold(board, player, all, (robber, tile, victim));
                let k = choose|k: int| 0 <= k < moves.len() && moves[k] == (robber, tile, victim);
                assert(a == MoveKind::Robber.action(moves[k]));
            }
        },
        _ => {},
    }
}

/// A player who is asked to answer a quote may always refuse it, and may
/// accept it exactly if the player holds what the quote demands.
pub proof fn lemma_response_phase_offers_answers(game: GameModel, a: ActionModel)
    requires
        game.round.phase == Phase::TradingResponse,
    ensures
        phase_actions(game).contains(a) <==> a == ActionModel::TradeResponse(
            game.round.active_player,
            false,
        ) || (a == ActionModel::TradeResponse(game.round.active_player, true) && can_accept(game)),
{
    let player = game.round.active_player;
    let no = seq![ActionModel::TradeResponse(player, false)];
    let yes = if can_accept(game) {
        seq![ActionModel::TradeResponse(player, true)]
    } else {
        Seq::empty()
    };
    lemma_contains_concat(no, yes, a);
    assert(no[0] == ActionModel::TradeResponse(player, false));
    if no.contains(a) {
        let k = choose|k: int| 0 <= k < no.len() && no[k] == a;
        assert(k == 0);
    }
    if can_accept(game) {
        assert(yes[0] == ActionModel::TradeResponse(player, true));
    }
    if yes.contains(a) {
        let k = choose|k: int| 0 <= k < yes.len() && yes[k] == a;
        assert(k == 0);
    }
}

/// The actions of a family are the actions for the resources.
pub proof fn lemma_row_actions_hold(row: Row, count: int, a: ActionModel)
    requires
        0 <= count <= u32::MAX,
    ensures
        row.actions(count).contains(a) <==> exists|r: u32| r < count && a == #[trigger] row.action(r),
    decreases count,
{
    if count > 0 {
        lemma_row_actions_hold(row, count - 1, a);
        let last = (count - 1) as u32;
        lemma_contains_push(row.actions(count - 1), row.action(last), a);
        if exists|r: u32| r < count - 1 && a == #[trigger] row.action(r) {
            let r = choose|r: u32| r < count - 1 && a == #[trigger] row.action(r);
            assert(r < count && a == row.action(r));
        }
        if exists|r: u32| r < count && a == #[trigger] row.action(r) {
            let r = choose|r: u32| r < count && a == #[trigger] row.action(r);
            if r < count - 1 {
                assert(a == row.action(r));
            } else {
                assert(r == last);
            }
        }
        if a == row.action(last) {
            assert(last < count);
        }
    }
}

/// Whether `player` with `budget` may trade resource `supplied` with the
/// bank for resource `demanded`: the player holds four cards of the
/// resource.
pub open spec fn is_bank_trade(budget: Seq<u32>, n_resources: u32, supplied: u32, demanded: u32) -> bool {
    supplied < budget.len() && budget[supplied as int] >= 4 && demanded < n_resources
}

/// Whether `player` with `budget` may make the quote: it is the player's
/// quote, it supplies at most three cards of a resource and no more than
/// the player holds, and it demands one to three cards of a resource.
pub open spec fn is_quote(player: usize, budget: Seq<u32>, n_resources: u32, quote: Quote) -> bool {
    &&& quote.quoting_player == player
    &&& quote.resource_supplied < budget.len()
    &&& quote.quantity_supplied < quantities_offered(budget[quote.resource_supplied as int])
    &&& 1 <= quote.quantity_demanded <= 3
    &&& quote.resource_demanded < n_resources
}

/// Whether a harbor of kind `kind` lets a player with `budget` trade
/// resource `supplied` for resource `demanded`: a harbor of a resource takes
/// two cards of its resource, any other harbor three cards of any resource.
pub open spec fn harbor_allows(
    budget: Seq<u32>,
    n_resources: u32,
    kind: u32,
    supplied: u32,
    demanded: u32,
) -> bool {
    &&& demanded < n_resources
    &&& supplied < budget.len()
    &&& if kind < n_resources {
        supplied == kind && budget[supplied as int] >= 2
    } else {
        supplied < n_resources && budget[supplied as int] >= 3
    }
}

/// Whether `player` has claimed a harbor of kind `kind`.
pub open spec fn holds_harbor(nodes: Seq<NodeModel>, player: u32, kind: u32) -> bool {
    exists|i: int|
        0 <= i < nodes.len() && (#[trigger] nodes[i]).harbor is Some && nodes[i].harbor->0.player
            == Some(player) && nodes[i].harbor->0.harbor_type == kind
}

proof fn lemma_quotes_hold(player: usize, supplied: u32, n_resources: u32, quantities: int, a: ActionModel)
    requires
        0 <= quantities <= 4,
    ensures
        quotes_of(player, supplied, n_resources as int, quantities).contains(a) <==> (
        a matches ActionModel::TradeQuote(q) && q.quoting_player == player && q.resource_supplied
            == supplied && q.quantity_supplied < quantities && 1 <= q.quantity_demanded <= 3
            && q.resource_demanded < n_resources),
    decreases quantities,
{
    let n = n_resources as int;
    if quantities > 0 {
        lemma_quotes_hold(player, supplied, n_resources, quantities - 1, a);
        let quantity = (quantities - 1) as u32;
        let before = quotes_of(player, supplied, n, quantities - 1);
        let one = Row::Quotes(player, supplied, quantity, 1);
        let two = Row::Quotes(player, supplied, quantity, 2);
        let three = Row::Quotes(player, supplied, quantity, 3);
        lemma_contains_concat(before + one.actions(n) + two.actions(n), three.actions(n), a);
        lemma_contains_concat(before + one.actions(n), two.actions(n), a);
        lemma_contains_concat(before, one.actions(n), a);
        lemma_row_actions_hold(one, n, a);
        lemma_row_actions_hold(two, n, a);
        lemma_row_actions_hold(three, n, a);
        match a {
            ActionModel::TradeQuote(q) => {
                if q.quoting_player == player && q.resource_supplied == supplied
                    && q.quantity_supplied == quantity && q.resource_demanded < n_resources {
                    if q.quantity_demanded == 1 {
                        assert(a == one.action(q.resource_demanded));
                    } else if q.quantity_demanded == 2 {
                        assert(a == two.action(q.resource_demanded));
                    } else if q.quantity_demanded == 3 {
                        assert(a == three.action(q.resource_demanded));
                    }
                }
            },
            _ => {},
        }
        if one.actions(n).contains(a) {
            let r = choose|r: u32| r < n && a == #[trigger] one.action(r);
        }
        if two.actions(n).contains(a) {
            let r = choose|r: u32| r < n && a == #[trigger] two.action(r);
        }
        if three.actions(n).contains(a) {
            let r = choose|r: u32| r < n && a == #[trigger] three.action(r);
        }
    }
}

proof fn lemma_resource_trades_hold(
    player: usize,
    budget: Seq<u32>,
    n_resources: u32,
    count: int,
    a: ActionModel,
)
    requires
        0 <= count <= budget.len(),
        budget.len() <= u32::MAX,
    ensures
        resource_trades(player, budget, n_resources as int, count).contains(a) <==> match a {
            ActionModel::BankTrade(s, d) => s < count && is_bank_trade(budget, n_resources, s, d),
            ActionModel::TradeQuote(q) => q.resource_supplied < count && is_quote(
                player,
                budget,
                n_resources,
                q,
            ),
            _ => false,
        },
    decreases count,
{
    let n = n_resources as int;
    if count > 0 {
        lemma_resource_trades_hold(player, budget, n_resources, count - 1, a);
        let supplied = (count - 1) as u32;
        let held = budget[count - 1];
        let before = resource_trades(player, budget, n, count - 1);
        let bank = if held >= 4 {
            Row::Bank(supplied).actions(n)
        } else {
            Seq::empty()
        };
        let quotes = quotes_of(player, supplied, n, quantities_offered(held));
        lemma_contains_concat(before + bank, quotes, a);
        lemma_contains_concat(before, bank, a);
        lemma_row_actions_hold(Row::Bank(supplied), n, a);
        lemma_quotes_hold(player, supplied, n_resources, quantities_offered(held), a);
        if Row::Bank(supplied).actions(n).contains(a) {
            let r = choose|r: u32| r < n && a == #[trigger] Row::Bank(supplied).action(r);
        }
        match a {
            ActionModel::BankTrade(s, d) => {
                if s == supplied && d < n_resources {
                    assert(a == Row::Bank(supplied).action(d));
                }
            },
            _ => {},
        }
    }
}

proof fn lemma_open_harbor_hold(kind: u32, budget: Seq<u32>, n_resources: u32, count: int, a: ActionModel)
    requires
        0 <= count <= n_resources,
    ensures
        open_harbor_trades(kind, budget, n_resources as int, count).contains(a) <==> (
        a matches ActionModel::HarborTrade(k, s, d) && k == kind && s < count && s < budget.len()
            && budget[s as int] >= 3 && d < n_resources),
    decreases count,
{
    let n = n_resources as int;
    if count > 0 {
        lemma_open_harbor_hold(kind, budget, n_resources, count - 1, a);
        let supplied = (count - 1) as u32;
        let row = Row::Harbor(kind, supplied);
        if count - 1 < budget.len() && budget[count - 1] >= 3 {
            lemma_contains_concat(open_harbor_trades(kind, budget, n, count - 1), row.actions(n), a);
            lemma_row_actions_hold(row, n, a);
            if row.actions(n).contains(a) {
                let r = choose|r: u32| r < n && a == #[trigger] row.action(r);
            }
            match a {
                ActionModel::HarborTrade(k, s, d) => {
                    if k == kind && s == supplied && d < n_resources {
                        assert(a == row.action(d));
                    }
                },
                _ => {},
            }
        }
    }
}

proof fn lemma_node_harbor_hold(node: NodeModel, player: u32, budget: Seq<u32>, n_resources: u32, a: ActionModel)
    ensures
        node_harbor_trades(node, player, budget, n_resources).contains(a) <==> (
        a matches ActionModel::HarborTrade(k, s, d) && node.harbor is Some && node.harbor->0.player
            == Some(player) && node.harbor->0.harbor_type == k && harbor_allows(
            budget,
            n_resources,
            k,
            s,
            d,
        )),
{
    let n = n_resources as int;
    let none = Seq::<ActionModel>::empty();
    assert(!none.contains(a));
    match node.harbor {
        Some(harbor) => {
            if harbor.player == Some(player) {
                let kind = harbor.harbor_type;
                if kind < n_resources {
                    let row = Row::Harbor(kind, kind);
                    lemma_row_actions_hold(row, n, a);
                    if row.actions(n).contains(a) {
                        let r = choose|r: u32| r < n && a == #[trigger] row.action(r);
                    }
                    match a {
                        ActionModel::HarborTrade(k, s, d) => {
                            if k == kind && s == kind && d < n_resources {
                                assert(a == row.action(d));
                            }
                        },
                        _ => {},
                    }
                } else {
                    lemma_open_harbor_hold(kind, budget, n_resources, n, a);
                }
            }
        },
        None => {},
    }
}

proof fn lemma_harbor_trades_hold(
    nodes: Seq<NodeModel>,
    player: u32,
    budget: Seq<u32>,
    n_resources: u32,
    count: int,
    a: ActionModel,
)
    requires
        0 <= count <= nodes.len(),
    ensures
        harbor_trades(nodes, player, budget, n_resources, count).contains(a) <==> exists|i: int|
            0 <= i < count && #[trigger] node_harbor_trades(
                nodes[i],
                player,
                budget,
                n_resources,
            ).contains(a),
    decreases count,
{
    if count > 0 {
        lemma_harbor_trades_hold(nodes, player, budget, n_resources, count - 1, a);
        lemma_contains_concat(
            harbor_trades(nodes, player, budget, n_resources, count - 1),
            node_harbor_trades(nodes[count - 1], player, budget, n_resources),
            a,
        );
        if exists|i: int|
            0 <= i < count - 1 && #[trigger] node_harbor_trades(
                nodes[i],
                player,
                budget,
                n_resources,
            ).contains(a) {
            let i = choose|i: int|
                0 <= i < count - 1 && #[trigger] node_harbor_trades(
                    nodes[i],
                    player,
                    budget,
                    n_resources,
                ).contains(a);
            assert(0 <= i < count && node_harbor_trades(nodes[i], player, budget, n_resources).contains(
                a,
            ));
        }
        if exists|i: int|
            0 <= i < count && #[trigger] node_harbor_trades(
                nodes[i],
                player,
                budget,
                n_resources,
            ).contains(a) {
            let i = choose|i: int|
                0 <= i < count && #[trigger] node_harbor_trades(
                    nodes[i],
                    player,
                    budget,
                    n_resources,
                ).contains(a);
            if i < count - 1 {
                assert(node_harbor_trades(nodes[i], player, budget, n_resources).contains(a));
            }
        }
    }
}

/// In the trading phase the legal actions are exactly these: not to trade;
/// a trade of four cards of a resource with the bank; a quote of at most
/// three cards that the player holds against one to three cards; and a
/// trade at a harbor that the player has claimed, at the harbor's rate.
pub proof fn lemma_trading_offers_allowed_trades(game: GameModel, a: ActionModel)
    requires
        game.wf(),
    ensures
        ({
            let player = game.round.active_player;
            let board = game.round.board;
            let budget = board.budgets[player as int];
            let n = game.parameters.n_resources;
            trading_actions(board, player, n).contains(a) <==> match a {
                ActionModel::NoTrade => true,
                ActionModel::BankTrade(s, d) => is_bank_trade(budget, n, s, d),
                ActionModel::TradeQuote(q) => is_quote(player as usize, budget, n, q),
                ActionModel::HarborTrade(k, s, d) => holds_harbor(board.nodes, player, k)
                    && harbor_allows(budget, n, k, s, d),
                _ => false,
            }
        }),
{
    let player = game.round.active_player;
    let board = game.round.board;
    let budget = board.budgets[player as int];
    let n = game.parameters.n_resources;
    let nodes = board.nodes;
    let first = seq![ActionModel::NoTrade];
    let b = resource_trades(player as usize, budget, n as int, budget.len() as int);
    let c = harbor_trades(nodes, player, budget, n, nodes.len() as int);
    assert(budget.len() == n);
    lemma_contains_concat(first + b, c, a);
    lemma_contains_concat(first, b, a);
    assert(first[0] == ActionModel::NoTrade);
    if first.contains(a) {
        let k = choose|k: int| 0 <= k < first.len() && first[k] == a;
        assert(k == 0);
    }
    lemma_resource_trades_hold(player as usize, budget, n, budget.len() as int, a);
    lemma_harbor_trades_hold(nodes, player, budget, n, nodes.len() as int, a);
    if c.contains(a) {
        let i = choose|i: int|
            0 <= i < nodes.len() && #[trigger] node_harbor_trades(nodes[i], player, budget, n).contains(
                a,
            );
        lemma_node_harbor_hold(nodes[i], player, budget, n, a);
        assert(nodes[i].harbor is Some);
    }
    match a {
        ActionModel::HarborTrade(k, s, d) => {
            if holds_harbor(nodes, player, k) && harbor_allows(budget, n, k, s, d) {
                let i = choose|i: int|
                    0 <= i < nodes.len() && (#[trigger] nodes[i]).harbor is Some
                        && nodes[i].harbor->0.player == Some(player)
                        && nodes[i].harbor->0.harbor_type == k;
                lemma_node_harbor_hold(nodes[i], player, budget, n, a);
                assert(node_harbor_trades(nodes[i], player, budget, n).contains(a));
            }
        },
        _ => {},
    }
}

/// Whether the rules allow `player` to play `card` as it is: a knight makes
/// an allowed robber move, a road card builds two allowed roads between
/// different pairs of nodes, a plenty card takes two resources of the game
/// and a monopoly card names one.
pub open spec fn card_allowed(board: BoardModel, player: u32, n_resources: u32, card: CardType) -> bool {
    match card {
        CardType::VPCard => true,
        CardType::KnightCard(robber, tile, victim) => is_robber_move(
            board,
            player,
            (robber, tile, victim),
        ),
        CardType::RoadsCard(a, b, c, d) => is_open_road(board.nodes, player, a, b) && is_open_road(
            board.nodes,
            player,
            c,
            d,
        ) && !same_edge(a, b, c, d),
        CardType::PlentyCard(first, second) => first < n_resources && second < n_resources,
        CardType::MonopolyCard(resource) => resource < n_resources,
    }
}

proof fn lemma_road_pairs_hold(first: (u32, u32), roads: Seq<(u32, u32)>, count: int, a: ActionModel)
    requires
        0 <= count <= roads.len(),
    ensures
        road_pairs_with(first, roads, count).contains(a) <==> exists|k: int|
            0 <= k < count && !same_edge(first.0, first.1, (#[trigger] roads[k]).0, roads[k].1) && a
                == ActionModel::CardPlay(
                CardType::RoadsCard(first.0, first.1, roads[k].0, roads[k].1),
            ),
    decreases count,
{
    if count > 0 {
        lemma_road_pairs_hold(first, roads, count - 1, a);
        let second = roads[count - 1];
        let play = ActionModel::CardPlay(
            CardType::RoadsCard(first.0, first.1, second.0, second.1),
        );
        if !same_edge(first.0, first.1, second.0, second.1) {
            lemma_contains_push(road_pairs_with(first, roads, count - 1), play, a);
        }
        if exists|k: int|
            0 <= k < count - 1 && !same_edge(first.0, first.1, (#[trigger] roads[k]).0, roads[k].1)
                && a == ActionModel::CardPlay(
                CardType::RoadsCard(first.0, first.1, roads[k].0, roads[k].1),
            ) {
            let k = choose|k: int|
                0 <= k < count - 1 && !same_edge(
                    first.0,
                    first.1,
                    (#[trigger] roads[k]).0,
                    roads[k].1,
                ) && a == ActionModel::CardPlay(
                    CardType::RoadsCard(first.0, first.1, roads[k].0, roads[k].1),
                );
            assert(0 <= k < count && !same_edge(first.0, first.1, roads[k].0, roads[k].1));
        }
        if exists|k: int|
            0 <= k < count && !same_edge(first.0, first.1, (#[trigger] roads[k]).0, roads[k].1) && a
                == ActionModel::CardPlay(
                CardType::RoadsCard(first.0, first.1, roads[k].0, roads[k].1),
            ) {
            let k = choose|k: int|
                0 <= k < count && !same_edge(first.0, first.1, (#[trigger] roads[k]).0, roads[k].1)
                    && a == ActionModel::CardPlay(
                    CardType::RoadsCard(first.0, first.1, roads[k].0, roads[k].1),
                );
            if k < count - 1 {
                assert(!same_edge(first.0, first.1, roads[k].0, roads[k].1));
            }
        }
    }
}

proof fn lemma_road_plays_hold(roads: Seq<(u32, u32)>, count: int, a: ActionModel)
    requires
        0 <= count <= roads.len(),
    ensures
        road_plays(roads, count).contains(a) <==> (a matches ActionModel::CardPlay(
            CardType::RoadsCard(x, y, z, w),
        ) && !same_edge(x, y, z, w) && roads.contains((z, w)) && exists|i: int|
            0 <= i < count && #[trigger] roads[i] == (x, y)),
    decreases count,
{
    if count > 0 {
        lemma_road_plays_hold(roads, count - 1, a);
        let first = roads[count - 1];
        let all = roads.len() as int;
        lemma_contains_concat(road_plays(roads, count - 1), road_pairs_with(first, roads, all), a);
        lemma_road_pairs_hold(first, roads, all, a);
        match a {
            ActionModel::CardPlay(CardType::RoadsCard(x, y, z, w)) => {
                if exists|i: int| 0 <= i < count - 1 && #[trigger] roads[i] == (x, y) {
                    let i = choose|i: int| 0 <= i < count - 1 && #[trigger] roads[i] == (x, y);
                    assert(0 <= i < count && roads[i] == (x, y));
                }
                if exists|i: int| 0 <= i < count && #[trigger] roads[i] == (x, y) {
                    let i = choose|i: int| 0 <= i < count && #[trigger] roads[i] == (x, y);
                    if i < count - 1 {
                        assert(roads[i] == (x, y));
                    }
                }
                if road_pairs_with(first, roads, all).contains(a) {
                    let k = choose|k: int|
                        0 <= k < all && !same_edge(
                            first.0,
                            first.1,
                            (#[trigger] roads[k]).0,
                            roads[k].1,
                        ) && a == ActionModel::CardPlay(
                            CardType::RoadsCard(first.0, first.1, roads[k].0, roads[k].1),
                        );
                    assert(roads[k] == (z, w));
                    assert(roads[count - 1] == (x, y));
                }
                if first == (x, y) && !same_edge(x, y, z, w) && roads.contains((z, w)) {
                    let k = choose|k: int| 0 <= k < roads.len() && roads[k] == (z, w);
                    assert(!same_edge(first.0, first.1, roads[k].0, roads[k].1));
                }
            },
            _ => {
                if road_pairs_with(first, roads, all).contains(a) {
                    let k = choose|k: int|
                        0 <= k < all && !same_edge(
                            first.0,
                            first.1,
                            (#[trigger] roads[k]).0,
                            roads[k].1,
                        ) && a == ActionModel::CardPlay(
                            CardType::RoadsCard(first.0, first.1, roads[k].0, roads[k].1),
                        );
                }
            },
        }
    }
}

proof fn lemma_plenty_hold(n_resources: u32, count: int, a: ActionModel)
    requires
        0 <= count <= n_resources,
    ensures
        plenty_plays(n_resources as int, count).contains(a) <==> (a matches ActionModel::CardPlay(
            CardType::PlentyCard(first, second),
        ) && first < count && second < n_resources),
    decreases count,
{
    let n = n_resources as int;
    if count > 0 {
        lemma_plenty_hold(n_resources, count - 1, a);
        let row = Row::Plenty((count - 1) as u32);
        lemma_contains_concat(plenty_plays(n, count - 1), row.actions(n), a);
        lemma_row_actions_hold(row, n, a);
        if row.actions(n).contains(a) {
            let r = choose|r: u32| r < n && a == #[trigger] row.action(r);
        }
        match a {
            ActionModel::CardPlay(CardType::PlentyCard(first, second)) => {
                if first == count - 1 && second < n_resources {
                    assert(a == row.action(second));
                }
            },
            _ => {},
        }
    }
}

proof fn lemma_plays_of_kind_hold(game: GameModel, kind: int, a: ActionModel)
    requires
        game.wf(),
        0 <= kind < N_CARD_KINDS,
    ensures
        plays_of_kind(
            game.round.board,
            game.round.active_player,
            game.parameters.n_resources,
            kind,
        ).contains(a) <==> (a matches ActionModel::CardPlay(card) && card.kind() == kind
            && card_allowed(
            game.round.board,
            game.round.active_player,
            game.parameters.n_resources,
            card,
        )),
{
    let board = game.round.board;
    let player = game.round.active_player;
    let n = game.parameters.n_resources;
    if kind == 0 {
        let only = seq![ActionModel::CardPlay(CardType::VPCard)];
        assert(only[0] == ActionModel::CardPlay(CardType::VPCard));
        if only.contains(a) {
            let k = choose|k: int| 0 <= k < only.len() && only[k] == a;
            assert(k == 0);
        }
    } else if kind == 1 {
        let all = board.tiles.len() as int;
        let moves = robber_moves(board, player, all);
        lemma_move_actions_hold(MoveKind::Knight, moves, moves.len() as int, a);
        if MoveKind::Knight.actions(moves, moves.len() as int).contains(a) {
            let k = choose|k: int|
                0 <= k < moves.len() && a == MoveKind::Knight.action(#[trigger] moves[k]);
            assert(moves.contains(moves[k]));
            lemma_robber_moves_hold(board, player, all, moves[k]);
        }
        match a {
            ActionModel::CardPlay(CardType::KnightCard(robber, tile, victim)) => {
                if is_robber_move(board, player, (robber, tile, victim)) {
                    lemma_robber_moves_hold(board, player, all, (robber, tile, victim));
                    let k = choose|k: int|
                        0 <= k < moves.len() && moves[k] == (robber, tile, victim);
                    assert(a == MoveKind::Knight.action(moves[k]));
                }
            },
            _ => {},
        }
    } else if kind == 2 {
        let all = board.nodes.len() as int;
        let roads = open_roads(board.nodes, player, all);
        lemma_road_plays_hold(roads, roads.len() as int, a);
        match a {
            ActionModel::CardPlay(CardType::RoadsCard(x, y, z, w)) => {
                lemma_sites_hold(board.nodes, player, all, (x, y), 0);
                lemma_sites_hold(board.nodes, player, all, (z, w), 0);
                if exists|i: int| 0 <= i < roads.len() && #[trigger] roads[i] == (x, y) {
                    let i = choose|i: int| 0 <= i < roads.len() && #[trigger] roads[i] == (x, y);
                    assert(roads.contains((x, y)));
                }
                if roads.contains((x, y)) {
                    let i = choose|i: int| 0 <= i < roads.len() && roads[i] == (x, y);
                    assert(roads[i] == (x, y));
                }
            },
            _ => {},
        }
    } else if kind == 3 {
        lemma_plenty_hold(n, n as int, a);
    } else {
        lemma_row_actions_hold(Row::Monopoly, n as int, a);
        if Row::Monopoly.actions(n as int).contains(a) {
            let r = choose|r: u32| r < n && a == #[trigger] Row::Monopoly.action(r);
        }
        match a {
            ActionModel::CardPlay(CardType::MonopolyCard(resource)) => {
                if resource < n {
                    assert(a == Row::Monopoly.action(resource));
                }
            },
            _ => {},
        }
    }
}

/// Whether `player` has a card of the kind of `card` in hand: the player
/// has drawn more cards of the kind than the player has shown.
pub open spec fn in_hand(board: BoardModel, player: u32, card: CardType) -> bool {
    board.drawn_dev_cards[player as int][card.kind()] > board.public_dev_cards[player as int][card.kind()]
}

proof fn lemma_card_plays_hold(game: GameModel, kinds: int, a: ActionModel)
    requires
        game.wf(),
        0 <= kinds <= N_CARD_KINDS,
    ensures
        card_plays(
            game.round.board,
            game.round.active_player,
            game.parameters.n_resources,
            kinds,
        ).contains(a) <==> (a matches ActionModel::CardPlay(card) && card.kind() < kinds && in_hand(
            game.round.board,
            game.round.active_player,
            card,
        ) && card_allowed(
            game.round.board,
            game.round.active_player,
            game.parameters.n_resources,
            card,
        )),
    decreases kinds,
{
    let board = game.round.board;
    let player = game.round.active_player;
    let n = game.parameters.n_resources;
    if kinds > 0 {
        lemma_card_plays_hold(game, kinds - 1, a);
        lemma_plays_of_kind_hold(game, kinds - 1, a);
        lemma_contains_concat(
            card_plays(board, player, n, kinds - 1),
            plays_of_kind(board, player, n, kinds - 1),
            a,
        );
    }
}

/// Whether `action` plays a card that the active player has in hand, as
/// the rules allow the card to be played.
pub open spec fn is_card_play(game: GameModel, action: ActionModel) -> bool {
    match action {
        ActionModel::CardPlay(card) => in_hand(game.round.board, game.round.active_player, card)
            && card_allowed(
            game.round.board,
            game.round.active_player,
            game.parameters.n_resources,
            card,
        ),
        _ => false,
    }
}

/// In a card phase the legal actions are exactly these: to play no card;
/// and, while the cards of the round are not used up, to play a card in
/// hand as the rules allow.
pub proof fn lemma_card_phase_offers_allowed_plays(game: GameModel, a: ActionModel)
    requires
        game.wf(),
    ensures
        card_actions(game).contains(a) <==> (a == ActionModel::NoCardPlay || (game.round.cards_played
            < game.parameters.max_cards && is_card_play(game, a))),
{
    let first = seq![ActionModel::NoCardPlay];
    let none = Seq::<ActionModel>::empty();
    let plays = card_plays(
        game.round.board,
        game.round.active_player,
        game.parameters.n_resources,
        N_CARD_KINDS as int,
    );
    assert(first[0] == ActionModel::NoCardPlay);
    if first.contains(a) {
        let k = choose|k: int| 0 <= k < first.len() && first[k] == a;
        assert(k == 0);
    }
    assert(!none.contains(a));
    lemma_contains_concat(first, plays, a);
    lemma_contains_concat(first, none, a);
    lemma_card_plays_hold(game, N_CARD_KINDS as int, a);
}

/// Whether the rules allow the active player of the game to take `action`
/// now.
pub open spec fn is_legal(game: GameModel, action: ActionModel) -> bool {
    let player = game.round.active_player;
    let board = game.round.board;
    let budget = board.budgets[player as int];
    let n = game.parameters.n_resources;
    let human = game.parameters.is_human(player as int);
    let in_phase = match game.round.phase {
        Phase::SetUp => if game.round.phase_count / game.parameters.n_players
            < game.parameters.n_setup_rounds {
            action matches ActionModel::SetUpMove(at, end) && is_setup_move(board.nodes, at, end)
        } else {
            action == ActionModel::FinishRound
        },
        Phase::RobberDiscard => if seq_sum(budget) > 7 {
            action matches ActionModel::DiscardCards(hand) && is_discard(budget, hand)
        } else {
            action == ActionModel::NoDiscard
        },
        Phase::RobberMove => action matches ActionModel::Robber(robber, tile, victim)
            && is_robber_move(board, player, (robber, tile, victim)),
        Phase::FirstCardPhase => action == ActionModel::NoCardPlay || (game.round.cards_played
            < game.parameters.max_cards && is_card_play(game, action)),
        Phase::SecondCardPhase => action == ActionModel::NoCardPlay || (game.round.cards_played
            < game.parameters.max_cards && is_card_play(game, action)),
        Phase::TradingQuote => match action {
            ActionModel::NoTrade => true,
            ActionModel::BankTrade(s, d) => is_bank_trade(budget, n, s, d),
            ActionModel::TradeQuote(q) => is_quote(player as usize, budget, n, q),
            ActionModel::HarborTrade(k, s, d) => holds_harbor(board.nodes, player, k)
                && harbor_allows(budget, n, k, s, d),
            _ => false,
        },
        Phase::TradingResponse => action == ActionModel::TradeResponse(player, false) || (action
            == ActionModel::TradeResponse(player, true) && can_accept(game)),
        Phase::Building => match action {
            ActionModel::NoBuying => true,
            ActionModel::BuildRoad(from, to) => covers(budget, game.parameters.cost(0))
                && is_open_road(board.nodes, player, from, to),
            ActionModel::BuildSettlement(at) => covers(budget, game.parameters.cost(1))
                && is_settlement_site(board.nodes, player, at),
            ActionModel::BuildCity(at) => covers(budget, game.parameters.cost(2)) && is_city_site(
                board.nodes,
                player,
                at,
            ),
            ActionModel::BuyDevCard => covers(budget, game.parameters.cost(3)),
            _ => false,
        },
        Phase::Terminal => false,
    };
    in_phase || (human && (action == ActionModel::Save || action == ActionModel::Quit))
}

/// The enumerator is exhaustive and exact: the legal actions of a game are
/// the actions that the rules allow the active player to take, all of them
/// and no others.
pub proof fn lemma_legal_actions_are_the_allowed_actions(game: GameModel, a: ActionModel)
    requires
        game.wf(),
    ensures
        legal_actions(game).contains(a) <==> is_legal(game, a),
{
    let last = if game.parameters.is_human(game.round.active_player as int) {
        seq![ActionModel::Save, ActionModel::Quit]
    } else {
        Seq::empty()
    };
    lemma_contains_concat(phase_actions(game), last, a);
    if game.parameters.is_human(game.round.active_player as int) {
        assert(last[0] == ActionModel::Save && last[1] == ActionModel::Quit);
    }
    if last.contains(a) {
        let k = choose|k: int| 0 <= k < last.len() && last[k] == a;
        assert(k == 0 || k == 1);
    }
    match game.round.phase {
        Phase::SetUp => {
            lemma_setup_offers_allowed_moves(game, a);
        },
        Phase::RobberDiscard => {
            lemma_discard_phase_offers_allowed_hands(game, a);
        },
        Phase::RobberMove => {
            lemma_robber_phase_offers_allowed_moves(game, a);
        },
        Phase::FirstCardPhase => {
            lemma_card_phase_offers_allowed_plays(game, a);
        },
        Phase::SecondCardPhase => {
            lemma_card_phase_offers_allowed_plays(game, a);
        },
        Phase::TradingQuote => {
            lemma_trading_offers_allowed_trades(game, a);
        },
        Phase::TradingResponse => {
            lemma_response_phase_offers_answers(game, a);
        },
        Phase::Building => {
            lemma_building_offers_allowed_purchases(game, a);
        },
        Phase::Terminal => {
            let none = Seq::<ActionModel>::empty();
            assert(!none.contains(a));
        },
    }
}

} // verus!
