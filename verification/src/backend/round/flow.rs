use vstd::prelude::*;
use crate::backend::round::action::ActionModel;
use crate::backend::round::cards::CardType;
use crate::backend::round::legal::{building_actions, can_accept, card_actions, card_plays, city_sites, discard_actions, discards, hands_from, hands_upto, harbor_trades, legal_actions, moves_to, neighbor_pairs, node_harbor_trades, open_harbor_trades, open_roads, open_roads_of, phase_actions, plays_of_kind, plenty_plays, quotes_of, resource_trades, road_pairs_with, road_plays, robber_moves, robberies, settlement_sites, setup_pairs, victims_at, MoveKind, PairKind, Row, SiteKind};
use crate::backend::round::phase::Phase;
use crate::backend::round::rules::accepts;
use crate::backend::setup::board::BoardModel;
use crate::backend::setup::game::GameModel;
use crate::backend::setup::game_parameters::{GameParameters, N_CARD_KINDS};
use crate::backend::setup::node::{nodes_wf, NodeModel};

verus! {

/// Whether the game can take every action of the list, but for `Quit`.
pub open spec fn all_accepted(game: GameModel, actions: Seq<ActionModel>) -> bool {
    forall|k: int|
        0 <= k < actions.len() ==> (#[trigger] actions[k]) is Quit || accepts(game, actions[k])
}

/// Whether every pair of the list names two of the first `bound` nodes.
pub open spec fn pairs_below(pairs: Seq<(u32, u32)>, bound: int) -> bool {
    forall|k: int| 0 <= k < pairs.len() ==> (#[trigger] pairs[k]).0 < bound && pairs[k].1 < bound
}

/// Whether every number of the list is below `bound`.
pub open spec fn all_below(list: Seq<u32>, bound: int) -> bool {
    forall|k: int| 0 <= k < list.len() ==> #[trigger] list[k] < bound
}

/// Whether every robber move of the list names a robber, a tile and, if
/// anybody, a player of the game.
pub open spec fn moves_below(
    moves: Seq<(u32, u32, Option<u32>)>,
    robbers: int,
    tiles: int,
    players: int,
) -> bool {
    forall|k: int|
        0 <= k < moves.len() ==> {
            &&& (#[trigger] moves[k]).0 < robbers
            &&& moves[k].1 < tiles
            &&& match moves[k].2 {
                Some(victim) => victim < players,
                None => true,
            }
        }
}

proof fn lemma_accepted_concat(game: GameModel, a: Seq<ActionModel>, b: Seq<ActionModel>)
    requires
        all_accepted(game, a),
        all_accepted(game, b),
    ensures
        all_accepted(game, a + b),
{
    assert forall|k: int| 0 <= k < (a + b).len() implies (#[trigger] (a + b)[k]) is Quit || accepts(
        game,
        (a + b)[k],
    ) by {
        if k < a.len() {
            assert((a + b)[k] == a[k]);
        } else {
            assert((a + b)[k] == b[k - a.len()]);
        }
    }
}

proof fn lemma_accepted_push(game: GameModel, a: Seq<ActionModel>, action: ActionModel)
    requires
        all_accepted(game, a),
        action is Quit || accepts(game, action),
    ensures
        all_accepted(game, a.push(action)),
{
    assert forall|k: int| 0 <= k < a.push(action).len() implies (#[trigger] a.push(action)[k])
        is Quit || accepts(game, a.push(action)[k]) by {
        if k < a.len() {
            assert(a.push(action)[k] == a[k]);
        }
    }
}

proof fn lemma_pairs_concat(a: Seq<(u32, u32)>, b: Seq<(u32, u32)>, bound: int)
    requires
        pairs_below(a, bound),
        pairs_below(b, bound),
    ensures
        pairs_below(a + b, bound),
{
    assert forall|k: int| 0 <= k < (a + b).len() implies (#[trigger] (a + b)[k]).0 < bound && (a
        + b)[k].1 < bound by {
        if k < a.len() {
            assert((a + b)[k] == a[k]);
        } else {
            assert((a + b)[k] == b[k - a.len()]);
        }
    }
}

proof fn lemma_neighbor_pairs_below(nodes: Seq<NodeModel>, at: int, count: int)
    requires
        nodes_wf(nodes),
        0 <= at < nodes.len(),
        0 <= count <= nodes[at].neighbors.len(),
    ensures
        pairs_below(neighbor_pairs(nodes[at], count), nodes.len() as int),
        pairs_below(open_roads_of(nodes[at], count), nodes.len() as int),
    decreases count,
{
    if count > 0 {
        lemma_neighbor_pairs_below(nodes, at, count - 1);
        let node = nodes[at];
        assert(node.id == at);
        match node.neighbors[count - 1] {
            Some(neighbor) => {
                assert(neighbor < nodes.len());
            },
            None => {},
        }
    }
}

/// Every set-up move and every road that is open on the board names nodes
/// of the board.
pub proof fn lemma_pairs_on_board(nodes: Seq<NodeModel>, player: u32, count: int)
    requires
        nodes_wf(nodes),
        0 <= count <= nodes.len(),
    ensures
        pairs_below(setup_pairs(nodes, count), nodes.len() as int),
        pairs_below(open_roads(nodes, player, count), nodes.len() as int),
        all_below(settlement_sites(nodes, player, count), nodes.len() as int),
        all_below(city_sites(nodes, player, count), nodes.len() as int),
    decreases count,
{
    if count > 0 {
        lemma_pairs_on_board(nodes, player, count - 1);
        let node = nodes[count - 1];
        assert(node.id == count - 1);
        lemma_neighbor_pairs_below(nodes, count - 1, node.neighbors.len() as int);
        lemma_pairs_concat(
            setup_pairs(nodes, count - 1),
            neighbor_pairs(node, node.neighbors.len() as int),
            nodes.len() as int,
        );
        lemma_pairs_concat(
            open_roads(nodes, player, count - 1),
            open_roads_of(node, node.neighbors.len() as int),
            nodes.len() as int,
        );
    }
}

proof fn lemma_victims_are_players(board: BoardModel, parameters: &GameParameters, tile: int, player: u32, count: int)
    requires
        board.wf(parameters),
        0 <= tile < board.tiles.len(),
        0 <= count <= board.tiles[tile].nodes.len(),
    ensures
        all_below(
            victims_at(board.nodes, board.tiles[tile], player, count),
            parameters.n_players as int,
        ),
    decreases count,
{
    if count > 0 {
        lemma_victims_are_players(board, parameters, tile, player, count - 1);
        let corner = board.tiles[tile].nodes[count - 1] as int;
        assert(corner < board.nodes.len());
        assert(board.nodes[corner].node_status.owner() is Some ==> board.nodes[corner].node_status.owner()->0
            < parameters.n_players);
    }
}

proof fn lemma_robberies_below(robber: u32, tile: u32, victims: Seq<u32>, count: int, robbers: int, tiles: int, players: int)
    requires
        robber < robbers,
        tile < tiles,
        all_below(victims, players),
        0 <= count <= victims.len(),
    ensures
        moves_below(robberies(robber, tile, victims, count), robbers, tiles, players),
    decreases count,
{
    if count > 0 {
        lemma_robberies_below(robber, tile, victims, count - 1, robbers, tiles, players);
    }
}

proof fn lemma_moves_concat(
    a: Seq<(u32, u32, Option<u32>)>,
    b: Seq<(u32, u32, Option<u32>)>,
    robbers: int,
    tiles: int,
    players: int,
)
    requires
        moves_below(a, robbers, tiles, players),
        moves_below(b, robbers, tiles, players),
    ensures
        moves_below(a + b, robbers, tiles, players),
{
    assert forall|k: int| 0 <= k < (a + b).len() implies {
        &&& (#[trigger] (a + b)[k]).0 < robbers
        &&& (a + b)[k].1 < tiles
        &&& match (a + b)[k].2 {
            Some(victim) => victim < players,
            None => true,
        }
    } by {
        if k < a.len() {
            assert((a + b)[k] == a[k]);
        } else {
            assert((a + b)[k] == b[k - a.len()]);
        }
    }
}

proof fn lemma_moves_to_below(tile: u32, victims: Seq<u32>, count: int, robbers: int, tiles: int, players: int)
    requires
        tile < tiles,
        all_below(victims, players),
        0 <= count <= robbers,
        robbers <= u32::MAX,
    ensures
        moves_below(moves_to(tile, victims, count), robbers, tiles, players),
    decreases count,
{
    if count > 0 {
        lemma_moves_to_below(tile, victims, count - 1, robbers, tiles, players);
        if victims.len() > 0 {
            lemma_robberies_below(
                (count - 1) as u32,
                tile,
                victims,
                victims.len() as int,
                robbers,
                tiles,
                players,
            );
            lemma_moves_concat(
                moves_to(tile, victims, count - 1),
                robberies((count - 1) as u32, tile, victims, victims.len() as int),
                robbers,
                tiles,
                players,
            );
        }
    }
}

/// Every robber move that is open names a robber, a tile and, if anybody, a
/// player of the game.
pub proof fn lemma_robber_moves_on_board(board: BoardModel, parameters: &GameParameters, player: u32, count: int)
    requires
        board.wf(parameters),
        0 <= count <= board.tiles.len(),
    ensures
        moves_below(
            robber_moves(board, player, count),
            board.v_robbers.len() as int,
            board.tiles.len() as int,
            parameters.n_players as int,
        ),
    decreases count,
{
    if count > 0 {
        lemma_robber_moves_on_board(board, parameters, player, count - 1);
        let tile = board.tiles[count - 1];
        lemma_victims_are_players(board, parameters, count - 1, player, tile.nodes.len() as int);
        let victims = victims_at(board.nodes, tile, player, tile.nodes.len() as int);
        lemma_moves_to_below(
            (count - 1) as u32,
            victims,
            board.v_robbers.len() as int,
            board.v_robbers.len() as int,
            board.tiles.len() as int,
            parameters.n_players as int,
        );
        lemma_moves_concat(
            robber_moves(board, player, count - 1),
            moves_to((count - 1) as u32, victims, board.v_robbers.len() as int),
            board.v_robbers.len() as int,
            board.tiles.len() as int,
            parameters.n_players as int,
        );
    }
}

/// Every hand that can be discarded names a quantity of every resource.
pub proof fn lemma_hands_are_whole(budget: Seq<u32>, target: int, chosen: Seq<u32>, sum: int, k: int)
    requires
        chosen.len() <= budget.len(),
        0 <= k < hands_from(budget, target, chosen, sum).len(),
    ensures
        hands_from(budget, target, chosen, sum)[k].len() == budget.len(),
    decreases budget.len() - chosen.len(), if chosen.len() < budget.len() {
        budget[chosen.len() as int] + 2
    } else {
        0
    },
{
    if chosen.len() < budget.len() {
        lemma_hands_upto_are_whole(budget, target, chosen, sum, budget[chosen.len() as int] + 1, k);
    }
}

proof fn lemma_hands_upto_are_whole(
    budget: Seq<u32>,
    target: int,
    chosen: Seq<u32>,
    sum: int,
    count: int,
    k: int,
)
    requires
        chosen.len() < budget.len(),
        0 <= k < hands_upto(budget, target, chosen, sum, count).len(),
    ensures
        hands_upto(budget, target, chosen, sum, count)[k].len() == budget.len(),
    decreases budget.len() - chosen.len(), count,
{
    if count > 0 {
        let before = hands_upto(budget, target, chosen, sum, count - 1);
        if k < before.len() {
            lemma_hands_upto_are_whole(budget, target, chosen, sum, count - 1, k);
        } else {
            lemma_hands_are_whole(
                budget,
                target,
                chosen.push((count - 1) as u32),
                sum + count - 1,
                k - before.len(),
            );
        }
    }
}

proof fn lemma_row_accepted(game: GameModel, row: Row, count: int)
    requires
        0 <= count <= game.parameters.n_resources,
        match row {
            Row::Bank(supplied) => supplied < game.parameters.n_resources,
            Row::Harbor(_, supplied) => supplied < game.parameters.n_resources,
            Row::Plenty(first) => first < game.parameters.n_resources,
            Row::Monopoly => true,
            Row::Quotes(_, _, _, _) => true,
        },
    ensures
        all_accepted(game, row.actions(count)),
    decreases count,
{
    reveal(accepts);
    if count > 0 {
        lemma_row_accepted(game, row, count - 1);
        lemma_accepted_push(game, row.actions(count - 1), row.action((count - 1) as u32));
    }
}

proof fn lemma_quotes_accepted(game: GameModel, player: usize, supplied: u32, quantities: int)
    ensures
        all_accepted(
            game,
            quotes_of(player, supplied, game.parameters.n_resources as int, quantities),
        ),
    decreases quantities,
{
    let n = game.parameters.n_resources as int;
    if quantities > 0 {
        let quantity = (quantities - 1) as u32;
        lemma_quotes_accepted(game, player, supplied, quantities - 1);
        lemma_row_accepted(game, Row::Quotes(player, supplied, quantity, 1), n);
        lemma_row_accepted(game, Row::Quotes(player, supplied, quantity, 2), n);
        lemma_row_accepted(game, Row::Quotes(player, supplied, quantity, 3), n);
        let a = quotes_of(player, supplied, n, quantities - 1);
        let b = Row::Quotes(player, supplied, quantity, 1).actions(n);
        let c = Row::Quotes(player, supplied, quantity, 2).actions(n);
        let d = Row::Quotes(player, supplied, quantity, 3).actions(n);
        lemma_accepted_concat(game, a, b);
        lemma_accepted_concat(game, a + b, c);
        lemma_accepted_concat(game, a + b + c, d);
    }
}

proof fn lemma_resource_trades_accepted(game: GameModel, player: usize, budget: Seq<u32>, count: int)
    requires
        0 <= count <= budget.len(),
        budget.len() == game.parameters.n_resources,
    ensures
        all_accepted(
            game,
            resource_trades(player, budget, game.parameters.n_resources as int, count),
        ),
    decreases count,
{
    let n = game.parameters.n_resources as int;
    if count > 0 {
        lemma_resource_trades_accepted(game, player, budget, count - 1);
        let supplied = (count - 1) as u32;
        let held = budget[count - 1];
        let bank = if held >= 4 {
            Row::Bank(supplied).actions(n)
        } else {
            Seq::empty()
        };
        if held >= 4 {
            lemma_row_accepted(game, Row::Bank(supplied), n);
        }
        lemma_quotes_accepted(
            game,
            player,
            supplied,
            crate::backend::round::legal::quantities_offered(held),
        );
        lemma_accepted_concat(game, resource_trades(player, budget, n, count - 1), bank);
        lemma_accepted_concat(
            game,
            resource_trades(player, budget, n, count - 1) + bank,
            quotes_of(player, supplied, n, crate::backend::round::legal::quantities_offered(held)),
        );
    }
}

proof fn lemma_open_harbor_accepted(game: GameModel, kind: u32, budget: Seq<u32>, count: int)
    requires
        0 <= count <= game.parameters.n_resources,
    ensures
        all_accepted(
            game,
            open_harbor_trades(kind, budget, game.parameters.n_resources as int, count),
        ),
    decreases count,
{
    let n = game.parameters.n_resources as int;
    if count > 0 {
        lemma_open_harbor_accepted(game, kind, budget, count - 1);
        if count - 1 < budget.len() && budget[count - 1] >= 3 {
            lemma_row_accepted(game, Row::Harbor(kind, (count - 1) as u32), n);
            lemma_accepted_concat(
                game,
                open_harbor_trades(kind, budget, n, count - 1),
                Row::Harbor(kind, (count - 1) as u32).actions(n),
            );
        }
    }
}

proof fn lemma_harbor_trades_accepted(game: GameModel, player: u32, budget: Seq<u32>, count: int)
    requires
        0 <= count <= game.round.board.nodes.len(),
    ensures
        all_accepted(
            game,
            harbor_trades(game.round.board.nodes, player, budget, game.parameters.n_resources, count),
        ),
    decreases count,
{
    let n = game.parameters.n_resources;
    let nodes = game.round.board.nodes;
    if count > 0 {
        lemma_harbor_trades_accepted(game, player, budget, count - 1);
        let node = nodes[count - 1];
        match node.harbor {
            Some(harbor) => {
                if harbor.player == Some(player) {
                    if harbor.harbor_type < n {
                        lemma_row_accepted(
                            game,
                            Row::Harbor(harbor.harbor_type, harbor.harbor_type),
                            n as int,
                        );
                    } else {
                        lemma_open_harbor_accepted(game, harbor.harbor_type, budget, n as int);
                    }
                }
            },
            None => {},
        }
        lemma_accepted_concat(
            game,
            harbor_trades(nodes, player, budget, n, count - 1),
            node_harbor_trades(node, player, budget, n),
        );
    }
}

proof fn lemma_pair_actions_accepted(game: GameModel, kind: PairKind, pairs: Seq<(u32, u32)>, count: int)
    requires
        pairs_below(pairs, game.round.board.nodes.len() as int),
        0 <= count <= pairs.len(),
    ensures
        all_accepted(game, kind.actions(pairs, count)),
    decreases count,
{
    reveal(accepts);
    if count > 0 {
        lemma_pair_actions_accepted(game, kind, pairs, count - 1);
        lemma_accepted_push(game, kind.actions(pairs, count - 1), kind.action(pairs[count - 1]));
    }
}

proof fn lemma_move_actions_accepted(
    game: GameModel,
    kind: MoveKind,
    moves: Seq<(u32, u32, Option<u32>)>,
    count: int,
)
    requires
        moves_below(
            moves,
            game.round.board.v_robbers.len() as int,
            game.round.board.tiles.len() as int,
            game.parameters.n_players as int,
        ),
        0 <= count <= moves.len(),
    ensures
        all_accepted(game, kind.actions(moves, count)),
    decreases count,
{
    reveal(accepts);
    if count > 0 {
        lemma_move_actions_accepted(game, kind, moves, count - 1);
        lemma_accepted_push(game, kind.actions(moves, count - 1), kind.action(moves[count - 1]));
    }
}

proof fn lemma_site_actions_accepted(game: GameModel, kind: SiteKind, sites: Seq<u32>, count: int)
    requires
        all_below(sites, game.round.board.nodes.len() as int),
        0 <= count <= sites.len(),
    ensures
        all_accepted(game, kind.actions(sites, count)),
    decreases count,
{
    reveal(accepts);
    if count > 0 {
        lemma_site_actions_accepted(game, kind, sites, count - 1);
        lemma_accepted_push(game, kind.actions(sites, count - 1), kind.action(sites[count - 1]));
    }
}

proof fn lemma_discards_accepted(game: GameModel, budget: Seq<u32>, count: int)
    requires
        budget.len() == game.parameters.n_resources,
        0 <= count <= discards(budget).len(),
    ensures
        all_accepted(game, discard_actions(discards(budget), count)),
    decreases count,
{
    reveal(accepts);
    if count > 0 {
        lemma_discards_accepted(game, budget, count - 1);
        lemma_hands_are_whole(budget, crate::backend::setup::dice::seq_sum(budget) / 2, Seq::empty(), 0, count - 1);
        lemma_accepted_push(
            game,
            discard_actions(discards(budget), count - 1),
            ActionModel::DiscardCards(discards(budget)[count - 1]),
        );
    }
}

proof fn lemma_road_pairs_accepted(game: GameModel, first: (u32, u32), roads: Seq<(u32, u32)>, count: int)
    requires
        pairs_below(roads, game.round.board.nodes.len() as int),
        first.0 < game.round.board.nodes.len(),
        first.1 < game.round.board.nodes.len(),
        0 <= count <= roads.len(),
    ensures
        all_accepted(game, road_pairs_with(first, roads, count)),
    decreases count,
{
    reveal(accepts);
    if count > 0 {
        lemma_road_pairs_accepted(game, first, roads, count - 1);
        let second = roads[count - 1];
        lemma_accepted_push(
            game,
            road_pairs_with(first, roads, count - 1),
            ActionModel::CardPlay(CardType::RoadsCard(first.0, first.1, second.0, second.1)),
        );
    }
}

proof fn lemma_road_plays_accepted(game: GameModel, roads: Seq<(u32, u32)>, count: int)
    requires
        pairs_below(roads, game.round.board.nodes.len() as int),
        0 <= count <= roads.len(),
    ensures
        all_accepted(game, road_plays(roads, count)),
    decreases count,
{
    if count > 0 {
        lemma_road_plays_accepted(game, roads, count - 1);
        lemma_road_pairs_accepted(game, roads[count - 1], roads, roads.len() as int);
        lemma_accepted_concat(
            game,
            road_plays(roads, count - 1),
            road_pairs_with(roads[count - 1], roads, roads.len() as int),
        );
    }
}

proof fn lemma_plenty_accepted(game: GameModel, count: int)
    requires
        0 <= count <= game.parameters.n_resources,
    ensures
        all_accepted(game, plenty_plays(game.parameters.n_resources as int, count)),
    decreases count,
{
    let n = game.parameters.n_resources as int;
    if count > 0 {
        lemma_plenty_accepted(game, count - 1);
        lemma_row_accepted(game, Row::Plenty((count - 1) as u32), n);
        lemma_accepted_concat(
            game,
            plenty_plays(n, count - 1),
            Row::Plenty((count - 1) as u32).actions(n),
        );
    }
}

proof fn lemma_card_plays_accepted(game: GameModel, kinds: int)
    requires
        game.wf(),
        0 <= kinds <= N_CARD_KINDS,
    ensures
        all_accepted(
            game,
            card_plays(
                game.round.board,
                game.round.active_player,
                game.parameters.n_resources,
                kinds,
            ),
        ),
    decreases kinds,
{
    let board = game.round.board;
    let player = game.round.active_player;
    let n = game.parameters.n_resources;
    if kinds > 0 {
        lemma_card_plays_accepted(game, kinds - 1);
        let kind = kinds - 1;
        if kind == 0 {
            assert(all_accepted(game, plays_of_kind(board, player, n, kind))) by {
                reveal(accepts);
            }
        } else if kind == 1 {
            lemma_robber_moves_on_board(board, &game.parameters, player, board.tiles.len() as int);
            let moves = robber_moves(board, player, board.tiles.len() as int);
            lemma_move_actions_accepted(game, MoveKind::Knight, moves, moves.len() as int);
        } else if kind == 2 {
            lemma_pairs_on_board(board.nodes, player, board.nodes.len() as int);
            let roads = open_roads(board.nodes, player, board.nodes.len() as int);
            lemma_road_plays_accepted(game, roads, roads.len() as int);
        } else if kind == 3 {
            lemma_plenty_accepted(game, n as int);
        } else {
            lemma_row_accepted(game, Row::Monopoly, n as int);
        }
        lemma_accepted_concat(
            game,
            card_plays(board, player, n, kinds - 1),
            plays_of_kind(board, player, n, kind),
        );
    }
}

/// What the enumerator offers, the executor can take: the game accepts
/// every legal action but `Quit`, which ends the program instead.
pub proof fn lemma_legal_actions_are_accepted(game: GameModel)
    requires
        game.wf(),
    ensures
        all_accepted(game, legal_actions(game)),
{
    let board = game.round.board;
    let player = game.round.active_player;
    let n = game.parameters.n_resources;
    let budget = board.budgets[player as int];
    let empty = Seq::<ActionModel>::empty();
    assert(budget.len() == n);
    let single = |action: ActionModel| seq![action];
    assert(all_accepted(game, empty));
    lemma_pairs_on_board(board.nodes, player, board.nodes.len() as int);
    match game.round.phase {
        Phase::SetUp => {
            let pairs = setup_pairs(board.nodes, board.nodes.len() as int);
            lemma_pair_actions_accepted(game, PairKind::SetUp, pairs, pairs.len() as int);
            assert(all_accepted(game, seq![ActionModel::FinishRound])) by {
                reveal(accepts);
            }
        },
        Phase::RobberDiscard => {
            lemma_discards_accepted(game, budget, discards(budget).len() as int);
            assert(all_accepted(game, seq![ActionModel::NoDiscard])) by {
                reveal(accepts);
            }
        },
        Phase::RobberMove => {
            lemma_robber_moves_on_board(board, &game.parameters, player, board.tiles.len() as int);
            let moves = robber_moves(board, player, board.tiles.len() as int);
            lemma_move_actions_accepted(game, MoveKind::Robber, moves, moves.len() as int);
        },
        Phase::FirstCardPhase => {
            lemma_card_actions_accepted(game);
        },
        Phase::SecondCardPhase => {
            lemma_card_actions_accepted(game);
        },
        Phase::TradingQuote => {
            assert(all_accepted(game, seq![ActionModel::NoTrade])) by {
                reveal(accepts);
            }
            lemma_resource_trades_accepted(game, player as usize, budget, budget.len() as int);
            lemma_harbor_trades_accepted(game, player, budget, board.nodes.len() as int);
            let a = seq![ActionModel::NoTrade];
            let b = resource_trades(player as usize, budget, n as int, budget.len() as int);
            let c = harbor_trades(board.nodes, player, budget, n, board.nodes.len() as int);
            lemma_accepted_concat(game, a, b);
            lemma_accepted_concat(game, a + b, c);
        },
        Phase::TradingResponse => {
            let no = seq![ActionModel::TradeResponse(player, false)];
            assert(all_accepted(game, no)) by {
                reveal(accepts);
            }
            if can_accept(game) {
                let yes = seq![ActionModel::TradeResponse(player, true)];
                assert(all_accepted(game, yes)) by {
                    reveal(accepts);
                }
                lemma_accepted_concat(game, no, yes);
            } else {
                lemma_accepted_concat(game, no, empty);
            }
        },
        Phase::Building => {
            lemma_building_actions_accepted(game);
        },
        Phase::Terminal => {},
    }
    assert(all_accepted(game, phase_actions(game)));
    let last = seq![ActionModel::Save, ActionModel::Quit];
    assert(all_accepted(game, last)) by {
        reveal(accepts);
    }
    if game.parameters.is_human(player as int) {
        lemma_accepted_concat(game, phase_actions(game), last);
    } else {
        lemma_accepted_concat(game, phase_actions(game), empty);
    }
}

proof fn lemma_card_actions_accepted(game: GameModel)
    requires
        game.wf(),
    ensures
        all_accepted(game, card_actions(game)),
{
    let first = seq![ActionModel::NoCardPlay];
    assert(all_accepted(game, first)) by {
        reveal(accepts);
    }
    if game.round.cards_played < game.parameters.max_cards {
        lemma_card_plays_accepted(game, N_CARD_KINDS as int);
        lemma_accepted_concat(
            game,
            first,
            card_plays(
                game.round.board,
                game.round.active_player,
                game.parameters.n_resources,
                N_CARD_KINDS as int,
            ),
        );
    } else {
        lemma_accepted_concat(game, first, Seq::empty());
    }
}

proof fn lemma_building_actions_accepted(game: GameModel)
    requires
        game.wf(),
    ensures
        all_accepted(game, building_actions(game)),
{
    let player = game.round.active_player;
    let board = game.round.board;
    let budget = board.budgets[player as int];
    let empty = Seq::<ActionModel>::empty();
    lemma_pairs_on_board(board.nodes, player, board.nodes.len() as int);
    let roads = open_roads(board.nodes, player, board.nodes.len() as int);
    let settlements = settlement_sites(board.nodes, player, board.nodes.len() as int);
    let cities = city_sites(board.nodes, player, board.nodes.len() as int);
    lemma_pair_actions_accepted(game, PairKind::Road, roads, roads.len() as int);
    lemma_site_actions_accepted(game, SiteKind::Settlement, settlements, settlements.len() as int);
    lemma_site_actions_accepted(game, SiteKind::City, cities, cities.len() as int);
    let a = seq![ActionModel::NoBuying];
    let b = if crate::backend::round::budget::covers(budget, game.parameters.cost(0)) {
        PairKind::Road.actions(roads, roads.len() as int)
    } else {
        empty
    };
    let c = if crate::backend::round::budget::covers(budget, game.parameters.cost(1)) {
        SiteKind::Settlement.actions(settlements, settlements.len() as int)
    } else {
        empty
    };
    let d = if crate::backend::round::budget::covers(budget, game.parameters.cost(2)) {
        SiteKind::City.actions(cities, cities.len() as int)
    } else {
        empty
    };
    let e = if crate::backend::round::budget::covers(budget, game.parameters.cost(3)) {
        seq![ActionModel::BuyDevCard]
    } else {
        empty
    };
    assert(all_accepted(game, a) && all_accepted(game, e) && all_accepted(game, empty)) by {
        reveal(accepts);
    }
    lemma_accepted_concat(game, a, b);
    lemma_accepted_concat(game, a + b, c);
    lemma_accepted_concat(game, a + b + c, d);
    lemma_accepted_concat(game, a + b + c + d, e);
}

} // verus!
