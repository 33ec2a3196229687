use vstd::prelude::*;
use crate::backend::round::action::Quote;
use crate::backend::round::budget::{add_to, capped_sum, lemma_entry_keeps_dims, lemma_paid_keeps_dims, pay, pick_weighted, set_entry, table_dims, take_from};
use crate::backend::round::outcome::Outcome;
use crate::backend::round::rules::{card_bought, robber_played, with_road_listed, MAX_DRAW};
use crate::backend::setup::board::Board;
use crate::backend::setup::city::City;
use crate::backend::setup::dice::draw_below;
use crate::backend::setup::edge::make_edge;
use crate::backend::setup::game::Game;
use crate::backend::setup::game_parameters::{GameParameters, N_CARD_KINDS};
use crate::backend::setup::node_status::NodeStatus;
use crate::backend::setup::road::{road_refused, Road};
use crate::backend::setup::settlement::Settlement;

verus! {

/// Makes `player` pay `cost`, from the budget and from what the others know
/// of it.
pub fn charge(board: &mut Board, parameters: &GameParameters, player: u32, cost: &Vec<u32>)
    requires
        old(board).deep_view().wf(parameters),
        player < parameters.n_players,
    ensures
        final(board).deep_view() == old(board).deep_view().charged(player as int, cost@),
        final(board).deep_view().wf(parameters),
{
    let ghost start = board.deep_view();
    pay(&mut board.budgets, player as usize, cost);
    pay(&mut board.public_budgets, player as usize, cost);
    proof {
        let players = parameters.n_players as int;
        let resources = parameters.n_resources as int;
        lemma_paid_keeps_dims(start.budgets, players, resources, player as int, cost@);
        lemma_paid_keeps_dims(start.public_budgets, players, resources, player as int, cost@);
    }
}

/// Makes `player` give `rate` cards of resource `supplied` for one of
/// resource `demanded`.
pub fn exchange(
    board: &mut Board,
    parameters: &GameParameters,
    player: u32,
    supplied: u32,
    demanded: u32,
    rate: u32,
)
    requires
        old(board).deep_view().wf(parameters),
        player < parameters.n_players,
        supplied < parameters.n_resources,
        demanded < parameters.n_resources,
    ensures
        final(board).deep_view() == old(board).deep_view().exchanged(
            player as int,
            supplied as int,
            demanded as int,
            rate,
        ),
        final(board).deep_view().wf(parameters),
{
    let ghost start = board.deep_view();
    let ghost players = parameters.n_players as int;
    let ghost resources = parameters.n_resources as int;
    proof {
        lemma_entry_keeps_dims(start.budgets, players, resources, player as int, supplied as int, rate);
        lemma_entry_keeps_dims(
            start.public_budgets,
            players,
            resources,
            player as int,
            supplied as int,
            rate,
        );
    }
    take_from(&mut board.budgets, player as usize, supplied as usize, rate);
    take_from(&mut board.public_budgets, player as usize, supplied as usize, rate);
    proof {
        lemma_entry_keeps_dims(
            board.budgets.deep_view(),
            players,
            resources,
            player as int,
            demanded as int,
            1,
        );
        lemma_entry_keeps_dims(
            board.public_budgets.deep_view(),
            players,
            resources,
            player as int,
            demanded as int,
            1,
        );
    }
    add_to(&mut board.budgets, player as usize, demanded as usize, 1);
    add_to(&mut board.public_budgets, player as usize, demanded as usize, 1);
}

/// Settles an accepted quote in one table of budgets.
fn settle_table(
    table: &mut Vec<Vec<u32>>,
    quote: &Quote,
    responder: u32,
    Ghost(players): Ghost<int>,
    Ghost(resources): Ghost<int>,
)
    requires
        table_dims(old(table).deep_view(), players, resources),
        quote.quoting_player < players,
        responder < players,
        quote.resource_supplied < resources,
        quote.resource_demanded < resources,
    ensures
        final(table).deep_view() == crate::backend::round::rules::settled_trade(
            old(table).deep_view(),
            *quote,
            responder as int,
        ),
        table_dims(final(table).deep_view(), players, resources),
{
    let quoter = quote.quoting_player;
    let supplied = quote.resource_supplied as usize;
    let demanded = quote.resource_demanded as usize;
    proof {
        lemma_entry_keeps_dims(
            table.deep_view(),
            players,
            resources,
            quoter as int,
            supplied as int,
            quote.quantity_supplied,
        );
    }
    take_from(table, quoter, supplied, quote.quantity_supplied);
    proof {
        lemma_entry_keeps_dims(
            table.deep_view(),
            players,
            resources,
            responder as int,
            supplied as int,
            quote.quantity_supplied,
        );
    }
    add_to(table, responder as usize, supplied, quote.quantity_supplied);
    proof {
        lemma_entry_keeps_dims(
            table.deep_view(),
            players,
            resources,
            quoter as int,
            demanded as int,
            quote.quantity_demanded,
        );
    }
    add_to(table, quoter, demanded, quote.quantity_demanded);
    proof {
        lemma_entry_keeps_dims(
            table.deep_view(),
            players,
            resources,
            responder as int,
            demanded as int,
            quote.quantity_demanded,
        );
    }
    take_from(table, responder as usize, demanded, quote.quantity_demanded);
}

/// Settles an accepted quote between the quoting player and `responder`.
pub fn settle_trade(board: &mut Board, parameters: &GameParameters, quote: &Quote, responder: u32)
    requires
        old(board).deep_view().wf(parameters),
        quote.quoting_player < parameters.n_players,
        responder < parameters.n_players,
        quote.resource_supplied < parameters.n_resources,
        quote.resource_demanded < parameters.n_resources,
    ensures
        final(board).deep_view() == old(board).deep_view().traded(*quote, responder as int),
        final(board).deep_view().wf(parameters),
{
    let ghost players = parameters.n_players as int;
    let ghost resources = parameters.n_resources as int;
    settle_table(&mut board.budgets, quote, responder, Ghost(players), Ghost(resources));
    settle_table(&mut board.public_budgets, quote, responder, Ghost(players), Ghost(resources));
}

/// Gives `player` one card each of two resources from the bank.
pub fn grant(board: &mut Board, parameters: &GameParameters, player: u32, first: u32, second: u32)
    requires
        old(board).deep_view().wf(parameters),
        player < parameters.n_players,
        first < parameters.n_resources,
        second < parameters.n_resources,
    ensures
        final(board).deep_view() == old(board).deep_view().granted(
            player as int,
            first as int,
            second as int,
        ),
        final(board).deep_view().wf(parameters),
{
    let ghost start = board.deep_view();
    let ghost players = parameters.n_players as int;
    let ghost resources = parameters.n_resources as int;
    let p = player as usize;
    proof {
        lemma_entry_keeps_dims(start.budgets, players, resources, p as int, first as int, 1);
        lemma_entry_keeps_dims(start.public_budgets, players, resources, p as int, first as int, 1);
        lemma_entry_keeps_dims(
            start.total_drawn_resources,
            players,
            resources,
            p as int,
            first as int,
            1,
        );
    }
    add_to(&mut board.budgets, p, first as usize, 1);
    add_to(&mut board.public_budgets, p, first as usize, 1);
    add_to(&mut board.total_drawn_resources, p, first as usize, 1);
    proof {
        lemma_entry_keeps_dims(
            board.budgets.deep_view(),
            players,
            resources,
            p as int,
            second as int,
            1,
        );
        lemma_entry_keeps_dims(
            board.public_budgets.deep_view(),
            players,
            resources,
            p as int,
            second as int,
            1,
        );
        lemma_entry_keeps_dims(
            board.total_drawn_resources.deep_view(),
            players,
            resources,
            p as int,
            second as int,
            1,
        );
    }
    add_to(&mut board.budgets, p, second as usize, 1);
    add_to(&mut board.public_budgets, p, second as usize, 1);
    add_to(&mut board.total_drawn_resources, p, second as usize, 1);
}

/// Makes every other player give all their cards of `resource` to
/// `player`.
pub fn monopolize(board: &mut Board, parameters: &GameParameters, player: u32, resource: u32)
    requires
        old(board).deep_view().wf(parameters),
        player < parameters.n_players,
        resource < parameters.n_resources,
    ensures
        final(board).deep_view() == old(board).deep_view().monopolized(
            player as int,
            resource as int,
            parameters.n_players as int,
        ),
        final(board).deep_view().wf(parameters),
{
    let ghost start = board.deep_view();
    let ghost players = parameters.n_players as int;
    let ghost resources = parameters.n_resources as int;
    let mut giver: u32 = 0;
    while giver < parameters.n_players
        invariant
            giver <= parameters.n_players,
            player < parameters.n_players,
            resource < parameters.n_resources,
            players == parameters.n_players,
            resources == parameters.n_resources,
            board.deep_view() == start.monopolized(player as int, resource as int, giver as int),
            board.deep_view().wf(parameters),
        decreases parameters.n_players - giver,
    {
        if giver != player {
            let ghost before = board.deep_view();
            assert(before.budgets.len() == board.budgets.len());
            assert(before.budgets[giver as int] == board.budgets[giver as int].deep_view());
            assert(before.budgets[giver as int].len() == resources);
            let amount = board.budgets[giver as usize][resource as usize];
            assert(amount == before.budgets[giver as int][resource as int]);
            proof {
                lemma_entry_keeps_dims(
                    before.budgets,
                    players,
                    resources,
                    player as int,
                    resource as int,
                    amount,
                );
                lemma_entry_keeps_dims(
                    before.public_budgets,
                    players,
                    resources,
                    player as int,
                    resource as int,
                    amount,
                );
            }
            add_to(&mut board.budgets, player as usize, resource as usize, amount);
            add_to(&mut board.public_budgets, player as usize, resource as usize, amount);
            proof {
                lemma_entry_keeps_dims(
                    board.budgets.deep_view(),
                    players,
                    resources,
                    giver as int,
                    resource as int,
                    0,
                );
                lemma_entry_keeps_dims(
                    board.public_budgets.deep_view(),
                    players,
                    resources,
                    giver as int,
                    resource as int,
                    0,
                );
            }
            set_entry(&mut board.budgets, giver as usize, resource as usize, 0);
            set_entry(&mut board.public_budgets, giver as usize, resource as usize, 0);
        }
        giver = giver + 1;
    }
}

/// Moves robber `robber` to tile `tile`.
pub fn move_robber(board: &mut Board, parameters: &GameParameters, robber: u32, tile: u32)
    requires
        old(board).deep_view().wf(parameters),
        robber < old(board).v_robbers.len(),
        tile < old(board).tiles.len(),
    ensures
        final(board).deep_view() == old(board).deep_view().robber_moved(robber as int, tile as int),
        final(board).deep_view().wf(parameters),
{
    let ghost start = board.deep_view();
    let from = board.v_robbers[robber as usize] as usize;
    assert(start.tiles[from as int] == board.tiles[from as int].deep_view());
    board.tiles[from].rng = board.tile_rng[from];
    let ghost uncovered = board.tiles.deep_view();
    board.tiles[tile as usize].rng = None;
    board.v_robbers.set(robber as usize, tile);
    proof {
        let goal = start.robber_moved(robber as int, tile as int);
        assert forall|t: int| 0 <= t < goal.tiles.len() implies board.tiles.deep_view()[t]
            == goal.tiles[t] by {
            assert(start.tiles[t] == old(board).tiles[t].deep_view());
        }
        assert(board.tiles.deep_view() =~= goal.tiles);
        assert(board.deep_view().v_robbers =~= goal.v_robbers);
        assert forall|t: int, c: int|
            0 <= t < goal.tiles.len() && 0 <= c < goal.tiles[t].nodes.len()
                implies #[trigger] goal.tiles[t].nodes[c] < goal.nodes.len() by {
            assert(goal.tiles[t].nodes == start.tiles[t].nodes);
            assert(start.tiles[t].nodes[c] < start.nodes.len());
        }
        assert forall|t: int| 0 <= t < goal.tiles.len() implies match (#[trigger] goal.tiles[t]).resource {
            Some(r) => r < parameters.n_resources,
            None => true,
        } by {
            assert(goal.tiles[t].resource == start.tiles[t].resource);
        }
    }
}

/// Shows a development card of `player`.
pub fn show_card(board: &mut Board, parameters: &GameParameters, player: u32, kind: usize)
    requires
        old(board).deep_view().wf(parameters),
        player < parameters.n_players,
        kind < N_CARD_KINDS,
    ensures
        final(board).deep_view() == old(board).deep_view().card_shown(player as int, kind as int),
        final(board).deep_view().wf(parameters),
{
    proof {
        lemma_entry_keeps_dims(
            board.deep_view().public_dev_cards,
            parameters.n_players as int,
            N_CARD_KINDS as int,
            player as int,
            kind as int,
            1,
        );
    }
    add_to(&mut board.public_dev_cards, player as usize, kind, 1);
}

/// Adds a road to the board's list of roads.
fn list_road(board: &mut Board, road: Road)
    ensures
        final(board).deep_view() == (crate::backend::setup::board::BoardModel {
            roads: with_road_listed(old(board).deep_view().roads, road),
            ..old(board).deep_view()
        }),
{
    let ghost start = board.deep_view();
    match &mut board.roads {
        Some(list) => {
            list.push(road);
        },
        None => {
            let mut list: Vec<Road> = Vec::new();
            list.push(road);
            board.roads = Some(list);
        },
    }
    assert(board.deep_view().roads->0 =~= with_road_listed(start.roads, road)->0);
}

/// Builds a road of `player` between `a` and `b`, where the board does not
/// refuse it.
pub fn build_road(board: &mut Board, parameters: &GameParameters, player: u32, a: u32, b: u32)
    requires
        old(board).deep_view().wf(parameters),
        a < old(board).nodes.len(),
        b < old(board).nodes.len(),
        !road_refused(old(board).deep_view().nodes, a, b),
    ensures
        final(board).deep_view() == old(board).deep_view().road_built(player, a, b),
        final(board).deep_view().wf(parameters),
{
    let ghost start = board.deep_view();
    let road = Road { player, nodes: (a, b) };
    let placed = road.place(&mut board.nodes);
    assert(placed is Ok);
    list_road(board, Road { player, nodes: make_edge(a, b) });
    proof {
        let goal = start.road_built(player, a, b);
        assert forall|i: int| 0 <= i < goal.nodes.len() implies match (#[trigger] goal.nodes[i]).node_status.owner() {
            Some(owner) => owner < parameters.n_players,
            None => true,
        } by {
            assert(goal.nodes[i].node_status == start.nodes[i].node_status);
        }
    }
}

/// Placing a building of a player of the game keeps every builder a player
/// of the game.
pub proof fn lemma_building_keeps_owners(
    before: Seq<crate::backend::setup::node::NodeModel>,
    after: Seq<crate::backend::setup::node::NodeModel>,
    at: int,
    players: int,
)
    requires
        0 <= at < before.len(),
        after.len() == before.len(),
        forall|i: int|
            0 <= i < before.len() ==> match (#[trigger] before[i]).node_status.owner() {
                Some(owner) => owner < players,
                None => true,
            },
        after[at].node_status.owner() matches Some(owner) && owner < players,
        forall|i: int|
            0 <= i < before.len() && i != at ==> (#[trigger] after[i]).node_status
                == before[i].node_status || after[i].node_status == NodeStatus::Adjacent,
    ensures
        forall|i: int|
            0 <= i < after.len() ==> match (#[trigger] after[i]).node_status.owner() {
                Some(owner) => owner < players,
                None => true,
            },
{
    assert forall|i: int| 0 <= i < after.len() implies match (#[trigger] after[i]).node_status.owner() {
        Some(owner) => owner < players,
        None => true,
    } by {
        if i != at {
            assert(before[i].node_status.owner() is Some ==> before[i].node_status.owner()->0
                < players);
        }
    }
}

/// Builds `settlement` on a free node.
pub fn build_settlement(board: &mut Board, parameters: &GameParameters, settlement: Settlement)
    requires
        old(board).deep_view().wf(parameters),
        settlement.node_id < old(board).nodes.len(),
        settlement.player_id < parameters.n_players,
        old(board).nodes[settlement.node_id as int].node_status is Free,
    ensures
        final(board).deep_view() == old(board).deep_view().settlement_built(settlement.deep_view()),
        final(board).deep_view().wf(parameters),
{
    let ghost start = board.deep_view();
    let ghost model = settlement.deep_view();
    assert(start.nodes[settlement.node_id as int] == board.nodes[settlement.node_id as int].deep_view());
    let placed = settlement.place(&mut board.nodes);
    assert(placed is Ok);
    proof {
        lemma_building_keeps_owners(
            start.nodes,
            board.deep_view().nodes,
            model.node_id as int,
            parameters.n_players as int,
        );
    }
}

/// Builds `city` on a node that its owner has settled.
pub fn build_city(board: &mut Board, parameters: &GameParameters, city: City)
    requires
        old(board).deep_view().wf(parameters),
        city.node_id < old(board).nodes.len(),
        city.player_id < parameters.n_players,
        old(board).nodes[city.node_id as int].node_status == NodeStatus::Settled(city.player_id),
    ensures
        final(board).deep_view() == old(board).deep_view().city_built(city.deep_view()),
        final(board).deep_view().wf(parameters),
{
    let ghost start = board.deep_view();
    let ghost model = city.deep_view();
    assert(start.nodes[city.node_id as int] == board.nodes[city.node_id as int].deep_view());
    let placed = city.place(&mut board.nodes);
    assert(placed is Ok);
    proof {
        lemma_building_keeps_owners(
            start.nodes,
            board.deep_view().nodes,
            model.node_id as int,
            parameters.n_players as int,
        );
    }
}

/// Moves a robber and robs the victim, if there is one with cards.
pub fn play_robber(game: &mut Game, robber: u32, tile: u32, victim: Option<u32>)
    requires
        old(game).deep_view().wf(),
        robber < old(game).round.board.v_robbers.len(),
        tile < old(game).round.board.tiles.len(),
        victim matches Some(v) ==> v < old(game).parameters.n_players,
    ensures
        final(game).deep_view() == robber_played(old(game).deep_view(), robber, tile, victim),
        final(game).deep_view().wf(),
{
    let ghost start = game.deep_view();
    let thief = game.round.active_player;
    move_robber(&mut game.round.board, &game.parameters, robber, tile);
    let ghost moved = game.round.board.deep_view();
    match victim {
        Some(v) => {
            let ghost hand = moved.budgets[v as int];
            assert(hand == game.round.board.budgets[v as int]@);
            let bound = capped_sum(&game.round.board.budgets[v as usize], MAX_DRAW);
            if bound > 0 {
                let ticket = draw_below(game.parameters.robber_seed, bound);
                let resource = pick_weighted(&game.round.board.budgets[v as usize], ticket);
                game.parameters.robber_seed = game.parameters.robber_seed.wrapping_add(1);
                proof {
                    let players = game.parameters.n_players as int;
                    let resources = game.parameters.n_resources as int;
                    lemma_entry_keeps_dims(
                        moved.budgets,
                        players,
                        resources,
                        v as int,
                        resource as int,
                        1,
                    );
                }
                take_from(&mut game.round.board.budgets, v as usize, resource, 1);
                proof {
                    let players = game.parameters.n_players as int;
                    let resources = game.parameters.n_resources as int;
                    lemma_entry_keeps_dims(
                        game.round.board.budgets.deep_view(),
                        players,
                        resources,
                        thief as int,
                        resource as int,
                        1,
                    );
                }
                add_to(&mut game.round.board.budgets, thief as usize, resource, 1);
                game.round.outcome = Some(Outcome::RobberOutcome(Some(resource as u32)));
            } else {
                game.round.outcome = Some(Outcome::RobberOutcome(None));
            }
        },
        None => {},
    }
}

/// Makes the active player buy a development card.
pub fn buy_card(game: &mut Game)
    requires
        old(game).deep_view().wf(),
    ensures
        final(game).deep_view() == card_bought(old(game).deep_view()),
        final(game).deep_view().wf(),
{
    let ghost start = game.deep_view();
    let player = game.round.active_player;
    charge(&mut game.round.board, &game.parameters, player, &game.parameters.building_costs[3]);
    let ghost paid_board = game.round.board.deep_view();
    let bound = capped_sum(&game.round.board.undrawn_dev_cards, MAX_DRAW);
    let ticket = draw_below(game.parameters.dev_card_seed, bound);
    let kind = pick_weighted(&game.round.board.undrawn_dev_cards, ticket);
    game.parameters.dev_card_seed = game.parameters.dev_card_seed.wrapping_add(1);
    game.round.card_count = game.round.card_count.saturating_add(1);
    proof {
        lemma_entry_keeps_dims(
            paid_board.drawn_dev_cards,
            game.parameters.n_players as int,
            N_CARD_KINDS as int,
            player as int,
            kind as int,
            1,
        );
    }
    add_to(&mut game.round.board.drawn_dev_cards, player as usize, kind, 1);
    game.round.outcome = Some(Outcome::DrawCardOutcome(kind as u32));
}

} // verus!
