use vstd::prelude::*;
use crate::backend::round::action::{ActionModel, Quote};
use crate::backend::round::budget::{gained, paid, reduced, sat_add, weighted_pick, with_entry};
use crate::backend::round::cards::CardType;
use crate::backend::round::longest_road::longest_road_length;
use crate::backend::round::outcome::Outcome;
use crate::backend::round::phase::{after_throw, next_turn, Limits, Turn};
use crate::backend::round::round_struct::RoundModel;
use crate::backend::round::score::{score_of, MIN_LARGEST_ARMY, MIN_LONGEST_ROAD};
use crate::backend::setup::board::BoardModel;
use crate::backend::setup::city::{city_refusal, with_city};
use crate::backend::setup::dice::{seeded_index, seq_sum};
use crate::backend::setup::edge::canonical_edge;
use crate::backend::setup::game::GameModel;
use crate::backend::setup::game_parameters::GameParameters;
use crate::backend::setup::node_status::NodeStatus;
use crate::backend::setup::placement::PlacementError;
use crate::backend::setup::road::{road_refused, with_road_between, Road};
use crate::backend::setup::settlement::{settlement_refusal, with_settlement, BuildingModel};
use crate::backend::setup::tile::TileModel;

verus! {

/// The largest bound of a seeded draw.
pub const MAX_DRAW: u32 = 0x7fff_ffff;

/// The number of tickets in a draw among items laid out by `weights`: the
/// number of items, or [`MAX_DRAW`] where there are more.
pub open spec fn draw_bound(weights: Seq<u32>) -> u32 {
    if seq_sum(weights) > MAX_DRAW {
        MAX_DRAW
    } else {
        seq_sum(weights) as u32
    }
}

/// A seed after a draw was made with it.
pub open spec fn next_seed(seed: u64) -> u64 {
    if seed == u64::MAX {
        0
    } else {
        (seed + 1) as u64
    }
}

/// The list of roads with one more road; a board without a list gets one.
pub open spec fn with_road_listed(roads: Option<Seq<Road>>, road: Road) -> Option<Seq<Road>> {
    match roads {
        Some(list) => Some(list.push(road)),
        None => Some(seq![road]),
    }
}

/// A road of `player` between `a` and `b`, its nodes in canonical order.
pub open spec fn canonical_road(player: u32, a: u32, b: u32) -> Road {
    Road { player, nodes: canonical_edge(a, b) }
}

impl BoardModel {
    /// The board after robber `robber` moved to tile `tile`: the tile it
    /// left shows its dice sum again, and the tile it stands on shows none.
    pub open spec fn robber_moved(self, robber: int, tile: int) -> BoardModel {
        let from = self.v_robbers[robber] as int;
        let uncovered = self.tiles.update(
            from,
            TileModel { rng: self.tile_rng[from], ..self.tiles[from] },
        );
        BoardModel {
            tiles: uncovered.update(tile, TileModel { rng: None, ..uncovered[tile] }),
            v_robbers: self.v_robbers.update(robber, tile as u32),
            ..self
        }
    }

    /// The board after `thief` took one card of `resource` from `victim`.
    pub open spec fn robbed(self, thief: int, victim: int, resource: int) -> BoardModel {
        BoardModel {
            budgets: gained(reduced(self.budgets, victim, resource, 1), thief, resource, 1),
            ..self
        }
    }

    /// The board after `player` paid `cost`. What the others know of the
    /// player's budget goes down with it, but not below zero.
    pub open spec fn charged(self, player: int, cost: Seq<u32>) -> BoardModel {
        BoardModel {
            budgets: self.budgets.update(player, paid(self.budgets[player], cost)),
            public_budgets: self.public_budgets.update(
                player,
                paid(self.public_budgets[player], cost),
            ),
            ..self
        }
    }

    /// The board after `player` gave `rate` cards of resource `supplied` for
    /// one of resource `demanded`, in the open.
    pub open spec fn exchanged(self, player: int, supplied: int, demanded: int, rate: u32) -> BoardModel {
        BoardModel {
            budgets: gained(reduced(self.budgets, player, supplied, rate), player, demanded, 1),
            public_budgets: gained(
                reduced(self.public_budgets, player, supplied, rate),
                player,
                demanded,
                1,
            ),
            ..self
        }
    }

    /// The board after `responder` accepted `quote`: the quoted quantities
    /// change hands, in the open.
    pub open spec fn traded(self, quote: Quote, responder: int) -> BoardModel {
        let quoter = quote.quoting_player as int;
        let supplied = quote.resource_supplied as int;
        let demanded = quote.resource_demanded as int;
        BoardModel {
            budgets: settled_trade(self.budgets, quote, responder),
            public_budgets: settled_trade(self.public_budgets, quote, responder),
            ..self
        }
    }

    /// The board after `player` took one card each of two resources from the
    /// bank.
    pub open spec fn granted(self, player: int, first: int, second: int) -> BoardModel {
        BoardModel {
            budgets: gained(gained(self.budgets, player, first, 1), player, second, 1),
            public_budgets: gained(
                gained(self.public_budgets, player, first, 1),
                player,
                second,
                1,
            ),
            total_drawn_resources: gained(
                gained(self.total_drawn_resources, player, first, 1),
                player,
                second,
                1,
            ),
            ..self
        }
    }

    /// The board after the first `upto` players gave all their cards of
    /// `resource` to `player`.
    pub open spec fn monopolized(self, player: int, resource: int, upto: int) -> BoardModel
        decreases upto,
    {
        if upto <= 0 {
            self
        } else {
            let before = self.monopolized(player, resource, upto - 1);
            let giver = upto - 1;
            if giver == player {
                before
            } else {
                let amount = before.budgets[giver][resource];
                BoardModel {
                    budgets: with_entry(
                        gained(before.budgets, player, resource, amount),
                        giver,
                        resource,
                        0,
                    ),
                    public_budgets: with_entry(
                        gained(before.public_budgets, player, resource, amount),
                        giver,
                        resource,
                        0,
                    ),
                    ..before
                }
            }
        }
    }

    /// The board after `player` showed a development card of kind `kind`.
    pub open spec fn card_shown(self, player: int, kind: int) -> BoardModel {
        BoardModel { public_dev_cards: gained(self.public_dev_cards, player, kind, 1), ..self }
    }

    /// The board after `player` drew a development card of kind `kind`.
    pub open spec fn card_drawn(self, player: int, kind: int) -> BoardModel {
        BoardModel { drawn_dev_cards: gained(self.drawn_dev_cards, player, kind, 1), ..self }
    }

    /// The board after a road of `player` was built between `a` and `b`.
    pub open spec fn road_built(self, player: u32, a: u32, b: u32) -> BoardModel {
        BoardModel {
            nodes: with_road_between(self.nodes, Road { player, nodes: (a, b) }),
            roads: with_road_listed(self.roads, canonical_road(player, a, b)),
            ..self
        }
    }

    /// The board after `settlement` was built.
    pub open spec fn settlement_built(self, settlement: BuildingModel) -> BoardModel {
        BoardModel { nodes: with_settlement(self.nodes, settlement), ..self }
    }

    /// The board after `city` was built.
    pub open spec fn city_built(self, city: BuildingModel) -> BoardModel {
        BoardModel { nodes: with_city(self.nodes, city), ..self }
    }
}

/// A table of budgets after `responder` accepted `quote`.
pub open spec fn settled_trade(table: Seq<Seq<u32>>, quote: Quote, responder: int) -> Seq<Seq<u32>> {
    let quoter = quote.quoting_player as int;
    let supplied = quote.resource_supplied as int;
    let demanded = quote.resource_demanded as int;
    reduced(
        gained(
            gained(
                reduced(table, quoter, supplied, quote.quantity_supplied),
                responder,
                supplied,
                quote.quantity_supplied,
            ),
            quoter,
            demanded,
            quote.quantity_demanded,
        ),
        responder,
        demanded,
        quote.quantity_demanded,
    )
}

/// Whether two roads join the same two nodes.
pub open spec fn same_edge(a: u32, b: u32, c: u32, d: u32) -> bool {
    canonical_edge(a, b) == canonical_edge(c, d)
}

/// Whether the game can take `action` at all: every node, tile, robber,
/// player and resource that the action names exists, a discard names a
/// quantity of every resource, and the action is not `Quit`, which no game
/// can carry out.
#[verifier::opaque]
pub open spec fn accepts(game: GameModel, action: ActionModel) -> bool {
    let nodes = game.round.board.nodes.len();
    let tiles = game.round.board.tiles.len();
    let robbers = game.round.board.v_robbers.len();
    let players = game.parameters.n_players;
    let resources = game.parameters.n_resources;
    match action {
        ActionModel::SetUpMove(a, b) => a < nodes && b < nodes,
        ActionModel::Robber(r, t, v) => r < robbers && t < tiles && (v matches Some(victim)
            ==> victim < players),
        ActionModel::DiscardCards(d) => d.len() == resources,
        ActionModel::CardPlay(card) => match card {
            CardType::VPCard => true,
            CardType::KnightCard(r, t, v) => r < robbers && t < tiles && (v matches Some(victim)
                ==> victim < players),
            CardType::RoadsCard(a, b, c, d) => a < nodes && b < nodes && c < nodes && d < nodes,
            CardType::PlentyCard(first, second) => first < resources && second < resources,
            CardType::MonopolyCard(r) => r < resources,
        },
        ActionModel::BankTrade(s, d) => s < resources && d < resources,
        ActionModel::HarborTrade(_, s, d) => s < resources && d < resources,
        ActionModel::TradeResponse(_, accept) => accept ==> (game.round.action matches Some(
            ActionModel::TradeQuote(q),
        ) ==> q.quoting_player < players && q.resource_supplied < resources && q.resource_demanded
            < resources),
        ActionModel::BuildRoad(a, b) => a < nodes && b < nodes,
        ActionModel::BuildSettlement(n) => n < nodes,
        ActionModel::BuildCity(n) => n < nodes,
        ActionModel::Quit => false,
        _ => true,
    }
}

/// Why the board refuses `action`, if it does: the placement that the
/// action asks for breaks a rule of placement.
#[verifier::opaque]
pub open spec fn refusal(game: GameModel, action: ActionModel) -> Option<PlacementError> {
    let nodes = game.round.board.nodes;
    let player = game.round.active_player;
    match action {
        ActionModel::SetUpMove(a, b) => {
            if settlement_refusal(nodes[a as int].node_status) is Some {
                settlement_refusal(nodes[a as int].node_status)
            } else if road_refused(nodes, a, b) {
                Some(PlacementError::RoadOnRoad)
            } else {
                None
            }
        },
        ActionModel::CardPlay(CardType::RoadsCard(a, b, c, d)) => {
            if road_refused(nodes, a, b) || road_refused(nodes, c, d) || same_edge(a, b, c, d) {
                Some(PlacementError::RoadOnRoad)
            } else {
                None
            }
        },
        ActionModel::BuildRoad(a, b) => {
            if road_refused(nodes, a, b) {
                Some(PlacementError::RoadOnRoad)
            } else {
                None
            }
        },
        ActionModel::BuildSettlement(n) => settlement_refusal(nodes[n as int].node_status),
        ActionModel::BuildCity(n) => city_refusal(nodes[n as int].node_status, player),
        _ => None,
    }
}

/// The game after a robber moved and robbed: the robber moves; where there
/// is a victim with cards, a seeded draw among the victim's cards picks the
/// card that the active player takes, and the robber's seed moves on.
pub open spec fn robber_played(game: GameModel, robber: u32, tile: u32, victim: Option<u32>) -> GameModel {
    let thief = game.round.active_player as int;
    let board = game.round.board.robber_moved(robber as int, tile as int);
    match victim {
        Some(v) => {
            let hand = board.budgets[v as int];
            if seq_sum(hand) > 0 {
                let ticket = seeded_index(game.parameters.robber_seed, draw_bound(hand));
                let resource = weighted_pick(hand, ticket as int);
                GameModel {
                    parameters: GameParameters {
                        robber_seed: next_seed(game.parameters.robber_seed),
                        ..game.parameters
                    },
                    round: RoundModel {
                        board: board.robbed(thief, v as int, resource),
                        outcome: Some(Outcome::RobberOutcome(Some(resource as u32))),
                        ..game.round
                    },
                }
            } else {
                GameModel {
                    round: RoundModel {
                        board,
                        outcome: Some(Outcome::RobberOutcome(None)),
                        ..game.round
                    },
                    ..game
                }
            }
        },
        None => GameModel { round: RoundModel { board, ..game.round }, ..game },
    }
}

/// The game after the active player bought a development card: the player
/// pays, a seeded draw among the cards of the deck picks the kind of card,
/// and the seed of the deck moves on.
pub open spec fn card_bought(game: GameModel) -> GameModel {
    let player = game.round.active_player as int;
    let board = game.round.board.charged(player, game.parameters.cost(3));
    let ticket = seeded_index(game.parameters.dev_card_seed, draw_bound(board.undrawn_dev_cards));
    let kind = weighted_pick(board.undrawn_dev_cards, ticket as int);
    GameModel {
        parameters: GameParameters {
            dev_card_seed: next_seed(game.parameters.dev_card_seed),
            ..game.parameters
        },
        round: RoundModel {
            board: board.card_drawn(player, kind),
            card_count: sat_add(game.round.card_count, 1),
            outcome: Some(Outcome::DrawCardOutcome(kind as u32)),
            ..game.round
        },
    }
}

/// The game after the active player played `card`: the card is shown, its
/// effect takes place, and the player has played one card more.
pub open spec fn card_played(game: GameModel, card: CardType) -> GameModel {
    let player = game.round.active_player;
    let shown = GameModel {
        round: RoundModel {
            board: game.round.board.card_shown(player as int, card.kind()),
            ..game.round
        },
        ..game
    };
    let done = match card {
        CardType::VPCard => shown,
        CardType::KnightCard(r, t, v) => robber_played(shown, r, t, v),
        CardType::RoadsCard(a, b, c, d) => GameModel {
            round: RoundModel {
                board: shown.round.board.road_built(player, a, b).road_built(player, c, d),
                ..shown.round
            },
            ..shown
        },
        CardType::PlentyCard(first, second) => GameModel {
            round: RoundModel {
                board: shown.round.board.granted(player as int, first as int, second as int),
                ..shown.round
            },
            ..shown
        },
        CardType::MonopolyCard(r) => GameModel {
            round: RoundModel {
                board: shown.round.board.monopolized(
                    player as int,
                    r as int,
                    game.parameters.n_players as int,
                ),
                ..shown.round
            },
            ..shown
        },
    };
    GameModel {
        round: RoundModel { cards_played: sat_add(done.round.cards_played, 1), ..done.round },
        ..done
    }
}

/// The game with another board.
pub open spec fn with_board(game: GameModel, board: BoardModel) -> GameModel {
    GameModel { round: RoundModel { board, ..game.round }, ..game }
}

/// The game after `action` took effect on the board, on the seeds and on
/// the outcome, where the board does not refuse it. `name` names the
/// settlement or city that the action builds.
#[verifier::opaque]
pub open spec fn applied(game: GameModel, action: ActionModel, name: Option<Seq<char>>) -> GameModel {
    let player = game.round.active_player;
    let board = game.round.board;
    let cleared = GameModel { round: RoundModel { outcome: None, ..game.round }, ..game };
    match action {
        ActionModel::SetUpMove(a, b) => with_board(
            cleared,
            board.road_built(player, a, b).settlement_built(
                BuildingModel { name, node_id: a, player_id: player },
            ),
        ),
        ActionModel::Robber(r, t, v) => robber_played(cleared, r, t, v),
        ActionModel::DiscardCards(d) => with_board(cleared, board.charged(player as int, d)),
        ActionModel::CardPlay(card) => card_played(cleared, card),
        ActionModel::BankTrade(s, d) => with_board(
            cleared,
            board.exchanged(player as int, s as int, d as int, 4),
        ),
        ActionModel::HarborTrade(kind, s, d) => with_board(
            cleared,
            board.exchanged(
                player as int,
                s as int,
                d as int,
                if kind < game.parameters.n_resources {
                    2
                } else {
                    3
                },
            ),
        ),
        ActionModel::TradeResponse(_, accept) => {
            let answered = GameModel {
                round: RoundModel {
                    outcome: Some(Outcome::TradeOutcome(player, accept)),
                    ..game.round
                },
                ..game
            };
            if accept {
                match game.round.action {
                    Some(ActionModel::TradeQuote(q)) => with_board(
                        answered,
                        board.traded(q, player as int),
                    ),
                    _ => answered,
                }
            } else {
                answered
            }
        },
        ActionModel::BuildRoad(a, b) => with_board(
            cleared,
            board.road_built(player, a, b).charged(player as int, game.parameters.cost(0)),
        ),
        ActionModel::BuildSettlement(n) => with_board(
            cleared,
            board.settlement_built(BuildingModel { name, node_id: n, player_id: player }).charged(
                player as int,
                game.parameters.cost(1),
            ),
        ),
        ActionModel::BuildCity(n) => with_board(
            cleared,
            board.city_built(BuildingModel { name, node_id: n, player_id: player }).charged(
                player as int,
                game.parameters.cost(2),
            ),
        ),
        ActionModel::BuyDevCard => card_bought(cleared),
        _ => cleared,
    }
}

/// The game with `action` on record as the last action. An answer to a
/// quote leaves the quote on record, for the players who answer after it.
pub open spec fn recorded(game: GameModel, action: ActionModel) -> GameModel {
    match action {
        ActionModel::TradeResponse(_, _) => game,
        _ => GameModel { round: RoundModel { action: Some(action), ..game.round }, ..game },
    }
}

/// The largest of `sizes`; zero where there are none.
pub open spec fn seq_max(sizes: Seq<u32>) -> u32
    decreases sizes.len(),
{
    if sizes.len() == 0 {
        0
    } else if sizes.last() >= seq_max(sizes.drop_last()) {
        sizes.last()
    } else {
        seq_max(sizes.drop_last())
    }
}

/// The last position of `sizes` that holds the largest size.
pub open spec fn last_at_top(sizes: Seq<u32>) -> int
    decreases sizes.len(),
{
    if sizes.len() == 0 {
        0
    } else if sizes.last() >= seq_max(sizes.drop_last()) {
        sizes.len() - 1
    } else {
        last_at_top(sizes.drop_last())
    }
}

/// The holder of an award after the sizes changed: while no size reaches
/// `least` the record stays as it is; the holder so far keeps the award
/// while no size is larger than the holder's; otherwise the award passes to
/// the last player with the largest size.
pub open spec fn holder_after(sizes: Seq<u32>, previous: Option<(u32, u32)>, least: u32) -> Option<
    (u32, u32),
> {
    let top = seq_max(sizes);
    let holder = match previous {
        Some((player, _)) => player,
        None => 0u32,
    };
    if sizes.len() == 0 {
        None
    } else if top < least {
        previous
    } else if previous is Some && holder < sizes.len() && sizes[holder as int] == top {
        Some((holder, top))
    } else {
        Some((last_at_top(sizes) as u32, top))
    }
}

/// The longest route length of each of the first `count` players.
pub open spec fn road_lengths(roads: Seq<Road>, count: int) -> Seq<u32> {
    Seq::new(count as nat, |p: int| longest_road_length(roads, p as u32))
}

/// The score of each of the first `count` players on `board`, counting the
/// victory cards of `cards`.
pub open spec fn scores_of(board: BoardModel, cards: Seq<Seq<u32>>, count: int) -> Seq<u32> {
    Seq::new(
        count as nat,
        |p: int|
            score_of(
                board.nodes,
                cards[p][0],
                board.longest_roads,
                board.prev_longest_road,
                board.armies,
                board.prev_largest_army,
                p as u32,
            ),
    )
}

/// The board brought up to date after an action: every player's longest
/// route is measured anew, the scores are counted with the awards as they
/// stood, and then the awards pass on where a player has taken the lead.
pub open spec fn refreshed(board: BoardModel, n_players: int) -> BoardModel {
    let measured = BoardModel {
        longest_roads: match board.roads {
            Some(roads) => Some(road_lengths(roads, n_players)),
            None => None,
        },
        ..board
    };
    BoardModel {
        scores: scores_of(measured, measured.drawn_dev_cards, n_players),
        public_scores: scores_of(measured, measured.public_dev_cards, n_players),
        prev_longest_road: match measured.longest_roads {
            Some(lengths) => holder_after(lengths, measured.prev_longest_road, MIN_LONGEST_ROAD),
            None => None,
        },
        prev_largest_army: holder_after(measured.armies, measured.prev_largest_army, MIN_LARGEST_ARMY),
        ..measured
    }
}

/// The turn of a round.
pub open spec fn turn_of(round: RoundModel) -> Turn {
    Turn {
        phase: round.phase,
        phase_count: round.phase_count,
        card_count: round.card_count,
        cards_played: round.cards_played,
        active_player: round.active_player,
        throwing_player: round.throwing_player,
    }
}

/// The round with another turn.
pub open spec fn with_turn(round: RoundModel, turn: Turn) -> RoundModel {
    RoundModel {
        phase: turn.phase,
        phase_count: turn.phase_count,
        card_count: turn.card_count,
        cards_played: turn.cards_played,
        active_player: turn.active_player,
        throwing_player: turn.throwing_player,
        ..round
    }
}

/// The limits of a game.
pub open spec fn limits_of(parameters: &GameParameters) -> Limits {
    Limits {
        n_players: parameters.n_players,
        max_trades: parameters.max_trades,
        max_builds: parameters.max_builds,
        n_setup_rounds: parameters.n_setup_rounds,
    }
}

/// What the building on a node yields when the node's tile produces: one
/// card for a settlement, two for a city, to the owner.
pub open spec fn yield_of(status: NodeStatus) -> Option<(u32, u32)> {
    match status {
        NodeStatus::Settled(owner) => Some((owner, 1u32)),
        NodeStatus::Citied(owner) => Some((owner, 2u32)),
        _ => None,
    }
}

/// The board after the first `corners` corners of tile `tile` have yielded
/// the tile's resource to the buildings on them. What a player produces is
/// the player's own business: the public budgets do not change.
pub open spec fn tile_produced(board: BoardModel, tile: int, corners: int) -> BoardModel
    decreases corners,
{
    if corners <= 0 {
        board
    } else {
        let before = tile_produced(board, tile, corners - 1);
        let node = board.tiles[tile].nodes[corners - 1] as int;
        match (board.tiles[tile].resource, yield_of(board.nodes[node].node_status)) {
            (Some(resource), Some((owner, amount))) => BoardModel {
                budgets: gained(before.budgets, owner as int, resource as int, amount),
                total_drawn_resources: gained(
                    before.total_drawn_resources,
                    owner as int,
                    resource as int,
                    amount,
                ),
                ..before
            },
            _ => before,
        }
    }
}

/// The board after the first `tiles` tiles have produced for a dice sum of
/// `sum`: every tile that shows the sum yields at all its corners.
pub open spec fn produced(board: BoardModel, sum: u32, tiles: int) -> BoardModel
    decreases tiles,
{
    if tiles <= 0 {
        board
    } else {
        let before = produced(board, sum, tiles - 1);
        let tile = tiles - 1;
        if board.tiles[tile].rng == Some(sum) {
            tile_produced(before, tile, board.tiles[tile].nodes.len() as int)
        } else {
            before
        }
    }
}

/// The game after the dice were thrown: the dice show a new sum; where the
/// sum brings the robber the round starts with the discards, and where it
/// does not every tile that shows the sum produces and the round starts
/// with the first card phase.
pub open spec fn dice_thrown(game: GameModel) -> GameModel {
    let dice = game.round.board.dice.thrown();
    let sum = dice.draw->0;
    let robber = game.parameters.brings_robber(sum);
    let board = BoardModel { dice, dice_outcome: dice.draw, ..game.round.board };
    GameModel {
        round: with_turn(
            RoundModel {
                board: if robber {
                    board
                } else {
                    produced(board, sum, board.tiles.len() as int)
                },
                ..game.round
            },
            after_throw(turn_of(game.round), game.parameters.n_players, robber),
        ),
        ..game
    }
}

/// The game after the phase moved on from `action`.
pub open spec fn phase_advanced(game: GameModel, action: ActionModel) -> GameModel {
    let (turn, throw) = next_turn(turn_of(game.round), action, limits_of(&game.parameters));
    let moved = GameModel { round: with_turn(game.round, turn), ..game };
    if throw {
        dice_thrown(moved)
    } else {
        moved
    }
}

/// The game after `action` was carried out up to the move of the phase:
/// the action takes effect, it goes on record and the board is brought up
/// to date.
pub open spec fn carried_out(game: GameModel, action: ActionModel, name: Option<Seq<char>>) -> GameModel {
    let acted = recorded(applied(game, action, name), action);
    with_board(acted, refreshed(acted.round.board, acted.parameters.n_players as int))
}

/// The game after `action` was carried out in full: the action takes
/// effect, it goes on record, the board is brought up to date and the phase
/// moves on.
pub open spec fn played(game: GameModel, action: ActionModel, name: Option<Seq<char>>) -> GameModel {
    phase_advanced(carried_out(game, action, name), action)
}

/// The game after the first `count` of `actions` were carried out one
/// after another, each with its name for a building. An action that the
/// game cannot take, or that the board refuses, is passed over.
pub open spec fn replayed(
    game: GameModel,
    actions: Seq<(ActionModel, Option<Seq<char>>)>,
    count: int,
) -> GameModel
    decreases count,
{
    if count <= 0 {
        game
    } else {
        let before = replayed(game, actions, count - 1);
        let (action, name) = actions[count - 1];
        if accepts(before, action) && refusal(before, action) is None {
            played(before, action, name)
        } else {
            before
        }
    }
}

/// Whether two games agree in everything that play depends on: in their
/// rounds, and in their parameters but for the title and the id, which
/// differ from game to game.
pub open spec fn same_position(first: GameModel, second: GameModel) -> bool {
    &&& first.round == second.round
    &&& second.parameters == (GameParameters {
        id: second.parameters.id,
        title: second.parameters.title,
        ..first.parameters
    })
}

/// What an action does depends on the position and the seeds alone: two
/// games in the same position can take the same actions, are refused the
/// same placements, and are in the same position after the action.
pub proof fn lemma_play_is_reproducible(
    first: GameModel,
    second: GameModel,
    action: ActionModel,
    name: Option<Seq<char>>,
)
    requires
        same_position(first, second),
    ensures
        accepts(first, action) == accepts(second, action),
        refusal(first, action) == refusal(second, action),
        same_position(played(first, action, name), played(second, action, name)),
{
    reveal(accepts);
    reveal(refusal);
    reveal(applied);
    assert(same_position(applied(first, action, name), applied(second, action, name)));
    let acted = recorded(applied(first, action, name), action);
    let other = recorded(applied(second, action, name), action);
    assert(same_position(acted, other));
    assert(same_position(carried_out(first, action, name), carried_out(second, action, name)));
}

/// A game is reproducible: the same actions, carried out from the same
/// position with the same seeds, lead to the same position with the same
/// seeds, whatever the games are called. Every draw of the game is a seeded
/// draw, so nothing but the position and the seeds decides a game.
pub proof fn lemma_replay_is_reproducible(
    first: GameModel,
    second: GameModel,
    actions: Seq<(ActionModel, Option<Seq<char>>)>,
    count: int,
)
    requires
        same_position(first, second),
    ensures
        same_position(replayed(first, actions, count), replayed(second, actions, count)),
        replayed(first, actions, count).round.board == replayed(second, actions, count).round.board,
    decreases count,
{
    if count > 0 {
        lemma_replay_is_reproducible(first, second, actions, count - 1);
        let (action, name) = actions[count - 1];
        lemma_play_is_reproducible(
            replayed(first, actions, count - 1),
            replayed(second, actions, count - 1),
            action,
            name,
        );
    }
}

/// Production touches nothing but the budgets and the count of the
/// resources drawn.
pub proof fn lemma_tile_production_is_private(board: BoardModel, tile: int, corners: int)
    ensures
        tile_produced(board, tile, corners) == (BoardModel {
            budgets: tile_produced(board, tile, corners).budgets,
            total_drawn_resources: tile_produced(board, tile, corners).total_drawn_resources,
            ..board
        }),
    decreases corners,
{
    if corners > 0 {
        lemma_tile_production_is_private(board, tile, corners - 1);
    }
}

/// Production touches nothing but the budgets and the count of the
/// resources drawn.
pub proof fn lemma_production_is_private(board: BoardModel, sum: u32, tiles: int)
    ensures
        produced(board, sum, tiles) == (BoardModel {
            budgets: produced(board, sum, tiles).budgets,
            total_drawn_resources: produced(board, sum, tiles).total_drawn_resources,
            ..board
        }),
    decreases tiles,
{
    if tiles > 0 {
        lemma_production_is_private(board, sum, tiles - 1);
        let before = produced(board, sum, tiles - 1);
        lemma_tile_production_is_private(
            before,
            tiles - 1,
            board.tiles[tiles - 1].nodes.len() as int,
        );
    }
}

/// A throw of the dice shows the sum of the faces that the seed of the dice
/// decides, moves the seed on by one, and leads to the discards where the
/// sum brings the robber and to the first card phase where it does not.
pub proof fn lemma_throw_follows_seed(game: GameModel)
    ensures
        dice_thrown(game).round.board.dice == game.round.board.dice.thrown(),
        dice_thrown(game).round.board.dice_outcome == game.round.board.dice.thrown().draw,
        dice_thrown(game).round.board.dice.seed == next_seed(game.round.board.dice.seed),
        dice_thrown(game).round.phase == if game.parameters.brings_robber(
            game.round.board.dice.thrown().draw->0,
        ) {
            crate::backend::round::phase::Phase::RobberDiscard
        } else {
            crate::backend::round::phase::Phase::FirstCardPhase
        },
        dice_thrown(game).parameters == game.parameters,
{
    let dice = game.round.board.dice.thrown();
    let board = BoardModel { dice, dice_outcome: dice.draw, ..game.round.board };
    lemma_production_is_private(board, dice.draw->0, board.tiles.len() as int);
}

/// Finishing the round throws the dice exactly once: the game after
/// `FinishRound` is the game after one throw of the dice, with the action
/// on record; so the seed of the dice has moved on by one, and the phase is
/// the discards or the first card phase, as the robber numbers decide.
pub proof fn lemma_finish_round_throws_once(game: GameModel, name: Option<Seq<char>>)
    ensures
        played(game, ActionModel::FinishRound, name).round.board.dice
            == game.round.board.dice.thrown(),
        played(game, ActionModel::FinishRound, name).round.phase == if game.parameters.brings_robber(
            game.round.board.dice.thrown().draw->0,
        ) {
            crate::backend::round::phase::Phase::RobberDiscard
        } else {
            crate::backend::round::phase::Phase::FirstCardPhase
        },
        played(game, ActionModel::FinishRound, name).round.action == Some(ActionModel::FinishRound),
        played(game, ActionModel::FinishRound, name).parameters == game.parameters,
{
    reveal(applied);
    let acted = recorded(applied(game, ActionModel::FinishRound, name), ActionModel::FinishRound);
    let counted = with_board(acted, refreshed(acted.round.board, acted.parameters.n_players as int));
    assert(counted.round.board.dice == game.round.board.dice);
    assert(counted.parameters == game.parameters);
    lemma_throw_follows_seed(
        GameModel {
            round: with_turn(counted.round, turn_of(counted.round)),
            ..counted
        },
    );
}

} // verus!
