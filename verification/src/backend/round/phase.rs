use vstd::prelude::*;
use crate::backend::round::action::{Action, ActionModel};
use crate::backend::round::budget::{add_to, lemma_entry_keeps_dims, sat_add};
use crate::backend::round::rules::{
    dice_thrown, limits_of, phase_advanced, produced, tile_produced, turn_of, with_turn,
};
use crate::backend::setup::board::{Board, BoardModel};
use crate::backend::setup::game::Game;
use crate::backend::setup::game_parameters::GameParameters;
use crate::backend::setup::node_status::NodeStatus;

verus! {

/// The phases of a game. A round starts with a dice throw and then runs
/// through the card, trading and building phases.
#[derive(Clone, Copy, Debug, PartialEq, Eq, Structural)]
pub enum Phase {
    SetUp,
    RobberDiscard,
    RobberMove,
    FirstCardPhase,
    TradingQuote,
    TradingResponse,
    Building,
    SecondCardPhase,
    Terminal,
}

/// Where a round stands: the phase with its counters, and whose turn it is.
#[derive(Clone, Copy, Debug, PartialEq, Eq, Structural)]
pub struct Turn {
    pub phase: Phase,
    /// Steps taken within the phase: placements in set-up, players asked
    /// while discarding, players asked per trade round while trading,
    /// purchases while building.
    pub phase_count: u32,
    pub card_count: u32,
    pub cards_played: u32,
    pub active_player: u32,
    pub throwing_player: u32,
}

/// The limits that order a round.
#[derive(Clone, Copy, Debug, PartialEq, Eq, Structural)]
pub struct Limits {
    pub n_players: u32,
    pub max_trades: u32,
    pub max_builds: u32,
    pub n_setup_rounds: u32,
}

/// A number of steps as a counter: the number itself, or the largest `u32`
/// where it is beyond that.
pub open spec fn as_count(steps: int) -> u32 {
    if steps > u32::MAX {
        u32::MAX
    } else {
        steps as u32
    }
}

/// The first step of the trade round after the one that step `count` is in.
pub open spec fn next_trade_round(count: u32, n_players: u32) -> u32 {
    as_count((count / n_players + 1) * n_players)
}

/// The turn after a set-up placement that does not end the set-up. The
/// players place in a snake: forward through the table in one round,
/// backward in the next, and the player at the turning point places twice.
pub open spec fn after_placement(turn: Turn, limits: Limits) -> Turn {
    let n = limits.n_players;
    let next = turn.phase_count + 1;
    Turn {
        phase_count: sat_add(turn.phase_count, 1),
        active_player: if next % (n as int) == 0 {
            turn.active_player
        } else if (turn.phase_count / n) % 2 == 0 {
            ((turn.active_player + 1) % (n as int)) as u32
        } else {
            ((turn.active_player + n - 1) % (n as int)) as u32
        },
        ..turn
    }
}

/// The turn after a player has discarded or kept their cards. The players
/// are asked in turn, once around the table from the thrower; when the count
/// has reached the number of players the thrower, who is asked once more,
/// moves the robber.
pub open spec fn after_discard(turn: Turn, limits: Limits) -> Turn {
    let n = limits.n_players;
    if turn.phase_count < n {
        Turn {
            phase_count: (turn.phase_count + 1) as u32,
            active_player: ((turn.active_player + 1) % (n as int)) as u32,
            ..turn
        }
    } else {
        Turn {
            phase: Phase::RobberMove,
            phase_count: 0,
            active_player: turn.throwing_player,
            ..turn
        }
    }
}

/// The turn after a quote was made or refused: the next player around the
/// table is asked; when the round of asking is back at the thrower, the
/// thrower may quote again, or builds once the trade rounds are used up.
pub open spec fn after_quote(turn: Turn, limits: Limits) -> Turn {
    let n = limits.n_players;
    let rounds = turn.phase_count / n;
    if rounds <= limits.max_trades {
        let count = sat_add(turn.phase_count, 1);
        let asked = ((turn.throwing_player + count) % (n as int)) as u32;
        if asked == turn.throwing_player {
            if rounds < limits.max_trades {
                Turn { phase: Phase::TradingQuote, phase_count: count, active_player: asked, ..turn }
            } else {
                Turn { phase: Phase::Building, phase_count: 0, active_player: asked, ..turn }
            }
        } else {
            Turn { phase: Phase::TradingResponse, phase_count: count, active_player: asked, ..turn }
        }
    } else {
        Turn { phase: Phase::Building, phase_count: 0, active_player: turn.throwing_player, ..turn }
    }
}

/// The turn after a purchase: the player builds on until the purchases of
/// the round are used up.
pub open spec fn after_purchase(turn: Turn, limits: Limits) -> Turn {
    let count = sat_add(turn.phase_count, 1);
    if count < limits.max_builds {
        Turn { phase: Phase::Building, phase_count: count, ..turn }
    } else {
        Turn { phase: Phase::SecondCardPhase, phase_count: 0, ..turn }
    }
}

/// The turn that follows `action`, and whether the dice are thrown next.
/// Where the dice are thrown the turn is the one before the throw; the
/// throw itself moves it on, see [`after_throw`].
pub open spec fn next_turn(turn: Turn, action: ActionModel, limits: Limits) -> (Turn, bool) {
    let n = limits.n_players;
    match action {
        ActionModel::SetUpMove(_, _) => {
            if turn.phase_count + 1 >= limits.n_setup_rounds * n {
                (turn, true)
            } else {
                (after_placement(turn, limits), false)
            }
        },
        ActionModel::Robber(_, _, _) => (
            Turn {
                phase: Phase::FirstCardPhase,
                active_player: turn.throwing_player,
                ..turn
            },
            false,
        ),
        ActionModel::DiscardCards(_) => (after_discard(turn, limits), false),
        ActionModel::NoDiscard => (after_discard(turn, limits), false),
        ActionModel::NoCardPlay => {
            if turn.phase == Phase::SecondCardPhase {
                (turn, true)
            } else {
                (Turn { phase: Phase::TradingQuote, phase_count: 0, ..turn }, false)
            }
        },
        ActionModel::CardPlay(_) => (
            Turn { card_count: sat_add(turn.card_count, 1), ..turn },
            turn.phase == Phase::SecondCardPhase,
        ),
        ActionModel::NoTrade => (Turn { phase: Phase::Building, ..turn }, false),
        ActionModel::BankTrade(_, _) => (
            Turn {
                phase_count: next_trade_round(turn.phase_count, n),
                active_player: turn.throwing_player,
                ..turn
            },
            false,
        ),
        ActionModel::HarborTrade(_, _, _) => (
            Turn {
                phase_count: next_trade_round(turn.phase_count, n),
                active_player: turn.throwing_player,
                ..turn
            },
            false,
        ),
        ActionModel::TradeQuote(_) => (after_quote(turn, limits), false),
        ActionModel::TradeResponse(_, accept) => {
            if accept && turn.phase_count / n + 1 < limits.max_trades {
                (
                    Turn {
                        phase: Phase::TradingQuote,
                        phase_count: next_trade_round(turn.phase_count, n),
                        active_player: turn.throwing_player,
                        ..turn
                    },
                    false,
                )
            } else if accept {
                (
                    Turn {
                        phase: Phase::Building,
                        phase_count: 0,
                        active_player: turn.throwing_player,
                        ..turn
                    },
                    false,
                )
            } else {
                (after_quote(turn, limits), false)
            }
        },
        ActionModel::NoBuying => (
            Turn { phase: Phase::SecondCardPhase, phase_count: 0, ..turn },
            false,
        ),
        ActionModel::BuildRoad(_, _) => (after_purchase(turn, limits), false),
        ActionModel::BuildSettlement(_) => (after_purchase(turn, limits), false),
        ActionModel::BuildCity(_) => (after_purchase(turn, limits), false),
        ActionModel::BuyDevCard => (after_purchase(turn, limits), false),
        ActionModel::FinishRound => (turn, true),
        ActionModel::Save => (turn, false),
        ActionModel::Quit => (turn, false),
    }
}

/// The turn after a dice throw: the counters start anew, the throw passes
/// to the next player (to the first player after the set-up), who becomes
/// the active player, and the round starts with the discards where the
/// dice brought the robber, with the first card phase where they did not.
pub open spec fn after_throw(turn: Turn, n_players: u32, robber: bool) -> Turn {
    let thrower = if turn.phase == Phase::SetUp {
        0u32
    } else {
        ((turn.throwing_player + 1) % (n_players as int)) as u32
    };
    Turn {
        phase: if robber {
            Phase::RobberDiscard
        } else {
            Phase::FirstCardPhase
        },
        phase_count: 0,
        card_count: 0,
        cards_played: 0,
        active_player: thrower,
        throwing_player: thrower,
    }
}

/// Turns keep their players at the table: after any action, and after any
/// throw, the active and the throwing player are players of the game.
pub proof fn lemma_turn_keeps_players(turn: Turn, action: ActionModel, limits: Limits, robber: bool)
    requires
        limits.n_players >= 1,
        turn.active_player < limits.n_players,
        turn.throwing_player < limits.n_players,
    ensures
        next_turn(turn, action, limits).0.active_player < limits.n_players,
        next_turn(turn, action, limits).0.throwing_player < limits.n_players,
        after_throw(turn, limits.n_players, robber).active_player < limits.n_players,
        after_throw(turn, limits.n_players, robber).throwing_player < limits.n_players,
{
}

/// The dice are thrown exactly when the round is finished, when the last
/// set-up placement is made, and at the end of the second card phase; a
/// throw leads to the discards or to the first card phase.
pub proof fn lemma_throw_starts_round(turn: Turn, action: ActionModel, limits: Limits, robber: bool)
    ensures
        action is FinishRound ==> next_turn(turn, action, limits).1,
        next_turn(turn, action, limits).1 ==> {
            ||| action is FinishRound
            ||| action is SetUpMove && turn.phase_count + 1 >= limits.n_setup_rounds
                * limits.n_players
            ||| (action is NoCardPlay || action is CardPlay) && turn.phase == Phase::SecondCardPhase
        },
        after_throw(turn, limits.n_players, robber).phase == if robber {
            Phase::RobberDiscard
        } else {
            Phase::FirstCardPhase
        },
{
}

fn count_of(steps: u64) -> (count: u32)
    ensures
        count == as_count(steps as int),
{
    if steps > u32::MAX as u64 {
        u32::MAX
    } else {
        steps as u32
    }
}

fn trade_round_after(count: u32, n_players: u32) -> (next: u32)
    requires
        n_players >= 1,
    ensures
        next == next_trade_round(count, n_players),
{
    let rounds: u64 = (count / n_players) as u64;
    let n: u64 = n_players as u64;
    assert((rounds + 1) * n <= 0x1_0000_0000 * 0xffff_ffff) by (nonlinear_arith)
        requires
            rounds <= 0xffff_ffff,
            n <= 0xffff_ffff,
    ;
    count_of((rounds + 1) * n)
}

fn quote_passed(turn: Turn, limits: Limits) -> (next: Turn)
    requires
        limits.n_players >= 1,
    ensures
        next == after_quote(turn, limits),
{
    let n = limits.n_players;
    let rounds = turn.phase_count / n;
    if rounds <= limits.max_trades {
        let count = turn.phase_count.saturating_add(1);
        let asked = ((turn.throwing_player as u64 + count as u64) % (n as u64)) as u32;
        if asked == turn.throwing_player {
            if rounds < limits.max_trades {
                Turn {
                    phase: Phase::TradingQuote,
                    phase_count: count,
                    card_count: turn.card_count,
                    cards_played: turn.cards_played,
                    active_player: asked,
                    throwing_player: turn.throwing_player,
                }
            } else {
                Turn {
                    phase: Phase::Building,
                    phase_count: 0,
                    card_count: turn.card_count,
                    cards_played: turn.cards_played,
                    active_player: asked,
                    throwing_player: turn.throwing_player,
                }
            }
        } else {
            Turn {
                phase: Phase::TradingResponse,
                phase_count: count,
                card_count: turn.card_count,
                cards_played: turn.cards_played,
                active_player: asked,
                throwing_player: turn.throwing_player,
            }
        }
    } else {
        Turn {
            phase: Phase::Building,
            phase_count: 0,
            card_count: turn.card_count,
            cards_played: turn.cards_played,
            active_player: turn.throwing_player,
            throwing_player: turn.throwing_player,
        }
    }
}

fn purchase_made(turn: Turn, limits: Limits) -> (next: Turn)
    ensures
        next == after_purchase(turn, limits),
{
    let count = turn.phase_count.saturating_add(1);
    if count < limits.max_builds {
        Turn {
            phase: Phase::Building,
            phase_count: count,
            card_count: turn.card_count,
            cards_played: turn.cards_played,
            active_player: turn.active_player,
            throwing_player: turn.throwing_player,
        }
    } else {
        Turn {
            phase: Phase::SecondCardPhase,
            phase_count: 0,
            card_count: turn.card_count,
            cards_played: turn.cards_played,
            active_player: turn.active_player,
            throwing_player: turn.throwing_player,
        }
    }
}

fn discard_made(turn: Turn, limits: Limits) -> (next: Turn)
    requires
        limits.n_players >= 1,
    ensures
        next == after_discard(turn, limits),
{
    let n = limits.n_players;
    if turn.phase_count < n {
        Turn {
            phase: turn.phase,
            phase_count: turn.phase_count + 1,
            card_count: turn.card_count,
            cards_played: turn.cards_played,
            active_player: ((turn.active_player as u64 + 1) % (n as u64)) as u32,
            throwing_player: turn.throwing_player,
        }
    } else {
        Turn {
            phase: Phase::RobberMove,
            phase_count: 0,
            card_count: turn.card_count,
            cards_played: turn.cards_played,
            active_player: turn.throwing_player,
            throwing_player: turn.throwing_player,
        }
    }
}

/// The turn that follows `action`, and whether the dice are thrown next.
pub fn advance_turn(turn: Turn, action: &Action, limits: Limits) -> (next: (Turn, bool))
    requires
        limits.n_players >= 1,
    ensures
        next == next_turn(turn, action.deep_view(), limits),
{
    let n = limits.n_players;
    match action {
        Action::SetUpMove(_, _) => {
            let rounds: u64 = limits.n_setup_rounds as u64;
            let players: u64 = n as u64;
            assert(rounds * players <= 0xffff_ffff * 0xffff_ffff) by (nonlinear_arith)
                requires
                    rounds <= 0xffff_ffff,
                    players <= 0xffff_ffff,
            ;
            if turn.phase_count as u64 + 1 >= rounds * players {
                (turn, true)
            } else {
                let next: u32 = turn.phase_count.saturating_add(1);
                let active = if (turn.phase_count as u64 + 1) % players == 0 {
                    turn.active_player
                } else if (turn.phase_count / n) % 2 == 0 {
                    ((turn.active_player as u64 + 1) % players) as u32
                } else {
                    ((turn.active_player as u64 + players - 1) % players) as u32
                };
                (
                    Turn {
                        phase: turn.phase,
                        phase_count: next,
                        card_count: turn.card_count,
                        cards_played: turn.cards_played,
                        active_player: active,
                        throwing_player: turn.throwing_player,
                    },
                    false,
                )
            }
        },
        Action::Robber(_, _, _) => (
            Turn {
                phase: Phase::FirstCardPhase,
                phase_count: turn.phase_count,
                card_count: turn.card_count,
                cards_played: turn.cards_played,
                active_player: turn.throwing_player,
                throwing_player: turn.throwing_player,
            },
            false,
        ),
        Action::DiscardCards(_) => (discard_made(turn, limits), false),
        Action::NoDiscard => (discard_made(turn, limits), false),
        Action::NoCardPlay => {
            if turn.phase == Phase::SecondCardPhase {
                (turn, true)
            } else {
                (
                    Turn {
                        phase: Phase::TradingQuote,
                        phase_count: 0,
                        card_count: turn.card_count,
                        cards_played: turn.cards_played,
                        active_player: turn.active_player,
                        throwing_player: turn.throwing_player,
                    },
                    false,
                )
            }
        },
        Action::CardPlay(_) => (
            Turn {
                phase: turn.phase,
                phase_count: turn.phase_count,
                card_count: turn.card_count.saturating_add(1),
                cards_played: turn.cards_played,
                active_player: turn.active_player,
                throwing_player: turn.throwing_player,
            },
            turn.phase == Phase::SecondCardPhase,
        ),
        Action::NoTrade => (
            Turn {
                phase: Phase::Building,
                phase_count: turn.phase_count,
                card_count: turn.card_count,
                cards_played: turn.cards_played,
                active_player: turn.active_player,
                throwing_player: turn.throwing_player,
            },
            false,
        ),
        Action::BankTrade(_, _) => (
            Turn {
                phase: turn.phase,
                phase_count: trade_round_after(turn.phase_count, n),
                card_count: turn.card_count,
                cards_played: turn.cards_played,
                active_player: turn.throwing_player,
                throwing_player: turn.throwing_player,
            },
            false,
        ),
        Action::HarborTrade(_, _, _) => (
            Turn {
                phase: turn.phase,
                phase_count: trade_round_after(turn.phase_count, n),
                card_count: turn.card_count,
                cards_played: turn.cards_played,
                active_player: turn.throwing_player,
                throwing_player: turn.throwing_player,
            },
            false,
        ),
        Action::TradeQuote(_) => (quote_passed(turn, limits), false),
        Action::TradeResponse(_, accept) => {
            if *accept && (turn.phase_count / n) as u64 + 1 < limits.max_trades as u64 {
                (
                    Turn {
                        phase: Phase::TradingQuote,
                        phase_count: trade_round_after(turn.phase_count, n),
                        card_count: turn.card_count,
                        cards_played: turn.cards_played,
                        active_player: turn.throwing_player,
                        throwing_player: turn.throwing_player,
                    },
                    false,
                )
            } else if *accept {
                (
                    Turn {
                        phase: Phase::Building,
                        phase_count: 0,
                        card_count: turn.card_count,
                        cards_played: turn.cards_played,
                        active_player: turn.throwing_player,
                        throwing_player: turn.throwing_player,
                    },
                    false,
                )
            } else {
                (quote_passed(turn, limits), false)
            }
        },
        Action::NoBuying => (
            Turn {
                phase: Phase::SecondCardPhase,
                phase_count: 0,
                card_count: turn.card_count,
                cards_played: turn.cards_played,
                active_player: turn.active_player,
                throwing_player: turn.throwing_player,
            },
            false,
        ),
        Action::BuildRoad(_, _) => (purchase_made(turn, limits), false),
        Action::BuildSettlement(_) => (purchase_made(turn, limits), false),
        Action::BuildCity(_) => (purchase_made(turn, limits), false),
        Action::BuyDevCard => (purchase_made(turn, limits), false),
        Action::FinishRound => (turn, true),
        Action::Save => (turn, false),
        Action::Quit => (turn, false),
    }
}

/// The turn after a dice throw that brought the robber or did not.
pub fn turn_after_throw(turn: Turn, n_players: u32, robber: bool) -> (next: Turn)
    requires
        n_players >= 1,
    ensures
        next == after_throw(turn, n_players, robber),
{
    let thrower = if turn.phase == Phase::SetUp {
        0
    } else {
        ((turn.throwing_player as u64 + 1) % (n_players as u64)) as u32
    };
    Turn {
        phase: if robber {
            Phase::RobberDiscard
        } else {
            Phase::FirstCardPhase
        },
        phase_count: 0,
        card_count: 0,
        cards_played: 0,
        active_player: thrower,
        throwing_player: thrower,
    }
}

/// Production changes budgets only: nodes, tiles and everything else on the
/// board stay as they are, and the board keeps fitting its game.
pub proof fn lemma_tile_produced_keeps(
    board: BoardModel,
    parameters: &GameParameters,
    tile: int,
    corners: int,
)
    requires
        board.wf(parameters),
        0 <= tile < board.tiles.len(),
        0 <= corners <= board.tiles[tile].nodes.len(),
    ensures
        tile_produced(board, tile, corners).wf(parameters),
        tile_produced(board, tile, corners) == (BoardModel {
            budgets: tile_produced(board, tile, corners).budgets,
            total_drawn_resources: tile_produced(board, tile, corners).total_drawn_resources,
            ..board
        }),
    decreases corners,
{
    if corners > 0 {
        lemma_tile_produced_keeps(board, parameters, tile, corners - 1);
        let before = tile_produced(board, tile, corners - 1);
        let node = board.tiles[tile].nodes[corners - 1] as int;
        assert(node < board.nodes.len());
        match (board.tiles[tile].resource, crate::backend::round::rules::yield_of(
            board.nodes[node].node_status,
        )) {
            (Some(resource), Some((owner, amount))) => {
                assert(board.nodes[node].node_status.owner() == Some(owner));
                lemma_entry_keeps_dims(
                    before.budgets,
                    parameters.n_players as int,
                    parameters.n_resources as int,
                    owner as int,
                    resource as int,
                    amount,
                );
                lemma_entry_keeps_dims(
                    before.total_drawn_resources,
                    parameters.n_players as int,
                    parameters.n_resources as int,
                    owner as int,
                    resource as int,
                    amount,
                );
            },
            _ => {},
        }
    }
}

/// Makes tile `tile` yield its resource to the buildings at its corners.
fn produce_tile(board: &mut Board, parameters: &GameParameters, tile: usize)
    requires
        old(board).deep_view().wf(parameters),
        tile < old(board).tiles.len(),
    ensures
        final(board).deep_view() == tile_produced(
            old(board).deep_view(),
            tile as int,
            old(board).tiles[tile as int].nodes.len() as int,
        ),
        final(board).deep_view().wf(parameters),
        final(board).tiles == old(board).tiles,
        final(board).nodes == old(board).nodes,
{
    let ghost start = board.deep_view();
    let ghost tiles = board.tiles;
    let ghost nodes = board.nodes;
    assert(start.tiles[tile as int] == board.tiles[tile as int].deep_view());
    let count = board.tiles[tile].nodes.len();
    let mut c: usize = 0;
    while c < count
        invariant
            c <= count,
            tile < board.tiles.len(),
            board.tiles == tiles,
            board.nodes == nodes,
            tiles == old(board).tiles,
            nodes == old(board).nodes,
            start == old(board).deep_view(),
            count == start.tiles[tile as int].nodes.len(),
            start.wf(parameters),
            board.deep_view() == tile_produced(start, tile as int, c as int),
            board.deep_view().wf(parameters),
        decreases count - c,
    {
        let ghost before = board.deep_view();
        assert(start.tiles[tile as int] == board.tiles[tile as int].deep_view());
        let node = board.tiles[tile].nodes[c] as usize;
        assert(node < start.nodes.len());
        assert(start.nodes[node as int] == board.nodes[node as int].deep_view());
        match board.tiles[tile].resource {
            Some(resource) => {
                let produced = match board.nodes[node].node_status {
                    NodeStatus::Settled(owner) => Some((owner, 1u32)),
                    NodeStatus::Citied(owner) => Some((owner, 2u32)),
                    _ => None,
                };
                match produced {
                    Some((owner, amount)) => {
                        assert(start.nodes[node as int].node_status.owner() == Some(owner));
                        proof {
                            lemma_entry_keeps_dims(
                                before.budgets,
                                parameters.n_players as int,
                                parameters.n_resources as int,
                                owner as int,
                                resource as int,
                                amount,
                            );
                            lemma_entry_keeps_dims(
                                before.total_drawn_resources,
                                parameters.n_players as int,
                                parameters.n_resources as int,
                                owner as int,
                                resource as int,
                                amount,
                            );
                        }
                        add_to(&mut board.budgets, owner as usize, resource as usize, amount);
                        add_to(
                            &mut board.total_drawn_resources,
                            owner as usize,
                            resource as usize,
                            amount,
                        );
                    },
                    None => {},
                }
            },
            None => {},
        }
        c = c + 1;
    }
}

/// Production leaves the tiles and nodes of the board as they are.
pub proof fn lemma_produced_keeps(board: BoardModel, parameters: &GameParameters, sum: u32, tiles: int)
    requires
        board.wf(parameters),
        0 <= tiles <= board.tiles.len(),
    ensures
        produced(board, sum, tiles).wf(parameters),
        produced(board, sum, tiles).tiles == board.tiles,
        produced(board, sum, tiles).nodes == board.nodes,
    decreases tiles,
{
    if tiles > 0 {
        lemma_produced_keeps(board, parameters, sum, tiles - 1);
        let before = produced(board, sum, tiles - 1);
        if board.tiles[tiles - 1].rng == Some(sum) {
            lemma_tile_produced_keeps(
                before,
                parameters,
                tiles - 1,
                board.tiles[tiles - 1].nodes.len() as int,
            );
        }
    }
}

/// Whether `sum` is among `numbers`.
fn contains_number(numbers: &Vec<u32>, sum: u32) -> (found: bool)
    ensures
        found == numbers@.contains(sum),
{
    let mut k: usize = 0;
    while k < numbers.len()
        invariant
            k <= numbers.len(),
            forall|l: int| 0 <= l < k ==> numbers[l] != sum,
        decreases numbers.len() - k,
    {
        if numbers[k] == sum {
            return true;
        }
        k = k + 1;
    }
    false
}

impl Game {
    /// The turn of the game.
    pub fn turn(&self) -> (turn: Turn)
        ensures
            turn == turn_of(self.deep_view().round),
    {
        Turn {
            phase: self.round.phase,
            phase_count: self.round.phase_count,
            card_count: self.round.card_count,
            cards_played: self.round.cards_played,
            active_player: self.round.active_player,
            throwing_player: self.round.throwing_player,
        }
    }

    /// The limits of the game.
    pub fn limits(&self) -> (limits: Limits)
        ensures
            limits == limits_of(&self.parameters),
    {
        Limits {
            n_players: self.parameters.n_players,
            max_trades: self.parameters.max_trades,
            max_builds: self.parameters.max_builds,
            n_setup_rounds: self.parameters.n_setup_rounds,
        }
    }

    fn set_turn(&mut self, turn: Turn)
        ensures
            final(self).deep_view() == (crate::backend::setup::game::GameModel {
                round: with_turn(old(self).deep_view().round, turn),
                ..old(self).deep_view()
            }),
    {
        self.round.phase = turn.phase;
        self.round.phase_count = turn.phase_count;
        self.round.card_count = turn.card_count;
        self.round.cards_played = turn.cards_played;
        self.round.active_player = turn.active_player;
        self.round.throwing_player = turn.throwing_player;
    }

    /// Makes every tile that shows the dice sum yield its resource to the
    /// buildings at its corners.
    pub fn produce_resources(&mut self)
        requires
            old(self).deep_view().wf(),
            old(self).round.board.dice_outcome is Some,
        ensures
            final(self).deep_view() == (crate::backend::setup::game::GameModel {
                round: crate::backend::round::round_struct::RoundModel {
                    board: produced(
                        old(self).deep_view().round.board,
                        old(self).round.board.dice_outcome->0,
                        old(self).round.board.tiles.len() as int,
                    ),
                    ..old(self).deep_view().round
                },
                ..old(self).deep_view()
            }),
            final(self).deep_view().wf(),
    {
        let ghost start = self.round.board.deep_view();
        let ghost tiles = self.round.board.tiles;
        let sum = match self.round.board.dice_outcome {
            Some(d) => d,
            None => 0,
        };
        let count = self.round.board.tiles.len();
        let mut t: usize = 0;
        while t < count
            invariant
                t <= count,
                count == tiles.len(),
                self.round.board.tiles == tiles,
                tiles == old(self).round.board.tiles,
                start == old(self).deep_view().round.board,
                start.wf(&self.parameters),
                self.parameters == old(self).parameters,
                self.parameters.wf(),
                self.round.board.deep_view() == produced(start, sum, t as int),
                self.round.board.deep_view().wf(&self.parameters),
                self.deep_view() == (crate::backend::setup::game::GameModel {
                    round: crate::backend::round::round_struct::RoundModel {
                        board: self.round.board.deep_view(),
                        ..old(self).deep_view().round
                    },
                    ..old(self).deep_view()
                }),
            decreases count - t,
        {
            assert(start.tiles[t as int] == tiles[t as int].deep_view());
            let shows = match self.round.board.tiles[t].rng {
                Some(number) => number == sum,
                None => false,
            };
            if shows {
                produce_tile(&mut self.round.board, &self.parameters, t);
            }
            t = t + 1;
        }
    }

    /// Throws the dice and starts the round that the throw opens.
    pub fn throw_dice(&mut self)
        requires
            old(self).deep_view().wf(),
        ensures
            final(self).deep_view() == dice_thrown(old(self).deep_view()),
            final(self).deep_view().wf(),
    {
        let ghost start = self.deep_view();
        let turn = self.turn();
        let dice = self.round.board.dice.throw();
        self.round.board.dice = dice;
        self.round.board.dice_outcome = dice.draw;
        let sum = match dice.draw {
            Some(d) => d,
            None => 0,
        };
        let robber = contains_number(&self.parameters.robber_nos, sum);
        if !robber {
            self.produce_resources();
        }
        let next = turn_after_throw(turn, self.parameters.n_players, robber);
        self.set_turn(next);
    }

    /// Moves the phase on from `legal_action`, throwing the dice where the
    /// action ends a round or the set-up.
    pub fn iterate_phase(&mut self, legal_action: &Action)
        requires
            old(self).deep_view().wf(),
        ensures
            final(self).deep_view() == phase_advanced(
                old(self).deep_view(),
                legal_action.deep_view(),
            ),
            final(self).deep_view().wf(),
    {
        let (turn, throw) = advance_turn(self.turn(), legal_action, self.limits());
        self.finish_phase(turn, throw);
    }

    /// Takes up `turn`, and throws the dice if `throw` says so.
    pub fn finish_phase(&mut self, turn: Turn, throw: bool)
        requires
            old(self).deep_view().wf(),
            turn.active_player < old(self).parameters.n_players,
            turn.throwing_player < old(self).parameters.n_players,
        ensures
            final(self).deep_view() == {
                let moved = crate::backend::setup::game::GameModel {
                    round: with_turn(old(self).deep_view().round, turn),
                    ..old(self).deep_view()
                };
                if throw {
                    dice_thrown(moved)
                } else {
                    moved
                }
            },
            final(self).deep_view().wf(),
    {
        self.set_turn(turn);
        if throw {
            self.throw_dice();
        }
    }
}

} // verus!
