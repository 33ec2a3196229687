use catan_cli::backend::round::action::{Action, Quote};
use catan_cli::backend::round::cards::CardType;
use catan_cli::backend::round::phase::{advance_turn, turn_after_throw, Limits, Phase, Turn};

fn limits() -> Limits {
    Limits { n_players: 4, max_trades: 5, max_builds: 5, n_setup_rounds: 2 }
}

fn turn(phase: Phase, phase_count: u32, active_player: u32, throwing_player: u32) -> Turn {
    Turn { phase, phase_count, card_count: 0, cards_played: 0, active_player, throwing_player }
}

fn quote() -> Action {
    Action::TradeQuote(Quote {
        quoting_player: 1,
        resource_supplied: 0,
        quantity_supplied: 1,
        resource_demanded: 1,
        quantity_demanded: 1,
    })
}

#[test]
fn set_up_snakes_through_the_players() {
    let mut now = turn(Phase::SetUp, 0, 0, 0);
    let mut order = vec![];
    for _ in 0..7 {
        let (next, throw) = advance_turn(now, &Action::SetUpMove(0, 1), limits());
        assert!(!throw);
        assert_eq!(next.phase, Phase::SetUp);
        assert_eq!(next.phase_count, now.phase_count + 1);
        order.push(next.active_player);
        now = next;
    }
    assert_eq!(order, vec![1, 2, 3, 3, 2, 1, 0]);
    assert_eq!(advance_turn(now, &Action::SetUpMove(0, 1), limits()), (now, true));
}

#[test]
fn set_up_of_three_rounds_turns_twice() {
    let limits = Limits { n_players: 3, max_trades: 1, max_builds: 1, n_setup_rounds: 3 };
    let mut now = turn(Phase::SetUp, 0, 1, 1);
    let mut order = vec![];
    for _ in 0..8 {
        let (next, throw) = advance_turn(now, &Action::SetUpMove(0, 1), limits);
        assert!(!throw);
        order.push(next.active_player);
        now = next;
    }
    assert_eq!(order, vec![2, 0, 0, 2, 1, 1, 2, 0]);
    assert!(advance_turn(now, &Action::SetUpMove(0, 1), limits).1);
}

#[test]
fn throw_passes_to_the_next_player() {
    let after = turn_after_throw(
        Turn {
            phase: Phase::SecondCardPhase,
            phase_count: 3,
            card_count: 2,
            cards_played: 1,
            active_player: 2,
            throwing_player: 3,
        },
        4,
        false,
    );
    assert_eq!(after, turn(Phase::FirstCardPhase, 0, 0, 0));
    let robbed = turn_after_throw(turn(Phase::SecondCardPhase, 9, 1, 1), 4, true);
    assert_eq!(robbed, turn(Phase::RobberDiscard, 0, 2, 2));
    let first = turn_after_throw(turn(Phase::SetUp, 8, 2, 2), 4, false);
    assert_eq!(first, turn(Phase::FirstCardPhase, 0, 0, 0));
}

#[test]
fn discards_go_once_round_the_table() {
    let mut now = turn(Phase::RobberDiscard, 0, 2, 2);
    let mut order = vec![];
    for _ in 0..4 {
        let (next, throw) = advance_turn(now, &Action::NoDiscard, limits());
        assert!(!throw);
        assert_eq!(next.phase, Phase::RobberDiscard);
        order.push(next.active_player);
        now = next;
    }
    assert_eq!(order, vec![3, 0, 1, 2]);
    assert_eq!(now.phase_count, 4);
    let (last, throw) = advance_turn(now, &Action::DiscardCards(vec![1]), limits());
    assert!(!throw);
    assert_eq!(last, turn(Phase::RobberMove, 0, 2, 2));
    let (moved, throw) = advance_turn(turn(Phase::RobberMove, 0, 2, 2), &Action::Robber(0, 1, None), limits());
    assert!(!throw);
    assert_eq!(moved, turn(Phase::FirstCardPhase, 0, 2, 2));
}

#[test]
fn card_phases_lead_to_trading_or_to_the_throw() {
    let first = turn(Phase::FirstCardPhase, 0, 1, 1);
    assert_eq!(advance_turn(first, &Action::NoCardPlay, limits()), (turn(Phase::TradingQuote, 0, 1, 1), false));
    let (played, throw) = advance_turn(first, &Action::CardPlay(CardType::VPCard), limits());
    assert!(!throw);
    assert_eq!(played.card_count, 1);
    assert_eq!(played.phase, Phase::FirstCardPhase);
    let second = turn(Phase::SecondCardPhase, 0, 1, 1);
    assert_eq!(advance_turn(second, &Action::NoCardPlay, limits()), (second, true));
    let (last, throw) = advance_turn(second, &Action::CardPlay(CardType::MonopolyCard(0)), limits());
    assert!(throw);
    assert_eq!(last.card_count, 1);
    assert_eq!(advance_turn(first, &Action::FinishRound, limits()), (first, true));
    assert_eq!(advance_turn(first, &Action::Save, limits()), (first, false));
}

#[test]
fn quote_passes_round_the_table_and_back() {
    let mut now = turn(Phase::TradingQuote, 0, 1, 1);
    let (asked, _) = advance_turn(now, &quote(), limits());
    assert_eq!(asked, turn(Phase::TradingResponse, 1, 2, 1));
    now = asked;
    let mut order = vec![];
    for _ in 0..3 {
        let (next, throw) = advance_turn(now, &Action::TradeResponse(now.active_player, false), limits());
        assert!(!throw);
        order.push((next.phase, next.phase_count, next.active_player));
        now = next;
    }
    assert_eq!(
        order,
        vec![
            (Phase::TradingResponse, 2, 3),
            (Phase::TradingResponse, 3, 0),
            (Phase::TradingQuote, 4, 1),
        ]
    );
}

#[test]
fn accepted_quote_ends_the_trade_round() {
    let asked = turn(Phase::TradingResponse, 2, 3, 1);
    let (next, throw) = advance_turn(asked, &Action::TradeResponse(3, true), limits());
    assert!(!throw);
    assert_eq!(next, turn(Phase::TradingQuote, 4, 1, 1));
    let late = turn(Phase::TradingResponse, 17, 2, 1);
    let (last, _) = advance_turn(late, &Action::TradeResponse(2, true), limits());
    assert_eq!(last, turn(Phase::Building, 0, 1, 1));
    let (bank, _) = advance_turn(turn(Phase::TradingQuote, 5, 1, 1), &Action::BankTrade(0, 1), limits());
    assert_eq!(bank, turn(Phase::TradingQuote, 8, 1, 1));
    let (harbor, _) = advance_turn(turn(Phase::TradingQuote, 8, 3, 1), &Action::HarborTrade(5, 0, 1), limits());
    assert_eq!(harbor, turn(Phase::TradingQuote, 12, 1, 1));
}

#[test]
fn trade_rounds_run_out() {
    let used = turn(Phase::TradingQuote, 24, 1, 1);
    let (next, _) = advance_turn(used, &quote(), limits());
    assert_eq!(next, turn(Phase::Building, 0, 1, 1));
    let last_round = turn(Phase::TradingResponse, 23, 0, 1);
    let (back, _) = advance_turn(last_round, &Action::TradeResponse(0, false), limits());
    assert_eq!(back, turn(Phase::Building, 0, 1, 1));
    let (none, _) = advance_turn(turn(Phase::TradingQuote, 9, 1, 1), &Action::NoTrade, limits());
    assert_eq!(none, turn(Phase::Building, 9, 1, 1));
    let (fresh, _) = advance_turn(turn(Phase::TradingQuote, 0, 1, 1), &Action::NoTrade, limits());
    assert_eq!(fresh, turn(Phase::Building, 0, 1, 1));
}

#[test]
fn building_ends_after_the_purchases_of_the_round() {
    let mut now = turn(Phase::Building, 0, 2, 2);
    let purchases = [
        Action::BuildRoad(0, 1),
        Action::BuildSettlement(1),
        Action::BuildCity(1),
        Action::BuyDevCard,
    ];
    for (count, action) in purchases.iter().enumerate() {
        let (next, throw) = advance_turn(now, action, limits());
        assert!(!throw);
        assert_eq!(next, turn(Phase::Building, count as u32 + 1, 2, 2));
        now = next;
    }
    let (last, _) = advance_turn(now, &Action::BuildRoad(1, 2), limits());
    assert_eq!(last, turn(Phase::SecondCardPhase, 0, 2, 2));
    let (none, _) = advance_turn(turn(Phase::Building, 2, 2, 2), &Action::NoBuying, limits());
    assert_eq!(none, turn(Phase::SecondCardPhase, 0, 2, 2));
}

#[test]
fn counters_stop_at_the_largest_number() {
    let full = turn(Phase::TradingQuote, u32::MAX, 0, 0);
    let limits = Limits { n_players: 3, max_trades: u32::MAX, max_builds: u32::MAX, n_setup_rounds: u32::MAX };
    let (bank, _) = advance_turn(full, &Action::BankTrade(0, 1), limits);
    assert_eq!(bank.phase_count, u32::MAX);
    let (built, _) = advance_turn(turn(Phase::Building, u32::MAX, 0, 0), &Action::BuyDevCard, limits);
    assert_eq!(built, turn(Phase::SecondCardPhase, 0, 0, 0));
    let (placed, throw) = advance_turn(turn(Phase::SetUp, u32::MAX, 0, 0), &Action::SetUpMove(0, 1), limits);
    assert!(!throw);
    assert_eq!(placed.phase_count, u32::MAX);
}
