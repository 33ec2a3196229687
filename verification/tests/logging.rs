use catan_cli::backend::logging::log_entry::{initialize_log, LogEntry};
use catan_cli::backend::logging::player_summary::{remove_duplicates, PlayerSummary};
use catan_cli::backend::logging::summary::Summary;
use catan_cli::backend::round::action::{copy_action, Action, Quote};
use catan_cli::backend::round::cards::CardType;
use catan_cli::backend::round::outcome::Outcome;
use catan_cli::backend::round::phase::Phase;
use catan_cli::backend::setup::game::Game;
use catan_cli::backend::setup::game_parameters::GameParameters;
use catan_cli::backend::setup::harbor::Harbor;

fn logged_game() -> Game {
    let mut resources = vec![None];
    let mut sums = vec![None];
    for tile in 1..19u32 {
        resources.push(Some(tile % 5));
        sums.push(Some(2 + (tile * 7) % 11));
    }
    let harbors = vec![Harbor::new((24, 25, 5))];
    let mut parameters = GameParameters::standard(resources, harbors, sums);
    parameters.title = Some("a game".to_string());
    assert!(parameters.can_build_board());
    Game::new(parameters).unwrap()
}

fn step(game: &mut Game, log: &mut Vec<LogEntry>, action: Action, duration_ms: u128) {
    let mut entry = LogEntry::new(&log[log.len() - 1]);
    assert!(game.accepts_action(&action));
    game.carry_out(&action, None).unwrap();
    entry.close(game.round.clone(), duration_ms);
    log.push(entry);
    game.iterate_phase(&action);
}

#[test]
fn log_opens_with_the_round_of_the_set_up() {
    let game = logged_game();
    let log = initialize_log(game.round.clone(), 12);
    assert_eq!(log.len(), 1);
    assert_eq!(log[0].log_id, 0);
    assert_eq!(log[0].duration_ms, Some(12));
    assert_eq!(log[0].prev_dice_outcome, None);
    assert_eq!(log[0].count_dice_draws, 0);
    assert_eq!(log[0].count_robber_draws, 0);
    assert_eq!(log[0].count_card_draws, 0);
    let round = log[0].round.as_ref().unwrap();
    assert_eq!(round.phase, Phase::SetUp);
    assert_eq!(format!("{:?}", round), format!("{:?}", game.round));
}

#[test]
fn entry_follows_the_entry_before_it() {
    let game = logged_game();
    let mut log = initialize_log(game.round.clone(), 0);
    log[0].count_dice_draws = 3;
    log[0].count_robber_draws = 2;
    log[0].count_card_draws = 1;
    log[0].prev_dice_outcome = Some(8);
    log[0].log_id = 41;
    let entry = LogEntry::new(&log[0]);
    assert_eq!(entry.log_id, 42);
    assert!(entry.round.is_none());
    assert_eq!(entry.duration_ms, None);
    assert_eq!(entry.prev_dice_outcome, Some(8));
    assert_eq!(entry.count_dice_draws, 3);
    assert_eq!(entry.count_robber_draws, 2);
    assert_eq!(entry.count_card_draws, 1);
}

#[test]
fn closed_entry_counts_the_draws_of_its_step() {
    let game = logged_game();
    let log = initialize_log(game.round.clone(), 0);
    let mut round = game.round.clone();
    round.board.dice_outcome = Some(9);
    round.outcome = Some(Outcome::RobberOutcome(None));
    let mut entry = LogEntry::new(&log[0]);
    entry.close(round.clone(), 7);
    assert_eq!(entry.duration_ms, Some(7));
    assert_eq!(entry.prev_dice_outcome, Some(9));
    assert_eq!(
        (entry.count_dice_draws, entry.count_robber_draws, entry.count_card_draws),
        (1, 1, 0)
    );
    let mut next = LogEntry::new(&entry);
    round.outcome = Some(Outcome::DrawCardOutcome(2));
    next.close(round.clone(), 5);
    assert_eq!(
        (next.count_dice_draws, next.count_robber_draws, next.count_card_draws),
        (1, 1, 1)
    );
    let mut last = LogEntry::new(&next);
    round.outcome = Some(Outcome::TradeOutcome(1, true));
    round.board.dice_outcome = Some(4);
    last.close(round, 5);
    assert_eq!(
        (last.count_dice_draws, last.count_robber_draws, last.count_card_draws),
        (2, 1, 1)
    );
    assert_eq!(last.log_id, 3);
}

#[test]
fn repeated_edges_leave_and_the_first_stays() {
    let list = vec![(1, 2), (3, 4), (1, 2), (2, 1), (3, 4), (0, 9)];
    assert_eq!(remove_duplicates(&list), vec![(1, 2), (3, 4), (2, 1), (0, 9)]);
    assert_eq!(remove_duplicates(&vec![]), vec![]);
}

#[test]
fn copy_of_an_action_is_the_action() {
    let quote = Quote {
        quoting_player: 2,
        resource_supplied: 0,
        quantity_supplied: 1,
        resource_demanded: 3,
        quantity_demanded: 2,
    };
    let actions = vec![
        Action::SetUpMove(3, 4),
        Action::Robber(0, 5, Some(1)),
        Action::DiscardCards(vec![1, 0, 2, 0, 1]),
        Action::CardPlay(CardType::RoadsCard(1, 2, 3, 4)),
        Action::HarborTrade(5, 1, 2),
        Action::TradeQuote(quote),
        Action::TradeResponse(1, true),
        Action::BuildCity(7),
        Action::FinishRound,
        Action::Quit,
    ];
    for action in &actions {
        assert_eq!(&copy_action(action), action);
    }
}

#[test]
fn player_summary_tells_the_steps_and_the_holdings_of_a_player() {
    let mut game = logged_game();
    let mut log = initialize_log(game.round.clone(), 3);
    let moves = [(0, 1), (20, 21), (41, 27), (52, 51), (30, 18), (12, 13), (36, 37), (3, 4)];
    for (k, (at, to)) in moves.iter().enumerate() {
        step(&mut game, &mut log, Action::SetUpMove(*at, *to), k as u128);
    }
    assert_eq!(log.len(), 9);
    assert!(PlayerSummary::covers(&log, 0));
    let first = PlayerSummary::new(&log, 0);
    assert_eq!(first.player_id, 0);
    assert_eq!(first.settlements, vec![0, 3]);
    assert_eq!(first.cities, Vec::<u32>::new());
    assert_eq!(first.roads, vec![(0, 1), (3, 4)]);
    assert_eq!(
        first.actions_and_outcomes,
        vec![
            (0, None, None),
            (1, Some(Action::SetUpMove(0, 1)), None),
            (8, Some(Action::SetUpMove(3, 4)), None),
        ]
    );
    assert_eq!(first.scores, vec![(0, 0), (1, 1), (8, 2)]);
    assert_eq!(first.budgets.len(), 3);
    assert_eq!(first.drawn_resources.len(), 3);
    assert_eq!(first.budgets[2].0, 8);
    let last = PlayerSummary::new(&log, 3);
    assert_eq!(last.settlements, vec![30, 52]);
    assert_eq!(last.roads, vec![(18, 30), (51, 52)]);
    assert_eq!(
        last.actions_and_outcomes,
        vec![(4, Some(Action::SetUpMove(52, 51)), None), (5, Some(Action::SetUpMove(30, 18)), None)]
    );
    assert!(PlayerSummary::covers(&log, 4));
    let nobody = PlayerSummary::new(&log, 4);
    assert!(nobody.actions_and_outcomes.is_empty() && nobody.scores.is_empty());
    assert!(nobody.settlements.is_empty() && nobody.roads.is_empty());
    assert!(!PlayerSummary::covers(&Vec::new(), 0));
    log[5].round.as_mut().unwrap().board.budgets.truncate(3);
    assert!(!PlayerSummary::covers(&log, 3));
    assert!(PlayerSummary::covers(&log, 2));
}

#[test]
fn summary_names_the_last_of_the_leaders() {
    let mut game = logged_game();
    let mut log = initialize_log(game.round.clone(), 3);
    let moves = [(0, 1), (20, 21), (41, 27), (52, 51), (30, 18), (12, 13), (36, 37), (3, 4)];
    for (k, (at, to)) in moves.iter().enumerate() {
        step(&mut game, &mut log, Action::SetUpMove(*at, *to), 10 + k as u128);
    }
    assert!(Summary::covers(&game, &log));
    let summary = Summary::new(&game, &log);
    assert_eq!(summary.game_title, Some("a game".to_string()));
    assert_eq!(summary.n_rounds, 9);
    assert_eq!(summary.winner_id, 3);
    assert_eq!(summary.duration, 3 + 8 * 10 + 28);
    assert_eq!(summary.player_summaries.len(), 4);
    assert_eq!(summary.player_summaries[2].player_id, 2);
    assert_eq!(summary.player_summaries[2].settlements, vec![12, 41]);
    game.round.board.scores = vec![2, 5, 5, 1];
    assert_eq!(Summary::new(&game, &log).winner_id, 2);
    log[4].duration_ms = Some(u128::MAX);
    assert_eq!(Summary::new(&game, &log).duration, u128::MAX);
    game.round.board.scores = vec![];
    assert!(!Summary::covers(&game, &log));
}

#[test]
fn logged_round_is_the_round_before_the_phase_moves_on() {
    let mut game = logged_game();
    let mut log = initialize_log(game.round.clone(), 0);
    step(&mut game, &mut log, Action::SetUpMove(0, 1), 1);
    let logged = log[1].round.as_ref().unwrap();
    assert_eq!(logged.active_player, 0);
    assert_eq!(logged.phase_count, 0);
    assert_eq!(logged.action, Some(Action::SetUpMove(0, 1)));
    assert_eq!(game.round.active_player, 1);
    assert_eq!(game.round.phase_count, 1);
    let mut other = logged_game();
    other.take_action(Action::SetUpMove(0, 1), None).unwrap();
    assert_eq!(format!("{:?}", other.round), format!("{:?}", game.round));
}
