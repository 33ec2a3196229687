use catan_cli::backend::round::action::{Action, Quote};
use catan_cli::backend::round::cards::CardType;
use catan_cli::backend::round::outcome::Outcome;
use catan_cli::backend::round::phase::Phase;
use catan_cli::backend::setup::game::Game;
use catan_cli::backend::setup::game_parameters::GameParameters;
use catan_cli::backend::setup::harbor::Harbor;
use catan_cli::backend::setup::node_status::NodeStatus;
use catan_cli::backend::setup::placement::PlacementError;
use catan_cli::backend::setup::player::PlayerType;
use catan_cli::backend::setup::road::Road;

fn parameters() -> GameParameters {
    let resources = vec![
        None,
        Some(0),
        Some(1),
        Some(2),
        Some(3),
        Some(4),
        Some(0),
        Some(1),
        Some(2),
        Some(3),
        Some(4),
        Some(0),
        Some(1),
        Some(2),
        Some(3),
        Some(4),
        Some(0),
        Some(1),
        Some(2),
    ];
    let sums = vec![
        None,
        Some(6),
        Some(8),
        Some(9),
        Some(10),
        Some(11),
        Some(12),
        Some(2),
        Some(3),
        Some(4),
        Some(5),
        Some(6),
        Some(8),
        Some(9),
        Some(10),
        Some(11),
        Some(12),
        Some(3),
        Some(4),
    ];
    let harbors = vec![Harbor::new((24, 25, 5)), Harbor::new((27, 28, 0))];
    GameParameters::standard(resources, harbors, sums)
}

fn game() -> Game {
    let parameters = parameters();
    assert!(parameters.can_build_board());
    Game::new(parameters).unwrap()
}

fn play(game: &mut Game, action: Action) -> Option<Outcome> {
    assert!(game.accepts_action(&action));
    game.take_action(action, None).unwrap()
}

fn snapshot(game: &Game) -> String {
    format!(
        "{:?} {} {} {}",
        game.round,
        game.parameters.robber_seed,
        game.parameters.dev_card_seed,
        game.parameters.dice_seed
    )
}

#[test]
fn standard_parameters_describe_the_standard_game() {
    let parameters = parameters();
    assert!(parameters.is_valid());
    assert_eq!(parameters.n_players, 4);
    assert_eq!(parameters.n_resources, 5);
    assert_eq!(parameters.n_tile_rings, 3);
    assert_eq!(parameters.node_adjacency.len(), 54);
    assert_eq!(parameters.tile_nodes.len(), 19);
    assert_eq!(parameters.edge_map.len(), 72);
    assert_eq!(parameters.node_tiles_adjacency.len(), 54);
    assert_eq!(parameters.node_tiles_adjacency[0], vec![0, 1, 6]);
    assert_eq!(parameters.node_tiles_adjacency[53], vec![18]);
    assert_eq!(parameters.robber_nos, vec![7]);
    assert_eq!(parameters.init_undrawn_dev_cards, vec![5, 14, 2, 2, 2]);
    assert_eq!(parameters.building_costs[0], vec![1, 0, 1, 0, 0]);
    assert_eq!(parameters.building_costs[3], vec![0, 1, 0, 1, 1]);
    assert_eq!(parameters.v_players.len(), 4);
    assert_eq!(parameters.v_players[3].id, 3);
    assert_eq!(parameters.v_players[3].player_type, PlayerType::Random);
    assert_eq!(parameters.id.len(), 36);
    assert_ne!(parameters.id, GameParameters::standard(vec![], vec![], vec![]).id);
}

#[test]
fn parameters_that_do_not_fit_are_told_apart() {
    let mut short = parameters();
    short.init_tile_rng.pop();
    assert!(!short.can_build_board());
    let mut far = parameters();
    far.init_roads = Some(vec![Road { player: 0, nodes: (0, 54) }]);
    assert!(!far.can_build_board());
    let mut crowded = parameters();
    crowded.n_players = 5;
    assert!(!crowded.is_valid());
    let mut empty_deck = parameters();
    empty_deck.init_undrawn_dev_cards = vec![0, 0, 0, 0, 0];
    assert!(!empty_deck.can_build_board());
    let mut ragged = parameters();
    ragged.init_budgets = Some(vec![vec![0; 5], vec![0; 5], vec![0; 4], vec![0; 5]]);
    assert!(!ragged.can_build_board());
}

#[test]
fn fresh_game_stands_at_the_start_of_the_set_up() {
    let game = game();
    assert_eq!(game.round.phase, Phase::SetUp);
    assert_eq!(game.round.active_player, 0);
    assert_eq!(game.round.throwing_player, 0);
    assert_eq!(game.round.phase_count, 0);
    assert_eq!(game.round.action, None);
    assert_eq!(game.round.outcome, None);
    let board = &game.round.board;
    assert_eq!(board.nodes.len(), 54);
    assert_eq!(board.tiles.len(), 19);
    assert_eq!(board.v_robbers, vec![0]);
    assert_eq!(board.roads, None);
    assert_eq!(board.longest_roads, None);
    assert_eq!(board.scores, vec![0, 0, 0, 0]);
    assert_eq!(board.public_scores, vec![0, 0, 0, 0]);
    assert_eq!(board.armies, vec![0, 0, 0, 0]);
    assert_eq!(board.budgets, vec![vec![0; 5]; 4]);
    assert_eq!(board.drawn_dev_cards, vec![vec![0; 5]; 4]);
    assert_eq!(board.dice_outcome, None);
    assert_eq!(board.dice.seed, 42);
    assert_eq!(board.tiles[1].nodes, vec![1, 7, 13, 12, 6, 0]);
    assert_eq!(board.tiles[1].rng, Some(6));
    assert_eq!(board.tiles[1].resource, Some(0));
    assert_eq!(board.tiles[0].rng, None);
    assert_eq!(board.nodes[24].harbor, Some(Harbor::new((24, 25, 5))));
    assert_eq!(board.nodes[28].harbor, Some(Harbor::new((27, 28, 0))));
    assert_eq!(board.nodes[26].harbor, None);
    assert_eq!(board.nodes[7].id, 7);
    assert_eq!(board.nodes[7].neighbors, vec![Some(1), Some(13), Some(14)]);
}

#[test]
fn fresh_game_offers_a_move_for_every_node_and_neighbour() {
    let game = game();
    let actions = game.get_legal_actions();
    assert_eq!(actions.len(), 144);
    assert_eq!(actions[0], Action::SetUpMove(0, 5));
    assert_eq!(actions[1], Action::SetUpMove(0, 1));
    assert_eq!(actions[2], Action::SetUpMove(0, 6));
    assert_eq!(actions[3], Action::SetUpMove(1, 0));
    let mut expected = vec![];
    for node in &game.round.board.nodes {
        for neighbor in node.neighbors.iter().flatten() {
            expected.push(Action::SetUpMove(node.id, *neighbor));
        }
    }
    assert_eq!(actions, expected);
    for action in &actions {
        assert!(game.accepts_action(action));
    }
}

#[test]
fn set_up_runs_as_a_snake_and_ends_with_a_throw() {
    let mut game = game();
    let order = [0u32, 1, 2, 3, 3, 2, 1, 0];
    for (step, player) in order.iter().enumerate() {
        assert_eq!(game.round.phase, Phase::SetUp);
        assert_eq!(game.round.phase_count, step as u32);
        assert_eq!(game.round.active_player, *player);
        let action = game.get_legal_actions()[0].clone();
        assert_eq!(play(&mut game, action.clone()), None);
        assert_eq!(game.round.action, Some(action));
    }
    let sum = game.round.board.dice_outcome.unwrap();
    assert!((2..=12).contains(&sum));
    assert_eq!(game.round.board.dice.draw, Some(sum));
    assert_eq!(game.round.board.dice.seed, 43);
    let expected = if sum == 7 { Phase::RobberDiscard } else { Phase::FirstCardPhase };
    assert_eq!(game.round.phase, expected);
    assert_eq!(game.round.active_player, 0);
    assert_eq!(game.round.throwing_player, 0);
    assert_eq!(game.round.phase_count, 0);
    assert_eq!(game.round.board.scores, vec![2, 2, 2, 2]);
    assert_eq!(game.round.board.longest_roads, Some(vec![1, 1, 1, 1]));
    assert_eq!(game.round.board.roads.as_ref().unwrap().len(), 8);
}

#[test]
fn set_up_placement_settles_and_builds_a_road() {
    let mut game = game();
    play(&mut game, Action::SetUpMove(7, 14));
    let board = &game.round.board;
    assert_eq!(board.nodes[7].node_status, NodeStatus::Settled(0));
    assert_eq!(board.nodes[1].node_status, NodeStatus::Adjacent);
    assert_eq!(board.nodes[13].node_status, NodeStatus::Adjacent);
    assert_eq!(board.nodes[14].node_status, NodeStatus::Adjacent);
    assert_eq!(board.nodes[7].roads, Some(vec![(0, 14)]));
    assert_eq!(board.nodes[14].roads, Some(vec![(0, 7)]));
    assert_eq!(board.roads, Some(vec![Road { player: 0, nodes: (7, 14) }]));
    assert_eq!(board.scores, vec![1, 0, 0, 0]);
    assert_eq!(board.longest_roads, Some(vec![1, 0, 0, 0]));
    assert_eq!(game.round.active_player, 1);
    let offered = game.get_legal_actions();
    assert_eq!(offered.len(), 144 - 3 - 3 - 3 - 3);
    assert!(!offered.contains(&Action::SetUpMove(7, 1)));
    assert!(!offered.contains(&Action::SetUpMove(14, 7)));
    assert!(offered.contains(&Action::SetUpMove(0, 1)));
    play(&mut game, Action::SetUpMove(20, 9));
    assert_eq!(
        game.round.board.roads,
        Some(vec![Road { player: 0, nodes: (7, 14) }, Road { player: 1, nodes: (9, 20) }])
    );
}

#[test]
fn finished_set_up_offers_only_the_end_of_the_round() {
    let mut game = game();
    game.round.phase_count = 8;
    assert_eq!(game.get_legal_actions(), vec![Action::FinishRound]);
    game.round.active_player = 2;
    game.round.throwing_player = 2;
    assert_eq!(play(&mut game, Action::FinishRound), None);
    assert_eq!(game.round.board.dice.seed, 43);
    let sum = game.round.board.dice_outcome.unwrap();
    let expected = if sum == 7 { Phase::RobberDiscard } else { Phase::FirstCardPhase };
    assert_eq!(game.round.phase, expected);
    assert_eq!(game.round.throwing_player, 0);
    assert_eq!(game.round.active_player, 0);
    assert_eq!(game.round.action, Some(Action::FinishRound));
}

#[test]
fn robber_numbers_decide_the_phase_after_a_throw() {
    let mut always = game();
    always.parameters.robber_nos = (2..=12).collect();
    always.round.phase = Phase::SecondCardPhase;
    always.round.board.budgets[1] = vec![1, 0, 0, 0, 0];
    play(&mut always, Action::NoCardPlay);
    assert_eq!(always.round.phase, Phase::RobberDiscard);
    assert_eq!(always.round.throwing_player, 1);
    assert_eq!(always.round.active_player, 1);
    assert_eq!(always.round.board.budgets, vec![vec![0; 5], vec![1, 0, 0, 0, 0], vec![0; 5], vec![0; 5]]);
    let mut never = game();
    never.parameters.robber_nos = vec![];
    never.round.phase = Phase::SecondCardPhase;
    never.round.throwing_player = 3;
    play(&mut never, Action::NoCardPlay);
    assert_eq!(never.round.phase, Phase::FirstCardPhase);
    assert_eq!(never.round.throwing_player, 0);
}

#[test]
fn replay_from_equal_seeds_gives_equal_games() {
    let mut first = game();
    let mut second = game();
    for step in 0usize..400 {
        let offered = first.get_legal_actions();
        assert_eq!(offered, second.get_legal_actions());
        assert!(!offered.is_empty());
        let action = offered[(step * 7 + 3) % offered.len()].clone();
        let left = first.take_action(action.clone(), None);
        let right = second.take_action(action, None);
        assert_eq!(left, right);
        assert_eq!(snapshot(&first), snapshot(&second));
    }
    assert!(first.round.board.dice.seed > 42);
}

#[test]
fn refused_placement_leaves_the_game_as_it_was() {
    let mut game = game();
    play(&mut game, Action::SetUpMove(7, 14));
    game.round.phase = Phase::Building;
    let before = snapshot(&game);
    assert_eq!(
        game.take_action(Action::BuildSettlement(1), None),
        Err(PlacementError::SettlementNextToBuilding)
    );
    assert_eq!(
        game.take_action(Action::BuildSettlement(7), None),
        Err(PlacementError::SettlementOnSettlement)
    );
    assert_eq!(game.take_action(Action::BuildRoad(14, 7), None), Err(PlacementError::RoadOnRoad));
    assert_eq!(
        game.take_action(Action::BuildCity(7), None),
        Err(PlacementError::CityOnOtherPlayer)
    );
    assert_eq!(
        game.take_action(Action::BuildCity(30), None),
        Err(PlacementError::CityWithoutSettlement)
    );
    assert_eq!(
        game.take_action(Action::SetUpMove(40, 40), None),
        Err(PlacementError::RoadOnRoad)
    );
    assert_eq!(
        game.take_action(Action::CardPlay(CardType::RoadsCard(0, 1, 1, 0)), None),
        Err(PlacementError::RoadOnRoad)
    );
    assert_eq!(snapshot(&game), before);
    assert!(!game.accepts_action(&Action::Quit));
    assert!(!game.accepts_action(&Action::BuildRoad(0, 54)));
    assert!(!game.accepts_action(&Action::DiscardCards(vec![0, 0])));
    assert!(!game.accepts_action(&Action::BankTrade(5, 0)));
    assert!(!game.accepts_action(&Action::Robber(1, 0, None)));
    assert!(!game.accepts_action(&Action::Robber(0, 0, Some(4))));
}

#[test]
fn building_costs_what_the_parameters_say() {
    let mut game = game();
    play(&mut game, Action::SetUpMove(7, 14));
    game.round.phase = Phase::Building;
    game.round.active_player = 0;
    game.round.phase_count = 0;
    game.round.board.budgets[0] = vec![3, 3, 3, 4, 3];
    game.round.board.public_budgets[0] = vec![0, 5, 1, 0, 0];
    play(&mut game, Action::BuildRoad(14, 27));
    assert_eq!(game.round.board.budgets[0], vec![2, 3, 2, 4, 3]);
    assert_eq!(game.round.board.public_budgets[0], vec![0, 5, 0, 0, 0]);
    assert_eq!(game.round.phase, Phase::Building);
    assert_eq!(game.round.phase_count, 1);
    assert_eq!(game.round.board.longest_roads, Some(vec![2, 0, 0, 0]));
    play(&mut game, Action::BuildSettlement(27));
    assert_eq!(game.round.board.budgets[0], vec![1, 2, 1, 4, 2]);
    assert_eq!(game.round.board.nodes[27].node_status, NodeStatus::Settled(0));
    assert_eq!(game.round.board.nodes[27].harbor.unwrap().player, Some(0));
    assert_eq!(game.round.board.nodes[28].harbor.unwrap().player, None);
    assert_eq!(game.round.board.scores, vec![2, 0, 0, 0]);
    play(&mut game, Action::BuildCity(7));
    assert_eq!(game.round.board.budgets[0], vec![1, 0, 1, 1, 2]);
    assert_eq!(game.round.board.public_budgets[0], vec![0, 2, 0, 0, 0]);
    assert_eq!(game.round.board.nodes[7].node_status, NodeStatus::Citied(0));
    assert_eq!(game.round.board.scores, vec![3, 0, 0, 0]);
    assert_eq!(game.round.board.public_scores, vec![3, 0, 0, 0]);
    assert_eq!(game.round.phase_count, 3);
}

#[test]
fn bought_card_is_drawn_from_the_deck_by_the_seed() {
    let mut game = game();
    game.round.phase = Phase::Building;
    game.round.board.budgets[0] = vec![0, 1, 0, 1, 1];
    let outcome = play(&mut game, Action::BuyDevCard);
    let kind = match outcome {
        Some(Outcome::DrawCardOutcome(kind)) => kind as usize,
        other => panic!("no card was drawn: {:?}", other),
    };
    assert!(kind < 5);
    let mut expected = vec![0; 5];
    expected[kind] = 1;
    assert_eq!(game.round.board.drawn_dev_cards[0], expected);
    assert_eq!(game.round.board.budgets[0], vec![0; 5]);
    assert_eq!(game.parameters.dev_card_seed, 8889);
    assert_eq!(game.round.card_count, 1);
    assert_eq!(game.round.outcome, outcome);
    assert_eq!(game.round.board.undrawn_dev_cards, vec![5, 14, 2, 2, 2]);
    let mut kinds = [false; 5];
    for seed in 0..300 {
        let mut other = self::game();
        other.round.phase = Phase::Building;
        other.parameters.dev_card_seed = seed;
        if let Some(Outcome::DrawCardOutcome(kind)) = play(&mut other, Action::BuyDevCard) {
            kinds[kind as usize] = true;
        }
    }
    assert_eq!(kinds, [true; 5]);
}

#[test]
fn robber_moves_and_takes_a_card_of_the_victim() {
    let mut game = game();
    game.round.phase = Phase::RobberMove;
    game.round.active_player = 1;
    game.round.throwing_player = 1;
    game.round.board.budgets[2] = vec![0, 0, 3, 0, 0];
    game.round.board.budgets[1] = vec![1, 0, 0, 0, 0];
    let outcome = play(&mut game, Action::Robber(0, 4, Some(2)));
    assert_eq!(outcome, Some(Outcome::RobberOutcome(Some(2))));
    assert_eq!(game.round.board.budgets[2], vec![0, 0, 2, 0, 0]);
    assert_eq!(game.round.board.budgets[1], vec![1, 0, 1, 0, 0]);
    assert_eq!(game.round.board.public_budgets[1], vec![0; 5]);
    assert_eq!(game.round.board.v_robbers, vec![4]);
    assert_eq!(game.round.board.tiles[4].rng, None);
    assert_eq!(game.round.board.tiles[0].rng, None);
    assert_eq!(game.parameters.robber_seed, 4445);
    assert_eq!(game.round.phase, Phase::FirstCardPhase);
    game.round.phase = Phase::RobberMove;
    let nothing = play(&mut game, Action::Robber(0, 1, Some(3)));
    assert_eq!(nothing, Some(Outcome::RobberOutcome(None)));
    assert_eq!(game.round.board.tiles[4].rng, Some(10));
    assert_eq!(game.round.board.tiles[1].rng, None);
    assert_eq!(game.parameters.robber_seed, 4445);
    game.round.phase = Phase::RobberMove;
    assert_eq!(play(&mut game, Action::Robber(0, 2, None)), None);
    assert_eq!(game.round.board.v_robbers, vec![2]);
}

#[test]
fn robber_takes_only_what_the_victim_holds() {
    for seed in 0..200 {
        let mut game = game();
        game.parameters.robber_seed = seed;
        game.round.phase = Phase::RobberMove;
        game.round.board.budgets[3] = vec![0, 2, 0, 5, 1];
        let outcome = play(&mut game, Action::Robber(0, 9, Some(3)));
        let resource = match outcome {
            Some(Outcome::RobberOutcome(Some(resource))) => resource as usize,
            other => panic!("nothing was taken: {:?}", other),
        };
        assert!(resource == 1 || resource == 3 || resource == 4);
        assert_eq!(game.round.board.budgets[0][resource], 1);
        let total: u32 = game.round.board.budgets[3].iter().sum();
        assert_eq!(total, 7);
    }
}

#[test]
fn trades_move_cards_in_the_open() {
    let mut game = game();
    game.round.phase = Phase::TradingQuote;
    game.round.board.budgets[0] = vec![9, 0, 0, 0, 0];
    game.round.board.public_budgets[0] = vec![3, 0, 0, 0, 0];
    play(&mut game, Action::BankTrade(0, 2));
    assert_eq!(game.round.board.budgets[0], vec![5, 0, 1, 0, 0]);
    assert_eq!(game.round.board.public_budgets[0], vec![0, 0, 1, 0, 0]);
    assert_eq!(game.round.phase, Phase::TradingQuote);
    assert_eq!(game.round.phase_count, 4);
    play(&mut game, Action::HarborTrade(0, 0, 4));
    assert_eq!(game.round.board.budgets[0], vec![3, 0, 1, 0, 1]);
    assert_eq!(game.round.phase_count, 8);
    play(&mut game, Action::HarborTrade(5, 0, 4));
    assert_eq!(game.round.board.budgets[0], vec![0, 0, 1, 0, 2]);
    assert_eq!(game.round.board.public_budgets[0], vec![0, 0, 1, 0, 2]);
    play(&mut game, Action::NoTrade);
    assert_eq!(game.round.phase, Phase::Building);
    assert_eq!(game.round.phase_count, 12);
}

#[test]
fn quote_goes_round_the_table_until_it_is_accepted() {
    let mut game = game();
    game.round.phase = Phase::TradingQuote;
    game.round.board.budgets[0] = vec![2, 0, 0, 0, 0];
    game.round.board.budgets[2] = vec![0, 3, 0, 0, 0];
    let quote = Quote {
        quoting_player: 0,
        resource_supplied: 0,
        quantity_supplied: 2,
        resource_demanded: 1,
        quantity_demanded: 3,
    };
    assert!(game.get_legal_actions().contains(&Action::TradeQuote(quote)));
    play(&mut game, Action::TradeQuote(quote));
    assert_eq!(game.round.phase, Phase::TradingResponse);
    assert_eq!(game.round.active_player, 1);
    assert_eq!(game.get_legal_actions(), vec![Action::TradeResponse(1, false)]);
    let refused = play(&mut game, Action::TradeResponse(1, false));
    assert_eq!(refused, Some(Outcome::TradeOutcome(1, false)));
    assert_eq!(game.round.action, Some(Action::TradeQuote(quote)));
    assert_eq!(game.round.active_player, 2);
    assert_eq!(
        game.get_legal_actions(),
        vec![Action::TradeResponse(2, false), Action::TradeResponse(2, true)]
    );
    let accepted = play(&mut game, Action::TradeResponse(2, true));
    assert_eq!(accepted, Some(Outcome::TradeOutcome(2, true)));
    assert_eq!(game.round.board.budgets[0], vec![0, 3, 0, 0, 0]);
    assert_eq!(game.round.board.budgets[2], vec![2, 0, 0, 0, 0]);
    assert_eq!(game.round.board.public_budgets[0], vec![0, 3, 0, 0, 0]);
    assert_eq!(game.round.board.public_budgets[2], vec![2, 0, 0, 0, 0]);
    assert_eq!(game.round.phase, Phase::TradingQuote);
    assert_eq!(game.round.active_player, 0);
    assert_eq!(game.round.phase_count, 4);
}

#[test]
fn cards_take_effect_when_played() {
    let mut game = game();
    game.round.phase = Phase::FirstCardPhase;
    game.round.board.drawn_dev_cards[0] = vec![1, 1, 1, 1, 1];
    game.round.board.budgets = vec![vec![1, 1, 0, 0, 0], vec![2, 0, 0, 0, 7], vec![0; 5], vec![4, 0, 0, 0, 0]];
    game.round.board.public_budgets = vec![vec![0; 5], vec![1, 0, 0, 0, 0], vec![0; 5], vec![9, 0, 0, 0, 0]];
    play(&mut game, Action::CardPlay(CardType::MonopolyCard(0)));
    assert_eq!(
        game.round.board.budgets,
        vec![vec![7, 1, 0, 0, 0], vec![0, 0, 0, 0, 7], vec![0; 5], vec![0; 5]]
    );
    assert_eq!(
        game.round.board.public_budgets,
        vec![vec![6, 0, 0, 0, 0], vec![0; 5], vec![0; 5], vec![0; 5]]
    );
    assert_eq!(game.round.board.public_dev_cards[0], vec![0, 0, 0, 0, 1]);
    assert_eq!(game.round.cards_played, 1);
    assert_eq!(game.round.card_count, 1);
    assert_eq!(game.round.phase, Phase::FirstCardPhase);
    assert_eq!(game.get_legal_actions(), vec![Action::NoCardPlay]);
    play(&mut game, Action::CardPlay(CardType::PlentyCard(3, 3)));
    assert_eq!(game.round.board.budgets[0], vec![7, 1, 0, 2, 0]);
    assert_eq!(game.round.board.public_budgets[0], vec![6, 0, 0, 2, 0]);
    assert_eq!(game.round.board.total_drawn_resources[0], vec![0, 0, 0, 2, 0]);
    play(&mut game, Action::CardPlay(CardType::VPCard));
    assert_eq!(game.round.board.public_dev_cards[0], vec![1, 0, 0, 1, 1]);
    assert_eq!(game.round.board.scores, vec![1, 0, 0, 0]);
    assert_eq!(game.round.board.public_scores, vec![1, 0, 0, 0]);
    play(&mut game, Action::CardPlay(CardType::RoadsCard(0, 1, 1, 2)));
    assert_eq!(
        game.round.board.roads,
        Some(vec![Road { player: 0, nodes: (0, 1) }, Road { player: 0, nodes: (1, 2) }])
    );
    assert_eq!(game.round.board.longest_roads, Some(vec![2, 0, 0, 0]));
    let robbed = play(&mut game, Action::CardPlay(CardType::KnightCard(0, 3, Some(1))));
    assert_eq!(robbed, Some(Outcome::RobberOutcome(Some(4))));
    assert_eq!(game.round.board.budgets[1], vec![0, 0, 0, 0, 6]);
    assert_eq!(game.round.board.budgets[0], vec![7, 1, 0, 2, 1]);
    assert_eq!(game.round.board.v_robbers, vec![3]);
    assert_eq!(game.round.board.public_dev_cards[0], vec![1, 1, 1, 1, 1]);
    assert_eq!(game.round.cards_played, 5);
    assert_eq!(game.round.phase, Phase::FirstCardPhase);
    play(&mut game, Action::NoCardPlay);
    assert_eq!(game.round.phase, Phase::TradingQuote);
}

#[test]
fn card_in_the_second_card_phase_ends_the_round() {
    let mut game = game();
    game.round.phase = Phase::SecondCardPhase;
    game.round.board.drawn_dev_cards[0] = vec![0, 1, 0, 0, 0];
    game.round.cards_played = 0;
    play(&mut game, Action::CardPlay(CardType::KnightCard(0, 3, None)));
    assert_eq!(game.round.board.dice.seed, 43);
    assert!(game.round.board.dice_outcome.is_some());
    assert_eq!(game.round.throwing_player, 1);
    assert_eq!(game.round.active_player, 1);
    assert_eq!(game.round.cards_played, 0);
    assert_eq!(game.round.card_count, 0);
    assert!(game.round.phase == Phase::FirstCardPhase || game.round.phase == Phase::RobberDiscard);
}

#[test]
fn discards_are_paid_in_the_open_and_pass_round_the_table() {
    let mut game = game();
    game.round.phase = Phase::RobberDiscard;
    game.round.active_player = 2;
    game.round.throwing_player = 2;
    game.round.board.budgets[2] = vec![4, 4, 0, 0, 1];
    game.round.board.public_budgets[2] = vec![1, 9, 0, 0, 0];
    play(&mut game, Action::DiscardCards(vec![2, 2, 0, 0, 0]));
    assert_eq!(game.round.board.budgets[2], vec![2, 2, 0, 0, 1]);
    assert_eq!(game.round.board.public_budgets[2], vec![0, 7, 0, 0, 0]);
    assert_eq!(game.round.active_player, 3);
    assert_eq!(game.round.phase, Phase::RobberDiscard);
    assert_eq!(game.get_legal_actions(), vec![Action::NoDiscard]);
    play(&mut game, Action::NoDiscard);
    assert_eq!(game.round.active_player, 0);
    play(&mut game, Action::NoDiscard);
    assert_eq!(game.round.active_player, 1);
    assert_eq!(game.round.phase_count, 3);
    play(&mut game, Action::NoDiscard);
    assert_eq!(game.round.phase, Phase::RobberDiscard);
    assert_eq!(game.round.active_player, 2);
    assert_eq!(game.round.phase_count, 4);
    play(&mut game, Action::NoDiscard);
    assert_eq!(game.round.phase, Phase::RobberMove);
    assert_eq!(game.round.active_player, 2);
    assert_eq!(game.round.phase_count, 0);
}

#[test]
fn tiles_that_show_the_sum_produce_for_their_buildings() {
    let mut game = game();
    play(&mut game, Action::SetUpMove(0, 1));
    play(&mut game, Action::SetUpMove(13, 12));
    game.round.board.nodes[13].node_status = NodeStatus::Citied(1);
    game.round.board.dice_outcome = Some(6);
    game.produce_resources();
    assert_eq!(game.round.board.budgets[0], vec![1, 0, 0, 0, 0]);
    assert_eq!(game.round.board.budgets[1], vec![2, 0, 0, 0, 0]);
    assert_eq!(game.round.board.total_drawn_resources[1], vec![2, 0, 0, 0, 0]);
    assert_eq!(game.round.board.public_budgets, vec![vec![0; 5]; 4]);
    game.round.board.dice_outcome = Some(2);
    game.produce_resources();
    assert_eq!(game.round.board.budgets[1], vec![2, 2, 0, 0, 0]);
    assert_eq!(game.round.board.budgets[0], vec![1, 0, 0, 0, 0]);
    game.round.board.tiles[1].rng = None;
    game.round.board.dice_outcome = Some(6);
    game.produce_resources();
    assert_eq!(game.round.board.budgets[0], vec![1, 0, 0, 0, 0]);
    game.round.board.dice_outcome = Some(7);
    game.produce_resources();
    assert_eq!(game.round.board.budgets[1], vec![2, 2, 0, 0, 0]);
}

#[test]
fn human_player_may_always_save_or_quit() {
    let mut game = game();
    game.parameters.v_players[0].player_type = PlayerType::Human;
    let offered = game.get_legal_actions();
    assert_eq!(offered.len(), 146);
    assert_eq!(offered[144], Action::Save);
    assert_eq!(offered[145], Action::Quit);
    game.round.phase = Phase::Terminal;
    assert_eq!(game.get_legal_actions(), vec![Action::Save, Action::Quit]);
    let before = snapshot(&game);
    assert_eq!(play(&mut game, Action::Save), None);
    assert_eq!(game.round.action, Some(Action::Save));
    game.round.action = None;
    assert_eq!(snapshot(&game), before);
    game.round.active_player = 1;
    assert_eq!(game.get_legal_actions(), vec![]);
}

#[test]
fn longest_road_award_is_counted_and_passed_on() {
    let mut parameters = parameters();
    parameters.init_roads = Some(vec![
        Road { player: 0, nodes: (0, 1) },
        Road { player: 0, nodes: (1, 2) },
        Road { player: 0, nodes: (2, 3) },
        Road { player: 0, nodes: (3, 4) },
        Road { player: 1, nodes: (24, 25) },
        Road { player: 1, nodes: (25, 26) },
        Road { player: 1, nodes: (26, 27) },
        Road { player: 1, nodes: (27, 28) },
    ]);
    assert!(parameters.can_build_board());
    let mut game = Game::new(parameters).unwrap();
    game.round.phase = Phase::FirstCardPhase;
    assert_eq!(game.round.board.longest_roads, Some(vec![4, 4, 0, 0]));
    assert_eq!(game.round.board.prev_longest_road, None);
    game.round.board.drawn_dev_cards[0][2] = 1;
    play(&mut game, Action::CardPlay(CardType::RoadsCard(4, 5, 0, 6)));
    assert_eq!(game.round.board.longest_roads, Some(vec![6, 4, 0, 0]));
    assert_eq!(game.round.board.scores, vec![2, 0, 0, 0]);
    assert_eq!(game.round.board.prev_longest_road, Some((0, 6)));
    game.round.active_player = 1;
    game.round.cards_played = 0;
    game.round.board.drawn_dev_cards[1][2] = 2;
    play(&mut game, Action::CardPlay(CardType::RoadsCard(28, 29, 29, 30)));
    assert_eq!(game.round.board.longest_roads, Some(vec![6, 6, 0, 0]));
    assert_eq!(game.round.board.scores, vec![2, 0, 0, 0]);
    assert_eq!(game.round.board.prev_longest_road, Some((0, 6)));
    play(&mut game, Action::CardPlay(CardType::RoadsCard(30, 31, 24, 47)));
    assert_eq!(game.round.board.longest_roads, Some(vec![6, 8, 0, 0]));
    assert_eq!(game.round.board.scores, vec![0, 2, 0, 0]);
    assert_eq!(game.round.board.prev_longest_road, Some((1, 8)));
}

#[test]
fn game_is_won_with_the_winning_points() {
    let mut game = game();
    assert!(!game.is_won());
    game.round.active_player = 2;
    game.round.board.scores = vec![10, 11, 9, 12];
    assert!(!game.is_won());
    game.round.board.scores[2] = 10;
    assert!(game.is_won());
    game.round.active_player = 0;
    assert!(game.is_won());
}
