use catan_cli::backend::round::action::{Action, Quote};
use catan_cli::backend::round::cards::CardType;
use catan_cli::backend::round::legal::{
    enumerate_discards, find_city_sites, find_settlement_sites, find_setup_pairs,
    get_legal_roads, get_legal_robber_moves,
};
use catan_cli::backend::round::phase::Phase;
use catan_cli::backend::setup::game::Game;
use catan_cli::backend::setup::game_parameters::GameParameters;
use catan_cli::backend::setup::harbor::Harbor;
use catan_cli::backend::setup::node_status::NodeStatus;

fn game() -> Game {
    let mut resources = vec![None];
    let mut sums = vec![None];
    for tile in 0u32..18 {
        resources.push(Some(tile % 5));
        sums.push(Some(if tile % 10 < 5 { 2 + tile % 10 } else { 3 + tile % 10 }));
    }
    let harbors = vec![Harbor::new((40, 41, 5)), Harbor::new((52, 53, 2))];
    let parameters = GameParameters::standard(resources, harbors, sums);
    assert!(parameters.can_build_board());
    Game::new(parameters).unwrap()
}

fn settled() -> Game {
    let mut game = game();
    for (node, end) in [(0, 1), (20, 21), (41, 27), (52, 51)] {
        assert!(game.take_action(Action::SetUpMove(node, end), None).is_ok());
    }
    game.round.active_player = 0;
    game.round.throwing_player = 0;
    game.round.phase_count = 0;
    game
}

#[test]
fn discards_are_the_hands_of_half_the_cards() {
    assert_eq!(enumerate_discards(&vec![]), vec![Vec::<u32>::new()]);
    assert_eq!(enumerate_discards(&vec![5]), vec![vec![2]]);
    assert_eq!(enumerate_discards(&vec![2, 2]), vec![vec![0, 2], vec![1, 1], vec![2, 0]]);
    assert_eq!(
        enumerate_discards(&vec![1, 0, 3]),
        vec![vec![0, 0, 2], vec![1, 0, 1]]
    );
    let hands = enumerate_discards(&vec![2, 3, 1, 1, 1]);
    assert_eq!(hands.len(), 22);
    for hand in &hands {
        assert_eq!(hand.iter().sum::<u32>(), 4);
        assert!(hand[0] <= 2 && hand[1] <= 3 && hand[2] <= 1 && hand[3] <= 1 && hand[4] <= 1);
    }
    for (i, a) in hands.iter().enumerate() {
        for b in hands.iter().skip(i + 1) {
            assert_ne!(a, b);
        }
    }
}

#[test]
fn rich_player_must_discard() {
    let mut game = settled();
    game.round.phase = Phase::RobberDiscard;
    game.round.board.budgets[0] = vec![7, 0, 0, 0, 0];
    assert_eq!(game.get_legal_actions(), vec![Action::NoDiscard]);
    game.round.board.budgets[0] = vec![7, 1, 0, 0, 0];
    assert_eq!(
        game.get_legal_actions(),
        vec![Action::DiscardCards(vec![3, 1, 0, 0, 0]), Action::DiscardCards(vec![4, 0, 0, 0, 0])]
    );
}

#[test]
fn robber_may_move_to_any_tile_with_a_sum_and_no_robber() {
    let mut game = settled();
    game.round.phase = Phase::RobberMove;
    let moves = get_legal_robber_moves(&game.round.board, 0);
    assert_eq!(moves.len(), 18);
    assert_eq!(moves[0], (0, 1, None));
    assert!(moves.contains(&(0, 5, Some(1))));
    assert!(moves.contains(&(0, 10, Some(2))));
    assert!(moves.contains(&(0, 17, Some(3))));
    assert!(moves.contains(&(0, 12, None)));
    assert!(moves.contains(&(0, 18, None)));
    assert!(!moves.iter().any(|m| m.1 == 0));
    assert!(!moves.iter().any(|m| m.2 == Some(0)));
    let actions = game.get_legal_actions();
    assert_eq!(actions.len(), 18);
    assert_eq!(actions[0], Action::Robber(0, 1, None));
    for action in &actions {
        assert!(game.accepts_action(action));
    }
    game.round.board.v_robbers = vec![0, 5];
    game.round.board.tiles[5].rng = None;
    game.round.board.nodes[21].node_status = NodeStatus::Citied(2);
    let more = get_legal_robber_moves(&game.round.board, 0);
    assert!(!more.iter().any(|m| m.1 == 5 || m.1 == 0));
    assert!(more.contains(&(1, 1, None)));
    let crowded: Vec<_> = more.iter().filter(|m| m.1 == 15).collect();
    assert_eq!(
        crowded,
        vec![&(0, 15, Some(2)), &(0, 15, Some(1)), &(1, 15, Some(2)), &(1, 15, Some(1))]
    );
    game.round.board.v_robbers = vec![];
    assert_eq!(get_legal_robber_moves(&game.round.board, 0), vec![]);
}

#[test]
fn roads_start_where_the_player_stands() {
    let game = settled();
    let nodes = &game.round.board.nodes;
    assert_eq!(get_legal_roads(nodes, 0), vec![(0, 5), (0, 6), (1, 2), (1, 7)]);
    assert_eq!(get_legal_roads(nodes, 1), vec![(20, 10), (20, 32), (21, 11), (21, 33)]);
    assert_eq!(get_legal_roads(nodes, 2), vec![(27, 15), (27, 40), (41, 28)]);
    assert_eq!(get_legal_roads(nodes, 3), vec![(51, 34), (52, 35)]);
    assert_eq!(get_legal_roads(nodes, 4), vec![]);
    assert_eq!(find_city_sites(nodes, 2), vec![41]);
    assert_eq!(find_settlement_sites(nodes, 0), vec![]);
    assert_eq!(find_setup_pairs(nodes).len(), 105);
}

#[test]
fn building_needs_the_price_and_a_place() {
    let mut game = settled();
    game.round.phase = Phase::Building;
    assert_eq!(game.get_legal_actions(), vec![Action::NoBuying]);
    game.round.board.budgets[0] = vec![1, 0, 1, 0, 0];
    assert_eq!(
        game.get_legal_actions(),
        vec![
            Action::NoBuying,
            Action::BuildRoad(0, 5),
            Action::BuildRoad(0, 6),
            Action::BuildRoad(1, 2),
            Action::BuildRoad(1, 7),
        ]
    );
    assert!(game.take_action(Action::BuildRoad(1, 2), None).is_ok());
    assert!(game.take_action(Action::NoBuying, None).is_ok());
    game.round.phase = Phase::Building;
    game.round.board.budgets[0] = vec![1, 2, 1, 3, 1];
    game.round.board.nodes[2].node_status = NodeStatus::Free;
    assert_eq!(
        game.get_legal_actions(),
        vec![
            Action::NoBuying,
            Action::BuildRoad(0, 5),
            Action::BuildRoad(0, 6),
            Action::BuildRoad(1, 7),
            Action::BuildRoad(2, 3),
            Action::BuildRoad(2, 8),
            Action::BuildSettlement(2),
            Action::BuildCity(0),
            Action::BuyDevCard,
        ]
    );
    for action in game.get_legal_actions() {
        assert!(game.accepts_action(&action));
    }
}

#[test]
fn trading_offers_bank_quotes_and_harbors() {
    let mut game = settled();
    game.round.phase = Phase::TradingQuote;
    let poor = game.get_legal_actions();
    assert_eq!(poor.len(), 1 + 5 * 3 * 5);
    assert_eq!(poor[0], Action::NoTrade);
    assert_eq!(
        poor[1],
        Action::TradeQuote(Quote {
            quoting_player: 0,
            resource_supplied: 0,
            quantity_supplied: 0,
            resource_demanded: 0,
            quantity_demanded: 1,
        })
    );
    game.round.active_player = 2;
    game.round.board.budgets[2] = vec![4, 3, 0, 2, 0];
    let offered = game.get_legal_actions();
    let banks: Vec<_> = offered.iter().filter(|a| matches!(a, Action::BankTrade(_, _))).collect();
    assert_eq!(
        banks,
        vec![
            &Action::BankTrade(0, 0),
            &Action::BankTrade(0, 1),
            &Action::BankTrade(0, 2),
            &Action::BankTrade(0, 3),
            &Action::BankTrade(0, 4),
        ]
    );
    let quotes = offered.iter().filter(|a| matches!(a, Action::TradeQuote(_))).count();
    assert_eq!(quotes, (4 + 4 + 1 + 3 + 1) * 3 * 5);
    let harbors: Vec<_> =
        offered.iter().filter(|a| matches!(a, Action::HarborTrade(_, _, _))).collect();
    assert_eq!(harbors.len(), 10);
    assert_eq!(harbors[0], &Action::HarborTrade(5, 0, 0));
    assert_eq!(harbors[5], &Action::HarborTrade(5, 1, 0));
    game.round.active_player = 3;
    game.round.board.budgets[3] = vec![0, 0, 2, 3, 0];
    let special: Vec<_> = game
        .get_legal_actions()
        .into_iter()
        .filter(|a| matches!(a, Action::HarborTrade(_, _, _)))
        .collect();
    assert_eq!(
        special,
        vec![
            Action::HarborTrade(2, 2, 0),
            Action::HarborTrade(2, 2, 1),
            Action::HarborTrade(2, 2, 2),
            Action::HarborTrade(2, 2, 3),
            Action::HarborTrade(2, 2, 4),
        ]
    );
    for action in game.get_legal_actions() {
        assert!(game.accepts_action(&action));
    }
}

#[test]
fn cards_in_hand_can_be_played_once_a_round() {
    let mut game = settled();
    game.round.phase = Phase::FirstCardPhase;
    assert_eq!(game.get_legal_actions(), vec![Action::NoCardPlay]);
    game.round.board.drawn_dev_cards[0] = vec![1, 0, 0, 0, 2];
    game.round.board.public_dev_cards[0] = vec![1, 0, 0, 0, 1];
    assert_eq!(
        game.get_legal_actions(),
        vec![
            Action::NoCardPlay,
            Action::CardPlay(CardType::MonopolyCard(0)),
            Action::CardPlay(CardType::MonopolyCard(1)),
            Action::CardPlay(CardType::MonopolyCard(2)),
            Action::CardPlay(CardType::MonopolyCard(3)),
            Action::CardPlay(CardType::MonopolyCard(4)),
        ]
    );
    game.round.board.drawn_dev_cards[0] = vec![1, 1, 1, 1, 0];
    game.round.board.public_dev_cards[0] = vec![0; 5];
    let offered = game.get_legal_actions();
    assert_eq!(offered.len(), 1 + 1 + 18 + 4 * 3 + 25);
    assert_eq!(offered[1], Action::CardPlay(CardType::VPCard));
    assert_eq!(offered[2], Action::CardPlay(CardType::KnightCard(0, 1, None)));
    assert_eq!(offered[20], Action::CardPlay(CardType::RoadsCard(0, 5, 0, 6)));
    assert_eq!(offered[32], Action::CardPlay(CardType::PlentyCard(0, 0)));
    assert_eq!(offered[56], Action::CardPlay(CardType::PlentyCard(4, 4)));
    for action in &offered {
        assert!(game.accepts_action(action));
        let mut copy = game.clone();
        assert!(copy.take_action(action.clone(), None).is_ok());
    }
    game.round.cards_played = 1;
    assert_eq!(game.get_legal_actions(), vec![Action::NoCardPlay]);
    game.round.phase = Phase::SecondCardPhase;
    game.round.cards_played = 0;
    assert_eq!(game.get_legal_actions().len(), 57);
}

#[test]
fn every_offered_action_can_be_taken() {
    let mut game = game();
    for step in 0usize..600 {
        let offered = game.get_legal_actions();
        for action in &offered {
            assert!(game.accepts_action(action));
        }
        let action = offered[(step * 13 + 5) % offered.len()].clone();
        assert!(game.take_action(action, None).is_ok());
        assert_eq!(game.round.board.scores.len(), 4);
        assert!(game.round.active_player < 4);
        assert!(game.round.throwing_player < 4);
    }
}
