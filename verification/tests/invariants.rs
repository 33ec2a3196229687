use catan_cli::backend::round::action::Action;
use catan_cli::backend::round::phase::Phase;
use catan_cli::backend::setup::game::Game;
use catan_cli::backend::setup::game_parameters::GameParameters;
use catan_cli::backend::setup::harbor::Harbor;
use catan_cli::backend::setup::node::Node;
use catan_cli::backend::setup::node_status::NodeStatus;

fn walk_parameters(seed: u64) -> GameParameters {
    let mut resources = vec![None];
    let mut sums = vec![None];
    for tile in 1..19u32 {
        resources.push(Some(tile % 5));
        sums.push(Some(2 + (tile * 7) % 11));
    }
    let harbors = vec![Harbor::new((24, 25, 5)), Harbor::new((27, 28, 0)), Harbor::new((30, 31, 2))];
    let mut parameters = GameParameters::standard(resources, harbors, sums);
    parameters.dice_seed = seed;
    parameters.robber_seed = seed.wrapping_mul(3);
    parameters.dev_card_seed = seed.wrapping_mul(5);
    parameters
}

fn rank(status: &NodeStatus) -> u32 {
    match status {
        NodeStatus::Free => 0,
        NodeStatus::Adjacent => 1,
        NodeStatus::Settled(_) => 2,
        NodeStatus::Citied(_) => 3,
    }
}

fn built(status: &NodeStatus) -> bool {
    rank(status) >= 2
}

fn check_nodes(before: &[Node], after: &[Node]) {
    assert_eq!(before.len(), after.len());
    for (old, new) in before.iter().zip(after.iter()) {
        assert!(rank(&new.node_status) >= rank(&old.node_status), "node {} moved back", new.id);
        assert_eq!(old.neighbors, new.neighbors);
    }
    for node in after {
        if let Some(roads) = &node.roads {
            for (j, first) in roads.iter().enumerate() {
                for second in roads.iter().skip(j + 1) {
                    assert_ne!(first.1, second.1, "two roads join node {} and {}", node.id, first.1);
                }
                let far = &after[first.1 as usize];
                let back = far.roads.as_ref().expect("the far end lists no road");
                assert!(back.contains(&(first.0, node.id)));
            }
        }
        if built(&node.node_status) {
            for neighbor in node.neighbors.iter().flatten() {
                let other = &after[*neighbor as usize].node_status;
                assert_eq!(*other, NodeStatus::Adjacent, "node {} stands next to {}", neighbor, node.id);
            }
        }
    }
}

fn walk(seed: u64, steps: usize) -> Game {
    let parameters = walk_parameters(seed);
    assert!(parameters.can_build_board());
    let mut game = Game::new(parameters).unwrap();
    let mut state = seed.wrapping_mul(6364136223846793005).wrapping_add(1442695040888963407);
    let mut phases = vec![];
    for _ in 0..steps {
        let actions = game.get_legal_actions();
        assert!(!actions.is_empty());
        for action in &actions {
            assert!(game.accepts_action(action));
        }
        state = state.wrapping_mul(6364136223846793005).wrapping_add(1442695040888963407);
        let pick = ((state >> 33) as usize) % actions.len();
        let action = actions[pick].clone();
        let before = game.round.board.nodes.clone();
        let players = game.parameters.n_players;
        if !phases.contains(&game.round.phase) {
            phases.push(game.round.phase);
        }
        let outcome = game.take_action(action.clone(), None);
        assert!(outcome.is_ok(), "{:?} was offered and refused: {:?}", action, outcome);
        check_nodes(&before, &game.round.board.nodes);
        assert!(game.round.active_player < players);
        assert!(game.round.throwing_player < players);
        assert_eq!(game.round.board.budgets.len(), players as usize);
        assert_eq!(game.round.board.scores.len(), players as usize);
        assert_ne!(game.round.phase, Phase::Terminal);
    }
    assert!(phases.contains(&Phase::SetUp));
    assert!(phases.contains(&Phase::FirstCardPhase));
    assert!(phases.contains(&Phase::TradingQuote));
    assert!(phases.contains(&Phase::Building));
    assert!(phases.contains(&Phase::SecondCardPhase));
    game
}

#[test]
fn long_game_keeps_the_board_in_order() {
    let game = walk(7, 1500);
    let settled = game.round.board.nodes.iter().filter(|node| built(&node.node_status)).count();
    assert!(settled >= 8);
}

#[test]
fn games_from_other_seeds_keep_the_board_in_order() {
    for seed in [1u64, 2, 3, 11, 1234567] {
        walk(seed, 400);
    }
}

#[test]
fn games_from_one_seed_run_alike() {
    let first = walk(99, 600);
    let second = walk(99, 600);
    assert_eq!(format!("{:?}", first.round), format!("{:?}", second.round));
    assert_eq!(first.parameters.dice_seed, second.parameters.dice_seed);
    assert_eq!(first.parameters.robber_seed, second.parameters.robber_seed);
    assert_eq!(first.parameters.dev_card_seed, second.parameters.dev_card_seed);
    let other = walk(100, 600);
    assert_ne!(format!("{:?}", first.round.board.dice), format!("{:?}", other.round.board.dice));
}

#[test]
fn every_offered_action_is_carried_out() {
    let mut game = walk(5, 300);
    let actions: Vec<Action> = game.get_legal_actions();
    let position = format!("{:?}", game.round);
    for action in actions {
        let mut copy = Game { parameters: game.parameters.clone(), round: game.round.clone() };
        assert!(copy.take_action(action, None).is_ok());
    }
    assert_eq!(position, format!("{:?}", game.round));
    game.round.phase = Phase::Terminal;
    assert!(game.get_legal_actions().is_empty());
}
