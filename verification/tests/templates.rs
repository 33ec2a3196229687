use catan_cli::backend::round::phase::Phase;
use catan_cli::backend::setup::city::City;
use catan_cli::backend::setup::game::Game;
use catan_cli::backend::setup::game_parameters::GameParameters;
use catan_cli::backend::setup::harbor::Harbor;
use catan_cli::backend::setup::road::Road;
use catan_cli::backend::setup::settlement::Settlement;

fn layout() -> GameParameters {
    let mut resources = vec![None];
    let mut sums = vec![None];
    for tile in 0u32..18 {
        resources.push(Some(tile % 5));
        sums.push(Some(if tile % 10 < 5 { 2 + tile % 10 } else { 3 + tile % 10 }));
    }
    let harbors = vec![Harbor::new((40, 41, 5)), Harbor::new((52, 53, 2))];
    GameParameters::standard(resources, harbors, sums)
}

fn settled(own_roads: Vec<(u32, u32)>) -> GameParameters {
    let mut parameters = layout();
    let sites = [(36u32, 0u32), (39, 0), (42, 1), (45, 1), (48, 2), (51, 2), (3, 3), (20, 3)];
    parameters.init_settlements = Some(
        sites
            .iter()
            .map(|(node_id, player_id)| Settlement {
                name: None,
                node_id: *node_id,
                player_id: *player_id,
            })
            .collect(),
    );
    let mut roads: Vec<Road> =
        own_roads.iter().map(|nodes| Road { player: 0, nodes: *nodes }).collect();
    roads.push(Road { player: 1, nodes: (42, 43) });
    roads.push(Road { player: 2, nodes: (48, 49) });
    roads.push(Road { player: 3, nodes: (3, 4) });
    parameters.init_roads = Some(roads);
    parameters
}

fn start(parameters: GameParameters) -> Game {
    assert!(parameters.can_build_board());
    match Game::new(parameters) {
        Ok(mut game) => {
            game.round.phase = Phase::FirstCardPhase;
            game
        },
        Err(error) => panic!("{}", error.message()),
    }
}

#[test]
#[should_panic(expected = "Cannot place a road on top of another road.")]
fn test_double_road() {
    let parameters = settled(vec![(36, 37), (37, 25), (37, 36)]);
    let _beginner_game = start(parameters);
}

#[test]
#[should_panic(expected = "Cannot place a new settlement on top of an existing settlement.")]
fn test_double_settlement() {
    let mut parameters = settled(vec![(36, 37)]);
    let mut settlements = parameters.init_settlements.take().unwrap();
    settlements.push(Settlement { name: None, node_id: 48, player_id: 0 });
    parameters.init_settlements = Some(settlements);
    let _beginner_game = start(parameters);
}

#[test]
#[should_panic(expected = "Please build a settlement first, before upgrading to a city.")]
fn test_city_no_settlement() {
    let mut parameters = settled(vec![(36, 37)]);
    parameters.init_cities = Some(vec![City { name: None, node_id: 15, player_id: 0 }]);
    let _beginner_game = start(parameters);
}

#[test]
#[should_panic(expected = "Cannot place a settlement directly adjacent to another settlement or city.")]
fn test_too_close_settlements() {
    let mut parameters = settled(vec![(36, 37)]);
    let mut settlements = parameters.init_settlements.take().unwrap();
    settlements.push(Settlement { name: None, node_id: 37, player_id: 1 });
    parameters.init_settlements = Some(settlements);
    let _beginner_game = start(parameters);
}

#[test]
fn test_longest_road() {
    let beginner_game = start(settled(vec![(36, 37), (37, 25), (25, 38), (38, 26), (26, 39)]));
    assert_eq!(beginner_game.round.board.scores, vec![4, 2, 2, 2]);
    assert_eq!(beginner_game.round.board.longest_roads, Some(vec![5, 1, 1, 1]));
}

#[test]
fn test_round_road() {
    let beginner_game = start(settled(vec![(1, 7), (7, 13), (13, 12), (12, 6), (6, 0), (0, 1)]));
    assert_eq!(beginner_game.round.board.scores, vec![4, 2, 2, 2]);
    assert_eq!(beginner_game.round.board.longest_roads, Some(vec![6, 1, 1, 1]));
}

#[test]
fn test_forked_road() {
    let beginner_game = start(settled(vec![
        (36, 37),
        (37, 25),
        (25, 38),
        (38, 26),
        (26, 39),
        (39, 40),
        (25, 13),
    ]));
    assert_eq!(beginner_game.round.board.scores, vec![4, 2, 2, 2]);
    assert_eq!(beginner_game.round.board.longest_roads, Some(vec![6, 1, 1, 1]));
}

#[test]
fn settled_start_has_cities_budgets_and_awards_of_the_parameters() {
    let mut parameters = settled(vec![(36, 37)]);
    parameters.init_cities = Some(vec![City {
        name: Some("Hafen".to_string()),
        node_id: 51,
        player_id: 2,
    }]);
    parameters.init_budgets = Some(vec![vec![1, 2, 3, 4, 5]; 4]);
    parameters.init_public_dev_cards = Some(vec![
        vec![0, 3, 0, 0, 0],
        vec![1, 3, 0, 0, 0],
        vec![0, 0, 0, 0, 0],
        vec![0, 1, 0, 0, 0],
    ]);
    parameters.init_drawn_dev_cards = Some(vec![vec![2, 3, 0, 0, 0]; 4]);
    parameters.init_largest_army = Some((1, 3));
    parameters.init_v_robber = Some(vec![4, 9]);
    parameters.init_player = 3;
    let game = start(parameters);
    let board = &game.round.board;
    assert_eq!(board.armies, vec![3, 3, 0, 1]);
    assert_eq!(board.prev_largest_army, Some((1, 3)));
    assert_eq!(board.scores, vec![4, 6, 5, 4]);
    assert_eq!(board.public_scores, vec![2, 5, 3, 2]);
    assert_eq!(board.budgets, vec![vec![1, 2, 3, 4, 5]; 4]);
    assert_eq!(board.public_budgets, vec![vec![0; 5]; 4]);
    assert_eq!(board.v_robbers, vec![4, 9]);
    assert_eq!(board.nodes[51].city.as_ref().unwrap().name, Some("Hafen".to_string()));
    assert_eq!(game.round.active_player, 3);
    assert_eq!(game.round.throwing_player, 3);
    assert_eq!(board.longest_roads, Some(vec![1, 1, 1, 1]));
    assert_eq!(board.prev_longest_road, None);
}
