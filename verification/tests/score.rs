use catan_cli::backend::round::action::award_holder;
use catan_cli::backend::round::score::{
    check_largest_army, check_longest_road, count_cities, count_settlements, count_vp_cards,
    get_public_score, get_score,
};
use catan_cli::backend::setup::city::City;
use catan_cli::backend::setup::node::Node;
use catan_cli::backend::setup::node_status::NodeStatus;
use catan_cli::backend::setup::settlement::Settlement;

fn bare(id: u32) -> Node {
    Node {
        id,
        node_status: NodeStatus::Free,
        neighbors: vec![],
        roads: None,
        harbor: None,
        settlement: None,
        city: None,
        coords_conc: None,
    }
}

fn settled(id: u32, player: u32) -> Node {
    let mut node = bare(id);
    node.node_status = NodeStatus::Settled(player);
    node.settlement = Some(Settlement { name: None, node_id: id, player_id: player });
    node
}

fn citied(id: u32, player: u32) -> Node {
    let mut node = settled(id, player);
    node.node_status = NodeStatus::Citied(player);
    node.city = Some(City { name: Some("Port".to_string()), node_id: id, player_id: player });
    node
}

#[test]
fn longest_road_needs_five_roads_and_the_lead() {
    assert!(check_longest_road(0, &Some(vec![5, 1, 1, 1]), &None));
    assert!(!check_longest_road(1, &Some(vec![5, 1, 1, 1]), &None));
    assert!(!check_longest_road(0, &Some(vec![4, 1, 1, 1]), &None));
    assert!(!check_longest_road(0, &None, &None));
    assert!(!check_longest_road(0, &None, &Some((0, 7))));
}

#[test]
fn longest_road_is_sticky_on_a_tie() {
    let tied = Some(vec![6, 6, 2]);
    assert!(check_longest_road(0, &tied, &Some((0, 6))));
    assert!(!check_longest_road(1, &tied, &Some((0, 6))));
    assert!(!check_longest_road(0, &tied, &Some((1, 6))));
    assert!(check_longest_road(1, &tied, &Some((1, 6))));
    assert!(!check_longest_road(0, &tied, &None));
    assert!(!check_longest_road(1, &tied, &None));
}

#[test]
fn longest_road_passes_to_a_strictly_longer_road() {
    let overtaken = Some(vec![6, 7, 2]);
    assert!(!check_longest_road(0, &overtaken, &Some((0, 6))));
    assert!(check_longest_road(1, &overtaken, &Some((0, 6))));
    assert!(!check_longest_road(2, &overtaken, &Some((0, 6))));
}

#[test]
fn largest_army_needs_three_knights_and_the_lead() {
    assert!(check_largest_army(2, &vec![0, 1, 3], &None));
    assert!(!check_largest_army(2, &vec![0, 1, 2], &None));
    assert!(!check_largest_army(1, &vec![0, 1, 3], &None));
    assert!(check_largest_army(0, &vec![3, 3, 0], &Some((0, 3))));
    assert!(!check_largest_army(1, &vec![3, 3, 0], &Some((0, 3))));
    assert!(check_largest_army(1, &vec![3, 4, 0], &Some((0, 3))));
}

#[test]
fn buildings_are_counted_by_owner() {
    let nodes = vec![settled(0, 0), bare(1), citied(2, 0), settled(3, 1), citied(4, 1), citied(5, 1)];
    assert_eq!(count_settlements(0, &nodes), 2);
    assert_eq!(count_cities(0, &nodes), 1);
    assert_eq!(count_settlements(1, &nodes), 3);
    assert_eq!(count_cities(1, &nodes), 2);
    assert_eq!(count_settlements(2, &nodes), 0);
    assert_eq!(count_cities(2, &nodes), 0);
    assert_eq!(count_vp_cards(1, &vec![vec![0, 9], vec![4, 9]]), 4);
}

#[test]
fn score_adds_buildings_cards_and_awards() {
    let nodes = vec![settled(0, 0), bare(1), citied(2, 0), settled(3, 1)];
    let drawn = vec![vec![2, 0, 0, 0, 0], vec![0, 0, 0, 0, 0]];
    let shown = vec![vec![1, 0, 0, 0, 0], vec![0, 0, 0, 0, 0]];
    let roads = Some(vec![5, 2]);
    let armies = vec![3, 0];
    assert_eq!(get_score(0, &nodes, &drawn, &roads, &None, &armies, &None), 2 + 1 + 2 + 2 + 2);
    assert_eq!(get_public_score(0, &nodes, &shown, &roads, &None, &armies, &None), 2 + 1 + 1 + 4);
    assert_eq!(get_score(1, &nodes, &drawn, &roads, &None, &armies, &None), 1);
    assert_eq!(get_score(0, &nodes, &drawn, &None, &None, &vec![0, 0], &None), 5);
    assert_eq!(get_score(0, &nodes, &drawn, &roads, &None, &vec![0, 0], &None), 7);
}

#[test]
fn score_grows_with_cards_and_stops_at_the_largest_number() {
    let nodes = vec![settled(0, 0)];
    let mut last = 0;
    for cards in [0u32, 1, 2, 10, 1000, u32::MAX - 1, u32::MAX] {
        let score = get_score(0, &nodes, &vec![vec![cards]], &None, &None, &vec![0], &None);
        assert!(score >= last);
        last = score;
    }
    assert_eq!(last, u32::MAX);
    assert_eq!(get_score(0, &nodes, &vec![vec![u32::MAX - 1]], &None, &None, &vec![0], &None), u32::MAX);
    assert_eq!(get_score(0, &nodes, &vec![vec![u32::MAX - 2]], &None, &None, &vec![0], &None), u32::MAX - 1);
}

#[test]
fn awards_pass_on_only_to_a_strict_lead() {
    assert_eq!(award_holder(&vec![4, 4, 1], None, 5), None);
    assert_eq!(award_holder(&vec![5, 4, 1], None, 5), Some((0, 5)));
    assert_eq!(award_holder(&vec![5, 5, 1], Some((0, 5)), 5), Some((0, 5)));
    assert_eq!(award_holder(&vec![6, 5, 1], Some((0, 5)), 5), Some((0, 6)));
    assert_eq!(award_holder(&vec![6, 7, 1], Some((0, 6)), 5), Some((1, 7)));
    assert_eq!(award_holder(&vec![5, 5, 5], None, 5), Some((2, 5)));
    assert_eq!(award_holder(&vec![2, 2], Some((1, 9)), 5), Some((1, 9)));
    assert_eq!(award_holder(&vec![], Some((1, 9)), 5), None);
    assert_eq!(award_holder(&vec![3, 1], None, 3), Some((0, 3)));
}
