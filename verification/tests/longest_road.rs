use catan_cli::backend::round::longest_road::get_longest_road;
use catan_cli::backend::setup::road::Road;

fn road(player: u32, a: u32, b: u32) -> Road {
    Road { player, nodes: (a, b) }
}

#[test]
fn single_road_has_length_one() {
    let roads = vec![road(0, 0, 1)];
    assert_eq!(get_longest_road(0, &roads), 1);
    assert_eq!(get_longest_road(1, &roads), 0);
}

#[test]
fn closed_hexagon_has_length_six() {
    let roads = vec![
        road(0, 0, 1),
        road(0, 1, 2),
        road(0, 2, 3),
        road(0, 3, 4),
        road(0, 4, 5),
        road(0, 0, 5),
    ];
    assert_eq!(get_longest_road(0, &roads), 6);
}

#[test]
fn fork_of_three_roads_has_length_two() {
    let roads = vec![road(2, 7, 1), road(2, 7, 2), road(2, 3, 7)];
    assert_eq!(get_longest_road(2, &roads), 2);
}
