use catan_cli::backend::setup::city::City;
use catan_cli::backend::setup::harbor::Harbor;
use catan_cli::backend::setup::node::{block_neighbors, Node};
use catan_cli::backend::setup::node_status::NodeStatus;
use catan_cli::backend::setup::placement::PlacementError;
use catan_cli::backend::setup::road::{node_has_road_of, node_has_road_to, Road};
use catan_cli::backend::setup::settlement::Settlement;
use catan_cli::backend::setup::shape::{get_node_adjacency, TileShape};

fn board() -> Vec<Node> {
    get_node_adjacency(2, &TileShape::Hexagon)
        .into_iter()
        .enumerate()
        .map(|(id, neighbors)| Node {
            id: id as u32,
            node_status: NodeStatus::Free,
            neighbors,
            roads: None,
            harbor: None,
            settlement: None,
            city: None,
            coords_conc: None,
        })
        .collect()
}

fn settlement(node_id: u32, player_id: u32) -> Settlement {
    Settlement { name: None, node_id, player_id }
}

#[test]
fn settlement_on_a_free_node_blocks_its_neighbours() {
    let mut nodes = board();
    assert_eq!(settlement(0, 2).place(&mut nodes), Ok(()));
    assert_eq!(nodes[0].node_status, NodeStatus::Settled(2));
    assert_eq!(nodes[0].settlement.as_ref().unwrap().player_id, 2);
    assert_eq!(nodes[0].settlement.as_ref().unwrap().node_id, 0);
    for neighbor in [5usize, 1, 6] {
        assert_eq!(nodes[neighbor].node_status, NodeStatus::Adjacent);
    }
    for other in [2usize, 3, 4, 7, 12, 23] {
        assert_eq!(nodes[other].node_status, NodeStatus::Free);
    }
}

#[test]
fn settlement_next_to_a_building_is_refused() {
    let mut nodes = board();
    settlement(0, 2).place(&mut nodes).unwrap();
    let before = format!("{:?}", nodes);
    assert_eq!(
        settlement(1, 3).place(&mut nodes),
        Err(PlacementError::SettlementNextToBuilding)
    );
    assert_eq!(settlement(0, 3).place(&mut nodes), Err(PlacementError::SettlementOnSettlement));
    assert_eq!(format!("{:?}", nodes), before);
}

#[test]
fn settlement_keeps_built_neighbours_built() {
    let mut nodes = board();
    nodes[1].node_status = NodeStatus::Citied(1);
    nodes[5].node_status = NodeStatus::Settled(3);
    assert_eq!(settlement(0, 2).place(&mut nodes), Ok(()));
    assert_eq!(nodes[1].node_status, NodeStatus::Citied(1));
    assert_eq!(nodes[5].node_status, NodeStatus::Settled(3));
    assert_eq!(nodes[6].node_status, NodeStatus::Adjacent);
}

#[test]
fn city_grows_from_the_owners_settlement() {
    let mut nodes = board();
    let city = |player_id| City { name: Some("Ulm".to_string()), node_id: 7, player_id };
    assert_eq!(city(1).place(&mut nodes), Err(PlacementError::CityWithoutSettlement));
    settlement(7, 1).place(&mut nodes).unwrap();
    assert_eq!(city(0).place(&mut nodes), Err(PlacementError::CityOnOtherPlayer));
    let near = City { name: None, node_id: 1, player_id: 1 };
    assert_eq!(near.place(&mut nodes), Err(PlacementError::CityNextToBuilding));
    assert_eq!(city(1).place(&mut nodes), Ok(()));
    assert_eq!(nodes[7].node_status, NodeStatus::Citied(1));
    assert_eq!(nodes[7].city.as_ref().unwrap().name, Some("Ulm".to_string()));
    assert!(nodes[7].settlement.is_some());
    assert_eq!(city(1).place(&mut nodes), Err(PlacementError::CityOnCity));
    assert_eq!(settlement(7, 1).place(&mut nodes), Err(PlacementError::SettlementOnCity));
    for neighbor in [1usize, 13, 14] {
        assert_eq!(nodes[neighbor].node_status, NodeStatus::Adjacent);
    }
}

#[test]
fn road_is_listed_at_both_ends_once() {
    let mut nodes = board();
    let road = Road { player: 1, nodes: (0, 1) };
    assert_eq!(road.place(&mut nodes), Ok(()));
    assert_eq!(nodes[0].roads, Some(vec![(1, 1)]));
    assert_eq!(nodes[1].roads, Some(vec![(1, 0)]));
    assert!(node_has_road_to(&nodes[0], 1));
    assert!(node_has_road_of(&nodes[1], 1));
    assert!(!node_has_road_of(&nodes[1], 0));
    assert!(!node_has_road_to(&nodes[0], 5));
    assert_eq!(road.place(&mut nodes), Err(PlacementError::RoadOnRoad));
    assert_eq!(Road { player: 0, nodes: (1, 0) }.place(&mut nodes), Err(PlacementError::RoadOnRoad));
    assert_eq!(Road { player: 0, nodes: (4, 4) }.place(&mut nodes), Err(PlacementError::RoadOnRoad));
    assert_eq!(Road { player: 0, nodes: (1, 2) }.place(&mut nodes), Ok(()));
    assert_eq!(nodes[1].roads, Some(vec![(1, 0), (0, 2)]));
    assert_eq!(nodes[4].roads, None);
}

#[test]
fn harbor_is_claimed_by_the_first_builder() {
    let mut nodes = board();
    let harbor = Harbor::new((12, 13, 5));
    assert_eq!(harbor.nodes, (12, 13));
    assert_eq!(harbor.harbor_type, 5);
    assert_eq!(harbor.player, None);
    let claimed = Harbor { nodes: (12, 13), harbor_type: 5, player: Some(3) };
    assert_eq!(claimed.place(&mut nodes), Ok(()));
    assert_eq!(nodes[12].harbor, Some(harbor));
    assert_eq!(nodes[13].harbor, Some(harbor));
    assert_eq!(Harbor::new((13, 14, 1)).place(&mut nodes), Err(PlacementError::HarborOverlap));
    assert_eq!(nodes[14].harbor, None);
    settlement(12, 2).place(&mut nodes).unwrap();
    assert_eq!(nodes[12].harbor.unwrap().player, Some(2));
    assert_eq!(nodes[13].harbor.unwrap().player, None);
}

#[test]
fn blocking_marks_only_unbuilt_neighbours() {
    let mut nodes = board();
    nodes[6].node_status = NodeStatus::Settled(0);
    nodes[12].node_status = NodeStatus::Citied(1);
    block_neighbors(&mut nodes, 6);
    assert_eq!(nodes[0].node_status, NodeStatus::Adjacent);
    assert_eq!(nodes[23].node_status, NodeStatus::Adjacent);
    assert_eq!(nodes[12].node_status, NodeStatus::Citied(1));
    assert_eq!(nodes[6].node_status, NodeStatus::Settled(0));
}

#[test]
fn every_error_has_its_message() {
    let messages = [
        (PlacementError::RoadOnRoad, "Cannot place a road on top of another road."),
        (
            PlacementError::SettlementNextToBuilding,
            "Cannot place a settlement directly adjacent to another settlement or city.",
        ),
        (
            PlacementError::SettlementOnSettlement,
            "Cannot place a new settlement on top of an existing settlement.",
        ),
        (PlacementError::SettlementOnCity, "Cannot place a new settlement on top of a city."),
        (
            PlacementError::CityWithoutSettlement,
            "Please build a settlement first, before upgrading to a city.",
        ),
        (
            PlacementError::CityNextToBuilding,
            "Cannot place a city directly adjacent to another settlement or city.",
        ),
        (PlacementError::CityOnOtherPlayer, "Cannot upgrade another player's settlement."),
        (PlacementError::CityOnCity, "Cannot place a new city on top of an existing city."),
        (
            PlacementError::HarborOverlap,
            "Please ensure that no node is adjacent to more than one harbor.",
        ),
    ];
    for (error, text) in messages {
        assert_eq!(error.message(), text);
    }
}
