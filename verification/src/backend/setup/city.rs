use vstd::prelude::*;
use crate::backend::setup::harbor::Harbor;
use crate::backend::setup::node::{block_neighbors, nodes_wf, with_neighbors_blocked, Node, NodeModel};
use crate::backend::setup::node_status::NodeStatus;
use crate::backend::setup::placement::PlacementError;
use crate::backend::setup::settlement::BuildingModel;

verus! {

/// A city: an optional name, the node it stands on and its owner.
#[derive(Clone, Debug)]
pub struct City {
    pub name: Option<String>,
    pub node_id: u32,
    pub player_id: u32,
}

impl DeepView for City {
    type V = BuildingModel;

    open spec fn deep_view(&self) -> BuildingModel {
        BuildingModel {
            name: match self.name {
                Some(s) => Some(s@),
                None => None,
            },
            node_id: self.node_id,
            player_id: self.player_id,
        }
    }
}

/// Why `player` cannot place a city on a node of the given status, if the
/// player cannot: a city grows only from the player's own settlement.
pub open spec fn city_refusal(status: NodeStatus, player: u32) -> Option<PlacementError> {
    match status {
        NodeStatus::Free => Some(PlacementError::CityWithoutSettlement),
        NodeStatus::Adjacent => Some(PlacementError::CityNextToBuilding),
        NodeStatus::Settled(owner) => if owner == player {
            None
        } else {
            Some(PlacementError::CityOnOtherPlayer)
        },
        NodeStatus::Citied(_) => Some(PlacementError::CityOnCity),
    }
}

/// The nodes after `city` was placed: its node is citied by its owner and
/// records the city, the owner claims the node's harbor, and the node's
/// neighbours are marked `Adjacent` unless they are built on.
pub open spec fn with_city(nodes: Seq<NodeModel>, city: BuildingModel) -> Seq<NodeModel> {
    let at = city.node_id as int;
    with_neighbors_blocked(
        nodes.update(
            at,
            NodeModel {
                node_status: NodeStatus::Citied(city.player_id),
                city: Some(city),
                ..nodes[at].with_harbor_claimed(city.player_id)
            },
        ),
        at,
    )
}

/// A city that is not refused moves no node's status back in the order
/// Free, Adjacent, Settled, Citied.
pub proof fn lemma_city_moves_status_forward(nodes: Seq<NodeModel>, city: BuildingModel, i: int)
    requires
        city.node_id < nodes.len(),
        0 <= i < nodes.len(),
        city_refusal(nodes[city.node_id as int].node_status, city.player_id) is None,
    ensures
        with_city(nodes, city).len() == nodes.len(),
        with_city(nodes, city)[i].node_status.rank() >= nodes[i].node_status.rank(),
{
}

impl City {
    /// Places the city on its node. The placement succeeds exactly on a node
    /// that the city's owner has settled; otherwise the nodes stay as they
    /// were and the error says what stands in the way.
    pub fn place(self, nodes: &mut Vec<Node>) -> (result: Result<(), PlacementError>)
        requires
            nodes_wf(old(nodes).deep_view()),
            self.node_id < old(nodes).len(),
        ensures
            nodes_wf(final(nodes).deep_view()),
            final(nodes).len() == old(nodes).len(),
            match result {
                Ok(()) => {
                    &&& old(nodes)[self.node_id as int].node_status == NodeStatus::Settled(
                        self.player_id,
                    )
                    &&& final(nodes).deep_view() == with_city(
                        old(nodes).deep_view(),
                        self.deep_view(),
                    )
                },
                Err(e) => {
                    &&& city_refusal(old(nodes)[self.node_id as int].node_status, self.player_id)
                        == Some(e)
                    &&& *final(nodes) == *old(nodes)
                },
            },
    {
        let at = self.node_id as usize;
        let ghost base = nodes.deep_view();
        let ghost model = self.deep_view();
        assert(base[at as int] == nodes[at as int].deep_view());
        match nodes[at].node_status {
            NodeStatus::Free => Err(PlacementError::CityWithoutSettlement),
            NodeStatus::Adjacent => Err(PlacementError::CityNextToBuilding),
            NodeStatus::Settled(owner) => {
                if owner != self.player_id {
                    return Err(PlacementError::CityOnOtherPlayer);
                }
                let player = self.player_id;
                nodes[at].node_status = NodeStatus::Citied(player);
                match nodes[at].harbor {
                    Some(h) => {
                        nodes[at].harbor = Some(
                            Harbor { nodes: h.nodes, harbor_type: h.harbor_type, player: Some(player) },
                        );
                    },
                    None => {},
                }
                nodes[at].city = Some(self);
                proof {
                    let placed = base.update(
                        at as int,
                        NodeModel {
                            node_status: NodeStatus::Citied(model.player_id),
                            city: Some(model),
                            ..base[at as int].with_harbor_claimed(model.player_id)
                        },
                    );
                    assert forall|i: int| 0 <= i < placed.len() implies nodes.deep_view()[i]
                        == placed[i] by {
                        assert(nodes.deep_view()[i] == nodes[i].deep_view());
                        if i != at {
                            assert(base[i] == old(nodes)[i].deep_view());
                        }
                    }
                    assert(nodes.deep_view() =~= placed);
                    assert forall|i: int, j: int|
                        0 <= i < placed.len() && 0 <= j < placed[i].neighbors.len() implies match #[trigger] placed[i].neighbors[j] {
                        Some(n) => n < placed.len(),
                        None => true,
                    } by {
                        assert(placed[i].neighbors == base[i].neighbors);
                        assert(base[i].neighbors[j] == placed[i].neighbors[j]);
                    }
                }
                block_neighbors(nodes, at);
                Ok(())
            },
            NodeStatus::Citied(_) => Err(PlacementError::CityOnCity),
        }
    }
}

} // verus!
