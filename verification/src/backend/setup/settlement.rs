use vstd::prelude::*;
use crate::backend::setup::harbor::Harbor;
use crate::backend::setup::node::{block_neighbors, nodes_wf, with_neighbors_blocked, Node, NodeModel};
use crate::backend::setup::node_status::NodeStatus;
use crate::backend::setup::placement::PlacementError;

verus! {

/// A settlement: an optional name, the node it stands on and its owner.
#[derive(Clone, Debug)]
pub struct Settlement {
    pub name: Option<String>,
    pub node_id: u32,
    pub player_id: u32,
}

/// The mathematical content of a settlement or a city.
pub struct BuildingModel {
    pub name: Option<Seq<char>>,
    pub node_id: u32,
    pub player_id: u32,
}

impl DeepView for Settlement {
    type V = BuildingModel;

    open spec fn deep_view(&self) -> BuildingModel {
        BuildingModel {
            name: match self.name {
                Some(s) => Some(s@),
                None => None,
            },
            node_id: self.node_id,
            player_id: self.player_id,
        }
    }
}

/// Why a settlement cannot be placed on a node of the given status, if it
/// cannot: only a free node takes a settlement.
pub open spec fn settlement_refusal(status: NodeStatus) -> Option<PlacementError> {
    match status {
        NodeStatus::Free => None,
        NodeStatus::Adjacent => Some(PlacementError::SettlementNextToBuilding),
        NodeStatus::Settled(_) => Some(PlacementError::SettlementOnSettlement),
        NodeStatus::Citied(_) => Some(PlacementError::SettlementOnCity),
    }
}

/// The nodes after `settlement` was placed: its node is settled by its
/// owner and records the settlement, the owner claims the node's harbor, and
/// the node's neighbours are marked `Adjacent` unless they are built on.
pub open spec fn with_settlement(nodes: Seq<NodeModel>, settlement: BuildingModel) -> Seq<
    NodeModel,
> {
    let at = settlement.node_id as int;
    with_neighbors_blocked(
        nodes.update(
            at,
            NodeModel {
                node_status: NodeStatus::Settled(settlement.player_id),
                settlement: Some(settlement),
                ..nodes[at].with_harbor_claimed(settlement.player_id)
            },
        ),
        at,
    )
}

/// A settlement on a free node is not refused, and it leaves its node
/// settled and every neighbour that is not built on `Adjacent`; a
/// settlement on an `Adjacent` node is refused for standing next to a
/// building.
pub proof fn lemma_settlement_blocks_neighbors(
    nodes: Seq<NodeModel>,
    settlement: BuildingModel,
    neighbor: int,
)
    requires
        settlement.node_id < nodes.len(),
        0 <= neighbor < nodes.len(),
        nodes[settlement.node_id as int].names_neighbor(neighbor),
        !nodes[neighbor].node_status.is_built(),
        neighbor != settlement.node_id,
    ensures
        settlement_refusal(NodeStatus::Free) is None,
        settlement_refusal(NodeStatus::Adjacent) == Some(PlacementError::SettlementNextToBuilding),
        with_settlement(nodes, settlement)[settlement.node_id as int].node_status
            == NodeStatus::Settled(settlement.player_id),
        with_settlement(nodes, settlement)[neighbor].node_status == NodeStatus::Adjacent,
        with_settlement(nodes, settlement).len() == nodes.len(),
{
    let at = settlement.node_id as int;
    let placed = nodes.update(
        at,
        NodeModel {
            node_status: NodeStatus::Settled(settlement.player_id),
            settlement: Some(settlement),
            ..nodes[at].with_harbor_claimed(settlement.player_id)
        },
    );
    let k = choose|k: int|
        0 <= k < nodes[at].neighbors.len() && #[trigger] nodes[at].neighbors[k] == Some(
            neighbor as u32,
        );
    assert(placed[at].neighbors[k] == Some(neighbor as u32));
    assert(crate::backend::setup::node::names_among(
        placed[at].neighbors,
        placed[at].neighbors.len() as int,
        neighbor,
    ));
}

/// A settlement that is not refused moves no node's status back in the
/// order Free, Adjacent, Settled, Citied.
pub proof fn lemma_settlement_moves_status_forward(
    nodes: Seq<NodeModel>,
    settlement: BuildingModel,
    i: int,
)
    requires
        settlement.node_id < nodes.len(),
        0 <= i < nodes.len(),
        settlement_refusal(nodes[settlement.node_id as int].node_status) is None,
    ensures
        with_settlement(nodes, settlement).len() == nodes.len(),
        with_settlement(nodes, settlement)[i].node_status.rank() >= nodes[i].node_status.rank(),
{
}

impl Settlement {
    /// Places the settlement on its node. The placement succeeds exactly on
    /// a free node; otherwise the nodes stay as they were and the error says
    /// what stands in the way.
    pub fn place(self, nodes: &mut Vec<Node>) -> (result: Result<(), PlacementError>)
        requires
            nodes_wf(old(nodes).deep_view()),
            self.node_id < old(nodes).len(),
        ensures
            nodes_wf(final(nodes).deep_view()),
            final(nodes).len() == old(nodes).len(),
            match result {
                Ok(()) => {
                    &&& old(nodes)[self.node_id as int].node_status is Free
                    &&& final(nodes).deep_view() == with_settlement(
                        old(nodes).deep_view(),
                        self.deep_view(),
                    )
                },
                Err(e) => {
                    &&& settlement_refusal(old(nodes)[self.node_id as int].node_status) == Some(e)
                    &&& *final(nodes) == *old(nodes)
                },
            },
    {
        let at = self.node_id as usize;
        let ghost base = nodes.deep_view();
        let ghost model = self.deep_view();
        assert(base[at as int] == nodes[at as int].deep_view());
        match nodes[at].node_status {
            NodeStatus::Free => {
                let player = self.player_id;
                nodes[at].node_status = NodeStatus::Settled(player);
                match nodes[at].harbor {
                    Some(h) => {
                        nodes[at].harbor = Some(
                            Harbor { nodes: h.nodes, harbor_type: h.harbor_type, player: Some(player) },
                        );
                    },
                    None => {},
                }
                nodes[at].settlement = Some(self);
                proof {
                    let placed = base.update(
                        at as int,
                        NodeModel {
                            node_status: NodeStatus::Settled(model.player_id),
                            settlement: Some(model),
                            ..base[at as int].with_harbor_claimed(model.player_id)
                        },
                    );
                    assert forall|i: int| 0 <= i < placed.len() implies nodes.deep_view()[i]
                        == placed[i] by {
                        assert(nodes.deep_view()[i] == nodes[i].deep_view());
                        if i != at {
                            assert(base[i] == old(nodes)[i].deep_view());
                        }
                    }
                    assert(nodes.deep_view() =~= placed);
                    assert forall|i: int, j: int|
                        0 <= i < placed.len() && 0 <= j < placed[i].neighbors.len() implies match #[trigger] placed[i].neighbors[j] {
                        Some(n) => n < placed.len(),
                        None => true,
                    } by {
                        assert(placed[i].neighbors == base[i].neighbors);
                        assert(base[i].neighbors[j] == placed[i].neighbors[j]);
                    }
                }
                block_neighbors(nodes, at);
                Ok(())
            },
            NodeStatus::Adjacent => Err(PlacementError::SettlementNextToBuilding),
            NodeStatus::Settled(_) => Err(PlacementError::SettlementOnSettlement),
            NodeStatus::Citied(_) => Err(PlacementError::SettlementOnCity),
        }
    }
}

} // verus!
