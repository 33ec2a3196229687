use vstd::prelude::*;
use crate::backend::setup::city::City;
use crate::backend::setup::harbor::Harbor;
use crate::backend::setup::node_status::NodeStatus;
use crate::backend::setup::settlement::{BuildingModel, Settlement};

verus! {

/// A corner of the board. `neighbors` lists the adjacent nodes, `roads` the
/// roads that end here as pairs of owner and far end, and `coords_conc` the
/// node's ring and its position within the ring.
#[derive(Clone, Debug)]
pub struct Node {
    pub id: u32,
    pub node_status: NodeStatus,
    pub neighbors: Vec<Option<u32>>,
    pub roads: Option<Vec<(u32, u32)>>,
    pub harbor: Option<Harbor>,
    pub settlement: Option<Settlement>,
    pub city: Option<City>,
    pub coords_conc: Option<(u32, u32)>,
}

/// The mathematical content of a [`Node`].
pub struct NodeModel {
    pub id: u32,
    pub node_status: NodeStatus,
    pub neighbors: Seq<Option<u32>>,
    pub roads: Option<Seq<(u32, u32)>>,
    pub harbor: Option<Harbor>,
    pub settlement: Option<BuildingModel>,
    pub city: Option<BuildingModel>,
    pub coords_conc: Option<(u32, u32)>,
}

impl DeepView for Node {
    type V = NodeModel;

    open spec fn deep_view(&self) -> NodeModel {
        NodeModel {
            id: self.id,
            node_status: self.node_status,
            neighbors: self.neighbors@,
            roads: match self.roads {
                Some(r) => Some(r@),
                None => None,
            },
            harbor: self.harbor,
            settlement: self.settlement.deep_view(),
            city: self.city.deep_view(),
            coords_conc: self.coords_conc,
        }
    }
}

impl NodeModel {
    /// Whether the list of neighbours names node `i`.
    pub open spec fn names_neighbor(self, i: int) -> bool {
        exists|k: int|
            0 <= k < self.neighbors.len() && #[trigger] self.neighbors[k] == Some(i as u32)
    }

    /// This node with one more road ending at it.
    pub open spec fn with_road(self, owner: u32, far_end: u32) -> NodeModel {
        NodeModel { roads: Some(self.road_list().push((owner, far_end))), ..self }
    }

    /// This node with its harbor, if it has one, claimed by `player`.
    pub open spec fn with_harbor_claimed(self, player: u32) -> NodeModel {
        NodeModel {
            harbor: match self.harbor {
                Some(h) => Some(Harbor { player: Some(player), ..h }),
                None => None,
            },
            ..self
        }
    }

    /// The roads that end at this node; none where the list is absent.
    pub open spec fn road_list(self) -> Seq<(u32, u32)> {
        match self.roads {
            Some(r) => r,
            None => Seq::empty(),
        }
    }

    /// Whether some road, of any owner, joins this node to `other`.
    pub open spec fn has_road_to(self, other: u32) -> bool {
        exists|k: int| 0 <= k < self.road_list().len() && (#[trigger] self.road_list()[k]).1 == other
    }

    /// Whether a road of `player` ends at this node.
    pub open spec fn has_road_of(self, player: u32) -> bool {
        exists|k: int| 0 <= k < self.road_list().len() && (#[trigger] self.road_list()[k]).0 == player
    }
}

/// Nodes that know their place: there are no more than ids for them, each
/// node's id is its index, and every neighbour named is a node.
pub open spec fn nodes_wf(nodes: Seq<NodeModel>) -> bool {
    &&& nodes.len() <= u32::MAX
    &&& forall|i: int| 0 <= i < nodes.len() ==> (#[trigger] nodes[i]).id == i
    &&& forall|i: int, j: int|
        0 <= i < nodes.len() && 0 <= j < nodes[i].neighbors.len() ==> match #[trigger] nodes[i].neighbors[j] {
            Some(n) => n < nodes.len(),
            None => true,
        }
}

/// Whether one of the first `count` entries of a neighbour list names node
/// `i`.
pub open spec fn names_among(neighbors: Seq<Option<u32>>, count: int, i: int) -> bool {
    exists|k: int| 0 <= k < count && k < neighbors.len() && #[trigger] neighbors[k] == Some(i as u32)
}

/// The nodes after the nodes named by the first `count` neighbour entries of
/// node `at` were marked `Adjacent`, but for those that are built on.
pub open spec fn blocked_upto(nodes: Seq<NodeModel>, at: int, count: int) -> Seq<NodeModel> {
    Seq::new(
        nodes.len(),
        |i: int|
            if names_among(nodes[at].neighbors, count, i) && !nodes[i].node_status.is_built() {
                NodeModel { node_status: NodeStatus::Adjacent, ..nodes[i] }
            } else {
                nodes[i]
            },
    )
}

/// The nodes after every neighbour of node `at` was marked `Adjacent`, but
/// for those that are built on.
pub open spec fn with_neighbors_blocked(nodes: Seq<NodeModel>, at: int) -> Seq<NodeModel> {
    blocked_upto(nodes, at, nodes[at].neighbors.len() as int)
}

/// Marks every neighbour of node `at` as `Adjacent`, but for those that are
/// built on.
pub fn block_neighbors(nodes: &mut Vec<Node>, at: usize)
    requires
        nodes_wf(old(nodes).deep_view()),
        at < old(nodes).len(),
        old(nodes)[at as int].node_status.is_built(),
    ensures
        final(nodes).deep_view() == with_neighbors_blocked(old(nodes).deep_view(), at as int),
        nodes_wf(final(nodes).deep_view()),
{
    let ghost base = nodes.deep_view();
    let count = nodes[at].neighbors.len();
    let mut j: usize = 0;
    assert(nodes.deep_view() =~= blocked_upto(base, at as int, 0));
    while j < count
        invariant
            j <= count,
            at < nodes.len(),
            nodes.len() == base.len(),
            count == base[at as int].neighbors.len(),
            nodes_wf(base),
            base[at as int].node_status.is_built(),
            nodes.deep_view() == blocked_upto(base, at as int, j as int),
        decreases count - j,
    {
        let ghost before = nodes.deep_view();
        assert(before[at as int] == base[at as int]);
        assert(nodes[at as int].deep_view() == before[at as int]);
        let neighbor = nodes[at].neighbors[j];
        assert(neighbor == base[at as int].neighbors[j as int]);
        match neighbor {
            Some(n) => {
                let target = n as usize;
                assert(nodes[target as int].deep_view() == before[target as int]);
                let built = match nodes[target].node_status {
                    NodeStatus::Settled(_) => true,
                    NodeStatus::Citied(_) => true,
                    _ => false,
                };
                if !built {
                    nodes[target].node_status = NodeStatus::Adjacent;
                }
                proof {
                    let after = nodes.deep_view();
                    let goal = blocked_upto(base, at as int, j + 1);
                    assert(names_among(base[at as int].neighbors, j + 1, n as int));
                    assert forall|i: int| 0 <= i < after.len() implies after[i] == goal[i] by {
                        assert(after[i] == nodes[i].deep_view());
                        if i == n {
                        } else {
                            assert(before[i] == after[i]);
                            if names_among(base[at as int].neighbors, j + 1, i) {
                                let k = choose|k: int|
                                    0 <= k < j + 1 && k < base[at as int].neighbors.len()
                                        && #[trigger] base[at as int].neighbors[k] == Some(i as u32);
                                assert(k < j);
                                assert(names_among(base[at as int].neighbors, j as int, i));
                            }
                            if names_among(base[at as int].neighbors, j as int, i) {
                                let k = choose|k: int|
                                    0 <= k < j && k < base[at as int].neighbors.len()
                                        && #[trigger] base[at as int].neighbors[k] == Some(i as u32);
                                assert(names_among(base[at as int].neighbors, j + 1, i));
                            }
                        }
                    }
                    assert(after =~= goal);
                }
            },
            None => {
                proof {
                    let goal = blocked_upto(base, at as int, j + 1);
                    assert forall|i: int| 0 <= i < before.len() implies before[i] == goal[i] by {
                        if names_among(base[at as int].neighbors, j + 1, i) {
                            let k = choose|k: int|
                                0 <= k < j + 1 && k < base[at as int].neighbors.len()
                                    && #[trigger] base[at as int].neighbors[k] == Some(i as u32);
                            assert(k < j);
                            assert(names_among(base[at as int].neighbors, j as int, i));
                        }
                        if names_among(base[at as int].neighbors, j as int, i) {
                            let k = choose|k: int|
                                0 <= k < j && k < base[at as int].neighbors.len()
                                    && #[trigger] base[at as int].neighbors[k] == Some(i as u32);
                            assert(names_among(base[at as int].neighbors, j + 1, i));
                        }
                    }
                    assert(before =~= goal);
                }
            },
        }
        j = j + 1;
    }
    proof {
        lemma_blocked_keeps_wf(base, at as int, count as int);
    }
}

/// Marking neighbours keeps the nodes in their places.
pub proof fn lemma_blocked_keeps_wf(nodes: Seq<NodeModel>, at: int, count: int)
    requires
        nodes_wf(nodes),
        0 <= at < nodes.len(),
    ensures
        nodes_wf(blocked_upto(nodes, at, count)),
{
    let after = blocked_upto(nodes, at, count);
    assert forall|i: int, j: int|
        0 <= i < after.len() && 0 <= j < after[i].neighbors.len() implies match #[trigger] after[i].neighbors[j] {
        Some(n) => n < after.len(),
        None => true,
    } by {
        assert(after[i].neighbors == nodes[i].neighbors);
        assert(nodes[i].neighbors[j] == after[i].neighbors[j]);
    }
}

} // verus!
