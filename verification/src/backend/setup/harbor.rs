use vstd::prelude::*;
use crate::backend::setup::node::{nodes_wf, Node, NodeModel};
use crate::backend::setup::placement::PlacementError;

verus! {

/// A harbor on the coast between two nodes. `harbor_type` is a resource
/// index for a two-for-one harbor of that resource, or any larger number for
/// a three-for-one harbor. `player` is the player who has claimed it by
/// building on one of its nodes.
#[derive(Clone, Copy, Debug, PartialEq, Eq)]
pub struct Harbor {
    pub nodes: (u32, u32),
    pub harbor_type: u32,
    pub player: Option<u32>,
}

impl DeepView for Harbor {
    type V = Harbor;

    open spec fn deep_view(&self) -> Harbor {
        *self
    }
}

/// The nodes after the unclaimed `harbor` was attached to its two nodes.
pub open spec fn with_harbor(nodes: Seq<NodeModel>, harbor: Harbor) -> Seq<NodeModel> {
    let open = Harbor { player: None, ..harbor };
    let first = harbor.nodes.0 as int;
    let second = harbor.nodes.1 as int;
    nodes.update(first, NodeModel { harbor: Some(open), ..nodes[first] }).update(
        second,
        NodeModel { harbor: Some(open), ..nodes[second] },
    )
}

impl Harbor {
    /// Attaches the harbor, unclaimed, to its two nodes. The placement
    /// succeeds exactly where neither node has a harbor yet; otherwise the
    /// nodes stay as they were.
    pub fn place(self, nodes: &mut Vec<Node>) -> (result: Result<(), PlacementError>)
        requires
            nodes_wf(old(nodes).deep_view()),
            self.nodes.0 < old(nodes).len(),
            self.nodes.1 < old(nodes).len(),
        ensures
            nodes_wf(final(nodes).deep_view()),
            final(nodes).len() == old(nodes).len(),
            match result {
                Ok(()) => {
                    &&& old(nodes)[self.nodes.0 as int].harbor is None
                    &&& old(nodes)[self.nodes.1 as int].harbor is None
                    &&& final(nodes).deep_view() == with_harbor(old(nodes).deep_view(), self)
                },
                Err(e) => {
                    &&& e == PlacementError::HarborOverlap
                    &&& old(nodes)[self.nodes.0 as int].harbor is Some || old(nodes)[self.nodes.1 as int].harbor is Some
                    &&& *final(nodes) == *old(nodes)
                },
            },
    {
        let first = self.nodes.0 as usize;
        let second = self.nodes.1 as usize;
        let ghost base = nodes.deep_view();
        if nodes[first].harbor.is_some() || nodes[second].harbor.is_some() {
            return Err(PlacementError::HarborOverlap);
        }
        let open = Harbor { nodes: self.nodes, harbor_type: self.harbor_type, player: None };
        nodes[first].harbor = Some(open);
        nodes[second].harbor = Some(open);
        proof {
            let placed = with_harbor(base, self);
            assert forall|i: int| 0 <= i < placed.len() implies nodes.deep_view()[i]
                == placed[i] by {
                assert(nodes.deep_view()[i] == nodes[i].deep_view());
                assert(base[i] == old(nodes)[i].deep_view());
            }
            assert(nodes.deep_view() =~= placed);
            assert forall|i: int, j: int|
                0 <= i < placed.len() && 0 <= j < placed[i].neighbors.len() implies match #[trigger] placed[i].neighbors[j] {
                Some(n) => n < placed.len(),
                None => true,
            } by {
                assert(placed[i].neighbors == base[i].neighbors);
                assert(base[i].neighbors[j] == placed[i].neighbors[j]);
            }
        }
        Ok(())
    }

    /// An unclaimed harbor from a row `(first node, second node, type)`.
    pub fn new(row: (u32, u32, u32)) -> (harbor: Self)
        ensures
            harbor == (Harbor { nodes: (row.0, row.1), harbor_type: row.2, player: None }),
    {
        Harbor { nodes: (row.0, row.1), harbor_type: row.2, player: None }
    }
}

} // verus!
