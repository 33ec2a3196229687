use vstd::prelude::*;

verus! {

/// What stands on a node, or forbids building there.
#[derive(Clone, Copy, Debug, PartialEq, Eq, Structural)]
pub enum NodeStatus {
    /// Nothing is built here and no neighbour is built on.
    Free,
    /// Nothing is built here, but a neighbour holds a settlement or city.
    Adjacent,
    /// A settlement of the given player.
    Settled(u32),
    /// A city of the given player.
    Citied(u32),
}

impl NodeStatus {
    /// True for `Settled` and `Citied`.
    pub open spec fn is_built(self) -> bool {
        self is Settled || self is Citied
    }

    /// The player who has built here, if anyone.
    pub open spec fn owner(self) -> Option<u32> {
        match self {
            NodeStatus::Settled(p) => Some(p),
            NodeStatus::Citied(p) => Some(p),
            _ => None,
        }
    }

    /// Position of the status in the order Free, Adjacent, Settled, Citied,
    /// along which a node's status only ever moves forward.
    pub open spec fn rank(self) -> nat {
        match self {
            NodeStatus::Free => 0,
            NodeStatus::Adjacent => 1,
            NodeStatus::Settled(_) => 2,
            NodeStatus::Citied(_) => 3,
        }
    }
}

impl Default for NodeStatus {
    fn default() -> (status: Self)
        ensures
            status == NodeStatus::Free,
    {
        NodeStatus::Free
    }
}

impl DeepView for NodeStatus {
    type V = NodeStatus;

    open spec fn deep_view(&self) -> NodeStatus {
        *self
    }
}

} // verus!
