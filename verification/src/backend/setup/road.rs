use vstd::prelude::*;
use crate::backend::setup::node::{nodes_wf, Node, NodeModel};
use crate::backend::setup::placement::PlacementError;

verus! {

/// A road of `player` between the two nodes of `nodes`.
#[derive(Clone, Copy, Debug, PartialEq, Eq, Hash)]
pub struct Road {
    pub player: u32,
    pub nodes: (u32, u32),
}

impl DeepView for Road {
    type V = Road;

    open spec fn deep_view(&self) -> Road {
        *self
    }
}

/// Whether a road between nodes `a` and `b` is refused: a road already
/// joins them, or they are one node.
pub open spec fn road_refused(nodes: Seq<NodeModel>, a: u32, b: u32) -> bool {
    a == b || nodes[a as int].has_road_to(b) || nodes[b as int].has_road_to(a)
}

/// The nodes after `road` was placed: each of its two nodes lists the road
/// with its owner and its far end.
pub open spec fn with_road_between(nodes: Seq<NodeModel>, road: Road) -> Seq<NodeModel> {
    let a = road.nodes.0;
    let b = road.nodes.1;
    nodes.update(a as int, nodes[a as int].with_road(road.player, b)).update(
        b as int,
        nodes[b as int].with_road(road.player, a),
    )
}

/// Whether at most one road joins any two nodes, whoever owns it: no node
/// lists two roads to the same far end.
pub open spec fn roads_single(nodes: Seq<NodeModel>) -> bool {
    forall|i: int, j: int, k: int|
        0 <= i < nodes.len() && 0 <= j < k < nodes[i].road_list().len() ==> (
        #[trigger] nodes[i].road_list()[j]).1 != (#[trigger] nodes[i].road_list()[k]).1
}

/// At most one road joins two nodes: a road that is not refused leaves it
/// so.
pub proof fn lemma_road_keeps_roads_single(nodes: Seq<NodeModel>, road: Road)
    requires
        roads_single(nodes),
        road.nodes.0 < nodes.len(),
        road.nodes.1 < nodes.len(),
        !road_refused(nodes, road.nodes.0, road.nodes.1),
    ensures
        roads_single(with_road_between(nodes, road)),
{
    let a = road.nodes.0 as int;
    let b = road.nodes.1 as int;
    let after = with_road_between(nodes, road);
    assert forall|i: int, j: int, k: int|
        0 <= i < after.len() && 0 <= j < k < after[i].road_list().len() implies (
    #[trigger] after[i].road_list()[j]).1 != (#[trigger] after[i].road_list()[k]).1 by {
        let list = nodes[i].road_list();
        if i == a || i == b {
            if k < list.len() {
                assert(list[j].1 != list[k].1);
            } else {
                assert(!nodes[i].has_road_to(after[i].road_list()[k].1));
                assert(list[j] == after[i].road_list()[j]);
            }
        } else {
            assert(list[j].1 != list[k].1);
        }
    }
}

/// Whether every road is listed at both its ends: where a node lists a road
/// to a far end, the far end is a node and lists a road back.
pub open spec fn roads_mirrored(nodes: Seq<NodeModel>) -> bool {
    forall|i: int, k: int|
        0 <= i < nodes.len() && 0 <= k < nodes[i].road_list().len() ==> {
            let far = (#[trigger] nodes[i].road_list()[k]).1;
            far < nodes.len() && nodes[far as int].has_road_to(i as u32)
        }
}

/// A road is listed at both its ends: placing a road leaves it so.
pub proof fn lemma_road_keeps_roads_mirrored(nodes: Seq<NodeModel>, road: Road)
    requires
        nodes.len() <= u32::MAX,
        roads_mirrored(nodes),
        road.nodes.0 < nodes.len(),
        road.nodes.1 < nodes.len(),
    ensures
        roads_mirrored(with_road_between(nodes, road)),
{
    let a = road.nodes.0 as int;
    let b = road.nodes.1 as int;
    let after = with_road_between(nodes, road);
    assert forall|i: int, k: int|
        0 <= i < after.len() && 0 <= k < after[i].road_list().len() implies {
        let far = (#[trigger] after[i].road_list()[k]).1;
        far < after.len() && after[far as int].has_road_to(i as u32)
    } by {
        let far = after[i].road_list()[k].1;
        if k < nodes[i].road_list().len() {
            lemma_old_roads_stay(nodes, road, i, k);
            assert(nodes[i].road_list()[k].1 == far);
            let back = choose|back: int|
                0 <= back < nodes[far as int].road_list().len() && (
                #[trigger] nodes[far as int].road_list()[back]).1 == i as u32;
            lemma_old_roads_stay(nodes, road, far as int, back);
            assert(after[far as int].road_list()[back].1 == i as u32);
        } else {
            lemma_new_road_ends(nodes, road, i, k);
        }
    }
}

/// The roads that a node lists stay in their places when a road is placed.
proof fn lemma_old_roads_stay(nodes: Seq<NodeModel>, road: Road, i: int, k: int)
    requires
        road.nodes.0 < nodes.len(),
        road.nodes.1 < nodes.len(),
        0 <= i < nodes.len(),
        0 <= k < nodes[i].road_list().len(),
    ensures
        k < with_road_between(nodes, road)[i].road_list().len(),
        with_road_between(nodes, road)[i].road_list()[k] == nodes[i].road_list()[k],
{
    let a = road.nodes.0 as int;
    let b = road.nodes.1 as int;
    let first = nodes.update(a, nodes[a].with_road(road.player, road.nodes.1));
    assert(with_road_between(nodes, road) == first.update(
        b,
        nodes[b].with_road(road.player, road.nodes.0),
    ));
    if i == a {
        assert(first[a].road_list() == nodes[a].road_list().push((road.player, road.nodes.1)));
    }
    if i == b {
        assert(nodes[b].with_road(road.player, road.nodes.0).road_list()
            == nodes[b].road_list().push((road.player, road.nodes.0)));
    }
}

/// The entry that a new road adds to the list of one of its ends names the
/// other end, which lists the road back.
proof fn lemma_new_road_ends(nodes: Seq<NodeModel>, road: Road, i: int, k: int)
    requires
        nodes.len() <= u32::MAX,
        road.nodes.0 < nodes.len(),
        road.nodes.1 < nodes.len(),
        0 <= i < nodes.len(),
        nodes[i].road_list().len() <= k < with_road_between(nodes, road)[i].road_list().len(),
    ensures
        ({
            let after = with_road_between(nodes, road);
            let far = after[i].road_list()[k].1;
            far < after.len() && after[far as int].has_road_to(i as u32)
        }),
{
    let a = road.nodes.0 as int;
    let b = road.nodes.1 as int;
    let after = with_road_between(nodes, road);
    let first = nodes.update(a, nodes[a].with_road(road.player, road.nodes.1));
    assert(after == first.update(b, nodes[b].with_road(road.player, road.nodes.0)));
    if a == b {
        assert(i == a);
        let list = after[a].road_list();
        assert(list == nodes[a].road_list().push((road.player, road.nodes.0)));
        assert(list[k].1 == a as u32);
        assert(after[a].has_road_to(a as u32));
    } else if i == a {
        assert(after[a].road_list() == nodes[a].road_list().push((road.player, road.nodes.1)));
        let list = after[b].road_list();
        assert(list[list.len() - 1].1 == road.nodes.0);
    } else {
        assert(i == b);
        assert(after[b].road_list() == nodes[b].road_list().push((road.player, road.nodes.0)));
        let list = after[a].road_list();
        assert(list == nodes[a].road_list().push((road.player, road.nodes.1)));
        assert(list[list.len() - 1].1 == road.nodes.1);
    }
}

/// Whether some road, of any owner, joins `node` to `other`.
pub fn node_has_road_to(node: &Node, other: u32) -> (found: bool)
    ensures
        found == node.deep_view().has_road_to(other),
{
    match &node.roads {
        Some(list) => {
            let mut k: usize = 0;
            while k < list.len()
                invariant
                    k <= list.len(),
                    node.roads == Some(*list),
                    forall|l: int| 0 <= l < k ==> list[l].1 != other,
                decreases list.len() - k,
            {
                if list[k].1 == other {
                    assert(node.deep_view().road_list()[k as int].1 == other);
                    return true;
                }
                k = k + 1;
            }
            false
        },
        None => false,
    }
}

/// Whether a road of `player` ends at `node`.
pub fn node_has_road_of(node: &Node, player: u32) -> (found: bool)
    ensures
        found == node.deep_view().has_road_of(player),
{
    match &node.roads {
        Some(list) => {
            let mut k: usize = 0;
            while k < list.len()
                invariant
                    k <= list.len(),
                    node.roads == Some(*list),
                    forall|l: int| 0 <= l < k ==> list[l].0 != player,
                decreases list.len() - k,
            {
                if list[k].0 == player {
                    assert(node.deep_view().road_list()[k as int].0 == player);
                    return true;
                }
                k = k + 1;
            }
            false
        },
        None => false,
    }
}

/// Adds a road to the list of roads that end at `node`.
fn push_node_road(node: &mut Node, owner: u32, far_end: u32)
    ensures
        final(node).deep_view() == old(node).deep_view().with_road(owner, far_end),
{
    let ghost before = node.deep_view();
    match &mut node.roads {
        Some(list) => {
            list.push((owner, far_end));
        },
        None => {
            let mut list: Vec<(u32, u32)> = Vec::new();
            list.push((owner, far_end));
            node.roads = Some(list);
        },
    }
    assert(node.deep_view().roads->0 =~= before.road_list().push((owner, far_end)));
}

impl Road {
    /// Places the road between its two nodes. The placement succeeds
    /// exactly where the nodes differ and no road joins them yet; otherwise
    /// the nodes stay as they were.
    pub fn place(self, nodes: &mut Vec<Node>) -> (result: Result<(), PlacementError>)
        requires
            nodes_wf(old(nodes).deep_view()),
            self.nodes.0 < old(nodes).len(),
            self.nodes.1 < old(nodes).len(),
        ensures
            nodes_wf(final(nodes).deep_view()),
            final(nodes).len() == old(nodes).len(),
            match result {
                Ok(()) => {
                    &&& !road_refused(old(nodes).deep_view(), self.nodes.0, self.nodes.1)
                    &&& final(nodes).deep_view() == with_road_between(old(nodes).deep_view(), self)
                },
                Err(e) => {
                    &&& e == PlacementError::RoadOnRoad
                    &&& road_refused(old(nodes).deep_view(), self.nodes.0, self.nodes.1)
                    &&& *final(nodes) == *old(nodes)
                },
            },
    {
        let a = self.nodes.0 as usize;
        let b = self.nodes.1 as usize;
        let ghost base = nodes.deep_view();
        assert(base[a as int] == nodes[a as int].deep_view());
        assert(base[b as int] == nodes[b as int].deep_view());
        if a == b || node_has_road_to(&nodes[a], self.nodes.1) || node_has_road_to(
            &nodes[b],
            self.nodes.0,
        ) {
            return Err(PlacementError::RoadOnRoad);
        }
        push_node_road(&mut nodes[a], self.player, self.nodes.1);
        push_node_road(&mut nodes[b], self.player, self.nodes.0);
        proof {
            let placed = with_road_between(base, self);
            assert forall|i: int| 0 <= i < placed.len() implies nodes.deep_view()[i]
                == placed[i] by {
                assert(nodes.deep_view()[i] == nodes[i].deep_view());
                assert(base[i] == old(nodes)[i].deep_view());
            }
            assert(nodes.deep_view() =~= placed);
            assert forall|i: int, j: int|
                0 <= i < placed.len() && 0 <= j < placed[i].neighbors.len() implies match #[trigger] placed[i].neighbors[j] {
                Some(n) => n < placed.len(),
                None => true,
            } by {
                assert(placed[i].neighbors == base[i].neighbors);
                assert(base[i].neighbors[j] == placed[i].neighbors[j]);
            }
        }
        Ok(())
    }
}

} // verus!
