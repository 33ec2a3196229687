use vstd::prelude::*;

verus! {

/// A tile of the board: the nodes at its corners, the dice sum that makes it
/// produce (`None` while a robber stands on it) and the resource it yields.
#[derive(Clone, Debug)]
pub struct Tile {
    pub id: u32,
    pub nodes: Vec<u32>,
    pub rng: Option<u32>,
    pub resource: Option<u32>,
}

/// The mathematical content of a [`Tile`].
pub struct TileModel {
    pub id: u32,
    pub nodes: Seq<u32>,
    pub rng: Option<u32>,
    pub resource: Option<u32>,
}

impl DeepView for Tile {
    type V = TileModel;

    open spec fn deep_view(&self) -> TileModel {
        TileModel { id: self.id, nodes: self.nodes@, rng: self.rng, resource: self.resource }
    }
}

} // verus!
