use vstd::prelude::*;

verus! {

/// A development card as it is played, with what the play decides:
/// a knight moves a robber to a tile and may rob a victim, a road card
/// builds two roads, a plenty card takes two resources and a monopoly card
/// names one resource.
#[derive(Clone, Copy, Debug, PartialEq, Eq, Structural)]
pub enum CardType {
    VPCard,
    KnightCard(u32, u32, Option<u32>),
    RoadsCard(u32, u32, u32, u32),
    PlentyCard(u32, u32),
    MonopolyCard(u32),
}

impl CardType {
    /// The index of the card's kind in the per-kind card counters.
    pub open spec fn kind(self) -> int {
        match self {
            CardType::VPCard => 0,
            CardType::KnightCard(_, _, _) => 1,
            CardType::RoadsCard(_, _, _, _) => 2,
            CardType::PlentyCard(_, _) => 3,
            CardType::MonopolyCard(_) => 4,
        }
    }

    /// The index of the card's kind in the per-kind card counters.
    pub fn kind_index(&self) -> (k: usize)
        ensures
            k == self.kind(),
    {
        match self {
            CardType::VPCard => 0,
            CardType::KnightCard(_, _, _) => 1,
            CardType::RoadsCard(_, _, _, _) => 2,
            CardType::PlentyCard(_, _) => 3,
            CardType::MonopolyCard(_) => 4,
        }
    }
}

} // verus!
