use vstd::prelude::*;

verus! {

/// Why a piece could not be placed. A refused placement leaves the board as
/// it was.
#[derive(Clone, Copy, Debug, PartialEq, Eq, Structural)]
pub enum PlacementError {
    /// A road already joins the two nodes, or the road would join a node to
    /// itself.
    RoadOnRoad,
    /// The node is next to a settlement or city.
    SettlementNextToBuilding,
    /// The node already holds a settlement.
    SettlementOnSettlement,
    /// The node already holds a city.
    SettlementOnCity,
    /// A city needs a settlement to grow from.
    CityWithoutSettlement,
    /// The node is free of buildings but next to one.
    CityNextToBuilding,
    /// The settlement on the node belongs to another player.
    CityOnOtherPlayer,
    /// The node already holds a city.
    CityOnCity,
    /// One of the harbor's nodes already has a harbor.
    HarborOverlap,
}

impl PlacementError {
    /// The text of the error.
    pub open spec fn text(self) -> Seq<char> {
        match self {
            PlacementError::RoadOnRoad => "Cannot place a road on top of another road."@,
            PlacementError::SettlementNextToBuilding => "Cannot place a settlement directly adjacent to another settlement or city."@,
            PlacementError::SettlementOnSettlement => "Cannot place a new settlement on top of an existing settlement."@,
            PlacementError::SettlementOnCity => "Cannot place a new settlement on top of a city."@,
            PlacementError::CityWithoutSettlement => "Please build a settlement first, before upgrading to a city."@,
            PlacementError::CityNextToBuilding => "Cannot place a city directly adjacent to another settlement or city."@,
            PlacementError::CityOnOtherPlayer => "Cannot upgrade another player's settlement."@,
            PlacementError::CityOnCity => "Cannot place a new city on top of an existing city."@,
            PlacementError::HarborOverlap => "Please ensure that no node is adjacent to more than one harbor."@,
        }
    }

    /// The text of the error, for a person to read.
    pub fn message(&self) -> (text: &'static str)
        ensures
            text@ == self.text(),
    {
        match self {
            PlacementError::RoadOnRoad => "Cannot place a road on top of another road.",
            PlacementError::SettlementNextToBuilding => "Cannot place a settlement directly adjacent to another settlement or city.",
            PlacementError::SettlementOnSettlement => "Cannot place a new settlement on top of an existing settlement.",
            PlacementError::SettlementOnCity => "Cannot place a new settlement on top of a city.",
            PlacementError::CityWithoutSettlement => "Please build a settlement first, before upgrading to a city.",
            PlacementError::CityNextToBuilding => "Cannot place a city directly adjacent to another settlement or city.",
            PlacementError::CityOnOtherPlayer => "Cannot upgrade another player's settlement.",
            PlacementError::CityOnCity => "Cannot place a new city on top of an existing city.",
            PlacementError::HarborOverlap => "Please ensure that no node is adjacent to more than one harbor.",
        }
    }
}

} // verus!
