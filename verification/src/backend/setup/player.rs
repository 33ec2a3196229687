use vstd::prelude::*;

verus! {

/// Who decides a player's moves.
#[derive(Clone, Copy, Debug, PartialEq, Eq, Structural)]
pub enum PlayerType {
    Human,
    Random,
    Myopic,
    Fixed,
    Classic,
    ClassicPlus,
    SimpleNN,
}

/// A player at the table.
#[derive(Clone, Debug)]
pub struct Player {
    pub id: u32,
    pub name: Option<String>,
    pub color_id: Option<u32>,
    pub player_type: PlayerType,
}

impl Player {
    /// A human player with a name and a colour.
    pub fn new(id: u32, name: String, color_id: u32) -> (player: Player)
        ensures
            player.id == id,
            player.name == Some(name),
            player.color_id == Some(color_id),
            player.player_type == PlayerType::Human,
    {
        Player { id, name: Some(name), color_id: Some(color_id), player_type: PlayerType::Human }
    }

    /// A nameless player who moves at random.
    pub fn new_empty(id: u32) -> (player: Player)
        ensures
            player.id == id,
            player.name is None,
            player.color_id is None,
            player.player_type == PlayerType::Random,
    {
        Player { id, name: None, color_id: None, player_type: PlayerType::Random }
    }

    /// A nameless player who weighs moves by fixed weights.
    pub fn new_classic(id: u32) -> (player: Player)
        ensures
            player.id == id,
            player.name is None,
            player.color_id is None,
            player.player_type == PlayerType::Classic,
    {
        Player { id, name: None, color_id: None, player_type: PlayerType::Classic }
    }

    /// A nameless player who weighs moves by the second set of weights. As
    /// with [`Player::new_classic`], the player is of the `Classic` kind.
    pub fn new_classic_plus(id: u32) -> (player: Player)
        ensures
            player.id == id,
            player.name is None,
            player.color_id is None,
            player.player_type == PlayerType::Classic,
    {
        Player { id, name: None, color_id: None, player_type: PlayerType::Classic }
    }

    /// A nameless player whose moves a network picks.
    pub fn new_simple_nn(id: u32) -> (player: Player)
        ensures
            player.id == id,
            player.name is None,
            player.color_id is None,
            player.player_type == PlayerType::SimpleNN,
    {
        Player { id, name: None, color_id: None, player_type: PlayerType::SimpleNN }
    }
}

impl Default for Player {
    fn default() -> (player: Player)
        ensures
            player.id == 0,
            player.name is None,
            player.color_id is None,
            player.player_type == PlayerType::Random,
    {
        Player { id: 0, name: None, color_id: None, player_type: PlayerType::Random }
    }
}

} // verus!
