use vstd::prelude::*;
use crate::backend::round::action::{Action, ActionModel};
use crate::backend::round::outcome::Outcome;
use crate::backend::round::phase::Phase;
use crate::backend::setup::board::{Board, BoardModel};
use crate::backend::setup::game_parameters::GameParameters;

verus! {

/// The state of play: the board, whose turn it is, who threw the dice, the
/// phase with its counters, and the last action with its outcome.
#[derive(Clone, Debug)]
pub struct Round {
    pub board: Board,
    pub active_player: u32,
    /// The player who threw the dice of this round.
    pub throwing_player: u32,
    /// Development cards played since the last dice throw.
    pub cards_played: u32,
    pub phase: Phase,
    /// Steps taken within the phase; what a step is depends on the phase.
    pub phase_count: u32,
    pub card_count: u32,
    pub robber_count: u32,
    pub action: Option<Action>,
    pub outcome: Option<Outcome>,
}

/// The mathematical content of a [`Round`].
pub struct RoundModel {
    pub board: BoardModel,
    pub active_player: u32,
    pub throwing_player: u32,
    pub cards_played: u32,
    pub phase: Phase,
    pub phase_count: u32,
    pub card_count: u32,
    pub robber_count: u32,
    pub action: Option<ActionModel>,
    pub outcome: Option<Outcome>,
}

impl DeepView for Round {
    type V = RoundModel;

    open spec fn deep_view(&self) -> RoundModel {
        RoundModel {
            board: self.board.deep_view(),
            active_player: self.active_player,
            throwing_player: self.throwing_player,
            cards_played: self.cards_played,
            phase: self.phase,
            phase_count: self.phase_count,
            card_count: self.card_count,
            robber_count: self.robber_count,
            action: self.action.deep_view(),
            outcome: self.outcome,
        }
    }
}

impl RoundModel {
    /// A round that fits the parameters of its game: the board does, and
    /// the active and the throwing player are players of the game.
    pub open spec fn wf(self, parameters: &GameParameters) -> bool {
        &&& self.board.wf(parameters)
        &&& self.active_player < parameters.n_players
        &&& self.throwing_player < parameters.n_players
    }
}

} // verus!
