use vstd::prelude::*;
use crate::backend::round::round_struct::{Round, RoundModel};
use crate::backend::setup::board::{initial_board, initial_nodes, Board};
use crate::backend::setup::game_parameters::GameParameters;
use crate::backend::setup::node::NodeModel;
use crate::backend::setup::placement::PlacementError;

verus! {

/// A game: its parameters and the state of play.
#[derive(Clone, Debug)]
pub struct Game {
    pub parameters: GameParameters,
    pub round: Round,
}

/// The mathematical content of a [`Game`].
pub struct GameModel {
    pub parameters: GameParameters,
    pub round: RoundModel,
}

impl DeepView for Game {
    type V = GameModel;

    open spec fn deep_view(&self) -> GameModel {
        GameModel { parameters: self.parameters, round: self.round.deep_view() }
    }
}

impl GameModel {
    /// A game whose parameters can be played with and whose round fits them.
    pub open spec fn wf(self) -> bool {
        self.parameters.wf() && self.round.wf(&self.parameters)
    }
}

/// The round of the initial position with the given nodes: the initial
/// board, the initial player to move and to throw, the initial phase, all
/// counters at zero and nothing on record.
pub open spec fn initial_round(parameters: &GameParameters, nodes: Seq<NodeModel>) -> RoundModel {
    RoundModel {
        board: initial_board(parameters, nodes),
        active_player: parameters.init_player,
        throwing_player: parameters.init_player,
        cards_played: 0,
        phase: parameters.init_phase,
        phase_count: 0,
        card_count: 0,
        robber_count: 0,
        action: None,
        outcome: None,
    }
}

impl Game {
    /// The round of the initial position that the parameters describe.
    pub fn initialize_round(parameters: &GameParameters) -> (result: Result<Round, PlacementError>)
        requires
            parameters.board_wf(),
        ensures
            match result {
                Ok(round) => {
                    &&& initial_nodes(parameters) is Ok
                    &&& round.deep_view() == initial_round(
                        parameters,
                        initial_nodes(parameters)->Ok_0,
                    )
                    &&& round.deep_view().wf(parameters)
                },
                Err(e) => initial_nodes(parameters) == Err::<Seq<NodeModel>, PlacementError>(e),
            },
    {
        let board = match Board::new(parameters) {
            Ok(board) => board,
            Err(e) => {
                return Err(e);
            },
        };
        Ok(
            Round {
                board,
                active_player: parameters.init_player,
                throwing_player: parameters.init_player,
                cards_played: 0,
                phase: parameters.init_phase,
                phase_count: 0,
                card_count: 0,
                robber_count: 0,
                action: None,
                outcome: None,
            },
        )
    }

    /// A game at its initial position. The pieces of the initial position
    /// are placed by the rules of placement; the first piece that cannot be
    /// placed ends the set-up with its error.
    pub fn initialize_from_parameters(parameters: GameParameters) -> (result: Result<
        Game,
        PlacementError,
    >)
        requires
            parameters.board_wf(),
        ensures
            match result {
                Ok(game) => {
                    &&& initial_nodes(&parameters) is Ok
                    &&& game.deep_view() == (GameModel {
                        parameters,
                        round: initial_round(&parameters, initial_nodes(&parameters)->Ok_0),
                    })
                    &&& game.deep_view().wf()
                },
                Err(e) => initial_nodes(&parameters) == Err::<Seq<NodeModel>, PlacementError>(e),
            },
    {
        let round = match Game::initialize_round(&parameters) {
            Ok(round) => round,
            Err(e) => {
                return Err(e);
            },
        };
        Ok(Game { parameters, round })
    }

    /// A game at the initial position that the parameters describe.
    pub fn new(parameters: GameParameters) -> (result: Result<Game, PlacementError>)
        requires
            parameters.board_wf(),
        ensures
            match result {
                Ok(game) => {
                    &&& initial_nodes(&parameters) is Ok
                    &&& game.deep_view() == (GameModel {
                        parameters,
                        round: initial_round(&parameters, initial_nodes(&parameters)->Ok_0),
                    })
                    &&& game.deep_view().wf()
                },
                Err(e) => initial_nodes(&parameters) == Err::<Seq<NodeModel>, PlacementError>(e),
            },
    {
        Game::initialize_from_parameters(parameters)
    }

    /// Whether the game is won: the active player has the points that win
    /// the game.
    pub fn is_won(&self) -> (won: bool)
        requires
            self.deep_view().wf(),
        ensures
            won == (self.round.board.scores[self.round.active_player as int]
                >= self.parameters.n_winning_vp),
    {
        self.round.board.scores[self.round.active_player as usize] >= self.parameters.n_winning_vp
    }
}

} // verus!
