use vstd::prelude::*;
use crate::backend::logging::log_entry::{LogEntry, LogEntryModel};
use crate::backend::logging::player_summary::{
    can_summarize, summary_of, PlayerSummary, PlayerSummaryModel,
};
use crate::backend::round::rules::{last_at_top, seq_max};
use crate::backend::setup::board::copy_name;
use crate::backend::setup::game::{Game, GameModel};

verus! {

/// The result of a game: how many steps it took and how long, who leads at
/// the end, and a summary of every player.
#[derive(Clone, Debug)]
pub struct Summary {
    pub game_title: Option<String>,
    pub n_rounds: usize,
    pub winner_id: u32,
    /// Milliseconds that the steps of the log took, all in all.
    pub duration: u128,
    pub player_summaries: Vec<PlayerSummary>,
}

/// The mathematical content of a [`Summary`].
pub struct SummaryModel {
    pub game_title: Option<Seq<char>>,
    pub n_rounds: usize,
    pub winner_id: u32,
    pub duration: u128,
    pub player_summaries: Seq<PlayerSummaryModel>,
}

impl DeepView for Summary {
    type V = SummaryModel;

    open spec fn deep_view(&self) -> SummaryModel {
        SummaryModel {
            game_title: self.game_title.deep_view(),
            n_rounds: self.n_rounds,
            winner_id: self.winner_id,
            duration: self.duration,
            player_summaries: self.player_summaries.deep_view(),
        }
    }
}

/// The milliseconds that the first `count` steps of the log took; a step
/// that is under way counts for nothing.
pub open spec fn time_taken(log: Seq<LogEntryModel>, count: int) -> int
    decreases count,
{
    if count <= 0 {
        0
    } else {
        time_taken(log, count - 1) + match log[count - 1].duration_ms {
            Some(duration) => duration as int,
            None => 0,
        }
    }
}

/// A number of milliseconds as a duration: the number itself, or the
/// largest duration where it is beyond that.
pub open spec fn as_duration(milliseconds: int) -> u128 {
    if milliseconds > u128::MAX {
        u128::MAX
    } else {
        milliseconds as u128
    }
}

/// The summaries of the first `count` players.
pub open spec fn summaries_of(log: Seq<LogEntryModel>, count: int) -> Seq<PlayerSummaryModel> {
    Seq::new(count as nat, |player: int| summary_of(log, player as usize))
}

/// Whether a summary of the game can be drawn from the log: the game has a
/// score for its first player at least, and a summary of every player can
/// be drawn.
pub open spec fn can_sum_up(game: GameModel, log: Seq<LogEntryModel>) -> bool {
    &&& 1 <= game.round.board.scores.len() <= u32::MAX
    &&& forall|player: usize| player < game.parameters.n_players ==> can_summarize(log, player)
}

/// The summary of the game at the end of the log. The player who leads is
/// the player with the highest score, the last of them where several have
/// it.
pub open spec fn result_of(game: GameModel, log: Seq<LogEntryModel>) -> SummaryModel {
    SummaryModel {
        game_title: game.parameters.title.deep_view(),
        n_rounds: log.len() as usize,
        winner_id: last_at_top(game.round.board.scores) as u32,
        duration: as_duration(time_taken(log, log.len() as int)),
        player_summaries: summaries_of(log, game.parameters.n_players as int),
    }
}

/// The time taken is never negative and grows with the steps.
pub proof fn lemma_time_taken_grows(log: Seq<LogEntryModel>, count: int)
    ensures
        0 <= time_taken(log, count),
        count > 0 ==> time_taken(log, count - 1) <= time_taken(log, count),
    decreases count,
{
    if count > 0 {
        lemma_time_taken_grows(log, count - 1);
    }
}

/// The position of the highest score, the last where several are highest.
fn leader(scores: &Vec<u32>) -> (at: usize)
    requires
        1 <= scores.len(),
    ensures
        at == last_at_top(scores@),
        at < scores.len(),
{
    let mut top: u32 = 0;
    let mut at: usize = 0;
    let mut i: usize = 0;
    while i < scores.len()
        invariant
            i <= scores.len(),
            top == seq_max(scores@.take(i as int)),
            at == last_at_top(scores@.take(i as int)),
            at <= i,
            i > 0 ==> at < i,
        decreases scores.len() - i,
    {
        assert(scores@.take(i + 1).drop_last() =~= scores@.take(i as int));
        if scores[i] >= top {
            top = scores[i];
            at = i;
        }
        i = i + 1;
    }
    assert(scores@.take(scores.len() as int) =~= scores@);
    at
}

/// The milliseconds that the steps of the log took, all in all.
fn total_duration(log: &Vec<LogEntry>) -> (total: u128)
    ensures
        total == as_duration(time_taken(log.deep_view(), log.len() as int)),
{
    let ghost model = log.deep_view();
    let mut total: u128 = 0;
    let mut i: usize = 0;
    while i < log.len()
        invariant
            i <= log.len(),
            model == log.deep_view(),
            model.len() == log.len(),
            total == as_duration(time_taken(model, i as int)),
        decreases log.len() - i,
    {
        assert(model[i as int] == log[i as int].deep_view());
        proof {
            lemma_time_taken_grows(model, i as int);
        }
        let step: u128 = match log[i].duration_ms {
            Some(duration) => duration,
            None => 0,
        };
        if total > u128::MAX - step {
            total = u128::MAX;
        } else {
            total = total + step;
        }
        i = i + 1;
    }
    total
}

impl Summary {
    /// Whether a summary of the game can be drawn from the log.
    pub fn covers(game: &Game, log: &Vec<LogEntry>) -> (ok: bool)
        ensures
            ok == can_sum_up(game.deep_view(), log.deep_view()),
    {
        let scores = game.round.board.scores.len();
        if scores < 1 || scores > u32::MAX as usize {
            return false;
        }
        let mut player: usize = 0;
        let players = game.parameters.n_players as usize;
        while player < players
            invariant
                player <= players,
                players == game.parameters.n_players,
                forall|p: usize| p < player ==> can_summarize(log.deep_view(), p),
            decreases players - player,
        {
            if !PlayerSummary::covers(log, player) {
                return false;
            }
            player = player + 1;
        }
        true
    }

    /// The summary of the game at the end of the log.
    pub fn new(game: &Game, log: &Vec<LogEntry>) -> (summary: Self)
        requires
            can_sum_up(game.deep_view(), log.deep_view()),
        ensures
            summary.deep_view() == result_of(game.deep_view(), log.deep_view()),
    {
        let winner_id = leader(&game.round.board.scores) as u32;
        let duration = total_duration(log);
        let mut player_summaries: Vec<PlayerSummary> = Vec::new();
        let players = game.parameters.n_players as usize;
        let mut player: usize = 0;
        while player < players
            invariant
                player <= players,
                players == game.parameters.n_players,
                can_sum_up(game.deep_view(), log.deep_view()),
                player_summaries.len() == player,
                player_summaries.deep_view() == summaries_of(log.deep_view(), player as int),
            decreases players - player,
        {
            let ghost before = player_summaries.deep_view();
            let one = PlayerSummary::new(log, player);
            player_summaries.push(one);
            assert(player_summaries.deep_view() =~= summaries_of(
                log.deep_view(),
                player as int + 1,
            )) by {
                let after = player_summaries.deep_view();
                assert(after.len() == player + 1);
                assert forall|p: int| 0 <= p < after.len() implies after[p] == summaries_of(
                    log.deep_view(),
                    player as int + 1,
                )[p] by {
                    assert(after[p] == player_summaries[p].deep_view());
                    if p < player {
                        assert(before[p] == summaries_of(log.deep_view(), player as int)[p]);
                    }
                }
            }
            player = player + 1;
        }
        Summary {
            game_title: copy_name(&game.parameters.title),
            n_rounds: log.len(),
            winner_id,
            duration,
            player_summaries,
        }
    }
}

} // verus!
