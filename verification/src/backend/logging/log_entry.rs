use vstd::prelude::*;
use crate::backend::round::outcome::Outcome;
use crate::backend::round::round_struct::{Round, RoundModel};

verus! {

/// One step of a game: the round as the step left it, how long the step
/// took, and how often the game has thrown the dice, robbed and drawn a
/// card up to and including the step.
#[derive(Clone, Debug)]
pub struct LogEntry {
    pub log_id: u32,
    /// The round after the step; `None` while the step is under way.
    pub round: Option<Round>,
    /// What the dice showed after the step before.
    pub prev_dice_outcome: Option<u32>,
    /// How long the step took, in milliseconds; `None` while it is under
    /// way.
    pub duration_ms: Option<u128>,
    pub count_dice_draws: u32,
    pub count_robber_draws: u32,
    pub count_card_draws: u32,
}

/// The mathematical content of a [`LogEntry`].
pub struct LogEntryModel {
    pub log_id: u32,
    pub round: Option<RoundModel>,
    pub prev_dice_outcome: Option<u32>,
    pub duration_ms: Option<u128>,
    pub count_dice_draws: u32,
    pub count_robber_draws: u32,
    pub count_card_draws: u32,
}

impl DeepView for LogEntry {
    type V = LogEntryModel;

    open spec fn deep_view(&self) -> LogEntryModel {
        LogEntryModel {
            log_id: self.log_id,
            round: self.round.deep_view(),
            prev_dice_outcome: self.prev_dice_outcome,
            duration_ms: self.duration_ms,
            count_dice_draws: self.count_dice_draws,
            count_robber_draws: self.count_robber_draws,
            count_card_draws: self.count_card_draws,
        }
    }
}

/// The entry that opens a log: the round as the set-up of the game left
/// it, the time the set-up took, and no draws yet.
pub open spec fn first_entry(round: RoundModel, duration_ms: u128) -> LogEntryModel {
    LogEntryModel {
        log_id: 0,
        round: Some(round),
        prev_dice_outcome: None,
        duration_ms: Some(duration_ms),
        count_dice_draws: 0,
        count_robber_draws: 0,
        count_card_draws: 0,
    }
}

impl LogEntryModel {
    /// Whether the entry counts no more draws of any kind than steps were
    /// taken up to it.
    pub open spec fn counts_within_steps(self) -> bool {
        &&& self.count_dice_draws <= self.log_id
        &&& self.count_robber_draws <= self.log_id
        &&& self.count_card_draws <= self.log_id
    }

    /// Whether the entry can take one more draw of each kind.
    pub open spec fn has_room(self) -> bool {
        &&& self.count_dice_draws < u32::MAX
        &&& self.count_robber_draws < u32::MAX
        &&& self.count_card_draws < u32::MAX
    }

    /// The entry of the step after this one, while that step is under way:
    /// it has the next id, and carries over the counts and what the dice
    /// showed.
    pub open spec fn followed(self) -> LogEntryModel {
        LogEntryModel {
            log_id: (self.log_id + 1) as u32,
            round: None,
            prev_dice_outcome: self.prev_dice_outcome,
            duration_ms: None,
            count_dice_draws: self.count_dice_draws,
            count_robber_draws: self.count_robber_draws,
            count_card_draws: self.count_card_draws,
        }
    }

    /// This entry closed with the round as its step left it: the dice count
    /// as thrown where they show another sum than before, a robbery and a
    /// drawn card count by the outcome of the round.
    pub open spec fn closed(self, round: RoundModel, duration_ms: u128) -> LogEntryModel {
        LogEntryModel {
            log_id: self.log_id,
            round: Some(round),
            prev_dice_outcome: round.board.dice_outcome,
            duration_ms: Some(duration_ms),
            count_dice_draws: if round.board.dice_outcome != self.prev_dice_outcome {
                (self.count_dice_draws + 1) as u32
            } else {
                self.count_dice_draws
            },
            count_robber_draws: if round.outcome matches Some(Outcome::RobberOutcome(_)) {
                (self.count_robber_draws + 1) as u32
            } else {
                self.count_robber_draws
            },
            count_card_draws: if round.outcome matches Some(Outcome::DrawCardOutcome(_)) {
                (self.count_card_draws + 1) as u32
            } else {
                self.count_card_draws
            },
        }
    }
}

/// The counts of a log keep within its steps: the first entry does, and
/// where an entry does, the entry that follows it has room for the draws of
/// its step and keeps within its steps once it is closed.
pub proof fn lemma_counts_keep_within_steps(
    start: RoundModel,
    entry: LogEntryModel,
    round: RoundModel,
    started_ms: u128,
    duration_ms: u128,
)
    requires
        entry.counts_within_steps(),
        entry.log_id < u32::MAX,
    ensures
        first_entry(start, started_ms).counts_within_steps(),
        entry.followed().has_room(),
        entry.followed().closed(round, duration_ms).counts_within_steps(),
        entry.followed().closed(round, duration_ms).log_id == entry.log_id + 1,
{
}

/// The log of a game that has just been set up: one entry, with the round
/// as the set-up left it and the time the set-up took.
pub fn initialize_log(round: Round, duration_ms: u128) -> (log: Vec<LogEntry>)
    ensures
        log.deep_view() == seq![first_entry(round.deep_view(), duration_ms)],
{
    let ghost model = round.deep_view();
    let entry = LogEntry {
        log_id: 0,
        round: Some(round),
        prev_dice_outcome: None,
        duration_ms: Some(duration_ms),
        count_dice_draws: 0,
        count_robber_draws: 0,
        count_card_draws: 0,
    };
    let mut log: Vec<LogEntry> = Vec::new();
    log.push(entry);
    assert(log.deep_view() =~= seq![first_entry(model, duration_ms)]);
    log
}

impl LogEntry {
    /// The entry of the step that follows `previous`, while that step is
    /// under way.
    pub fn new(previous: &LogEntry) -> (entry: Self)
        requires
            previous.log_id < u32::MAX,
        ensures
            entry.deep_view() == previous.deep_view().followed(),
    {
        LogEntry {
            log_id: previous.log_id + 1,
            round: None,
            prev_dice_outcome: previous.prev_dice_outcome,
            duration_ms: None,
            count_dice_draws: previous.count_dice_draws,
            count_robber_draws: previous.count_robber_draws,
            count_card_draws: previous.count_card_draws,
        }
    }

    /// Closes the entry with the round as its step left it and with the
    /// time the step took.
    pub fn close(&mut self, round: Round, duration_ms: u128)
        requires
            old(self).deep_view().has_room(),
        ensures
            final(self).deep_view() == old(self).deep_view().closed(
                round.deep_view(),
                duration_ms,
            ),
    {
        let dice_outcome = round.board.dice_outcome;
        if dice_outcome != self.prev_dice_outcome {
            self.count_dice_draws = self.count_dice_draws + 1;
        }
        self.prev_dice_outcome = dice_outcome;
        match round.outcome {
            Some(Outcome::RobberOutcome(_)) => {
                self.count_robber_draws = self.count_robber_draws + 1;
            },
            Some(Outcome::DrawCardOutcome(_)) => {
                self.count_card_draws = self.count_card_draws + 1;
            },
            _ => {},
        }
        self.duration_ms = Some(duration_ms);
        self.round = Some(round);
    }
}

} // verus!
