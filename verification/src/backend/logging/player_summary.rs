use vstd::prelude::*;
use crate::backend::logging::log_entry::{LogEntry, LogEntryModel};
use crate::backend::round::action::{copy_action, Action, ActionModel};
use crate::backend::round::outcome::Outcome;
use crate::backend::setup::board::copy_vec;
use crate::backend::setup::edge::{canonical_edge, make_edge};
use crate::backend::setup::node::{Node, NodeModel};
use crate::backend::setup::node_status::NodeStatus;

verus! {

/// What one player did and had in the course of a game: the player's
/// scores, actions with their outcomes, budgets and resources drawn, each
/// with the id of the step after which it stood, and the player's
/// settlements, cities and roads at the end.
#[derive(Clone, Debug)]
pub struct PlayerSummary {
    pub player_id: usize,
    pub scores: Vec<(u32, u32)>,
    pub actions_and_outcomes: Vec<(u32, Option<Action>, Option<Outcome>)>,
    pub budgets: Vec<(u32, Vec<u32>)>,
    pub drawn_resources: Vec<(u32, Vec<u32>)>,
    pub settlements: Vec<u32>,
    pub cities: Vec<u32>,
    pub roads: Vec<(u32, u32)>,
}

/// The mathematical content of a [`PlayerSummary`].
pub struct PlayerSummaryModel {
    pub player_id: usize,
    pub scores: Seq<(u32, u32)>,
    pub actions_and_outcomes: Seq<(u32, Option<ActionModel>, Option<Outcome>)>,
    pub budgets: Seq<(u32, Seq<u32>)>,
    pub drawn_resources: Seq<(u32, Seq<u32>)>,
    pub settlements: Seq<u32>,
    pub cities: Seq<u32>,
    pub roads: Seq<(u32, u32)>,
}

/// A list of steps with their actions and outcomes, as mathematical values.
pub open spec fn moves_model(list: Seq<(u32, Option<Action>, Option<Outcome>)>) -> Seq<
    (u32, Option<ActionModel>, Option<Outcome>),
> {
    Seq::new(list.len(), |i: int| (list[i].0, list[i].1.deep_view(), list[i].2))
}

/// A list of steps with a row of numbers each, as mathematical values.
pub open spec fn rows_model(list: Seq<(u32, Vec<u32>)>) -> Seq<(u32, Seq<u32>)> {
    Seq::new(list.len(), |i: int| (list[i].0, list[i].1@))
}

impl DeepView for PlayerSummary {
    type V = PlayerSummaryModel;

    open spec fn deep_view(&self) -> PlayerSummaryModel {
        PlayerSummaryModel {
            player_id: self.player_id,
            scores: self.scores@,
            actions_and_outcomes: moves_model(self.actions_and_outcomes@),
            budgets: rows_model(self.budgets@),
            drawn_resources: rows_model(self.drawn_resources@),
            settlements: self.settlements@,
            cities: self.cities@,
            roads: self.roads@,
        }
    }
}

/// The ids of those of the first `count` nodes that `player` has settled,
/// in the order of the nodes.
pub open spec fn settlements_of(nodes: Seq<NodeModel>, player: usize, count: int) -> Seq<u32>
    decreases count,
{
    if count <= 0 {
        Seq::empty()
    } else if nodes[count - 1].node_status matches NodeStatus::Settled(owner) && owner == player {
        settlements_of(nodes, player, count - 1).push(nodes[count - 1].id)
    } else {
        settlements_of(nodes, player, count - 1)
    }
}

/// The ids of those of the first `count` nodes on which `player` has a
/// city, in the order of the nodes.
pub open spec fn cities_of(nodes: Seq<NodeModel>, player: usize, count: int) -> Seq<u32>
    decreases count,
{
    if count <= 0 {
        Seq::empty()
    } else if nodes[count - 1].node_status matches NodeStatus::Citied(owner) && owner == player {
        cities_of(nodes, player, count - 1).push(nodes[count - 1].id)
    } else {
        cities_of(nodes, player, count - 1)
    }
}

/// The edges of those of the first `count` roads at `node` that belong to
/// `player`, in the order of the node's list.
pub open spec fn node_roads_of(node: NodeModel, player: usize, count: int) -> Seq<(u32, u32)>
    decreases count,
{
    if count <= 0 {
        Seq::empty()
    } else if node.road_list()[count - 1].0 == player {
        node_roads_of(node, player, count - 1).push(
            canonical_edge(node.id, node.road_list()[count - 1].1),
        )
    } else {
        node_roads_of(node, player, count - 1)
    }
}

/// The edges of the roads of `player` as the first `count` nodes list
/// them, node by node: a road is listed at both its ends, so its edge
/// comes twice.
pub open spec fn roads_listed(nodes: Seq<NodeModel>, player: usize, count: int) -> Seq<(u32, u32)>
    decreases count,
{
    if count <= 0 {
        Seq::empty()
    } else {
        roads_listed(nodes, player, count - 1) + node_roads_of(
            nodes[count - 1],
            player,
            nodes[count - 1].road_list().len() as int,
        )
    }
}

/// The first `count` entries of `list` without repeats: of equal entries
/// the first stays.
pub open spec fn first_occurrences(list: Seq<(u32, u32)>, count: int) -> Seq<(u32, u32)>
    decreases count,
{
    if count <= 0 {
        Seq::empty()
    } else if first_occurrences(list, count - 1).contains(list[count - 1]) {
        first_occurrences(list, count - 1)
    } else {
        first_occurrences(list, count - 1).push(list[count - 1])
    }
}

/// The roads of `player` on the nodes, each edge once, in the order in
/// which the nodes first list them.
pub open spec fn roads_of(nodes: Seq<NodeModel>, player: usize) -> Seq<(u32, u32)> {
    let listed = roads_listed(nodes, player, nodes.len() as int);
    first_occurrences(listed, listed.len() as int)
}

/// Whether the step of `entry` was taken with `player` as the active
/// player afterwards.
pub open spec fn is_step_of(entry: LogEntryModel, player: usize) -> bool {
    entry.round matches Some(round) && round.active_player == player
}

/// Whether the round of `entry` has a score, a budget and a count of drawn
/// resources for `player`.
pub open spec fn holds_player(entry: LogEntryModel, player: usize) -> bool {
    entry.round matches Some(round) ==> player < round.board.scores.len() && player
        < round.board.budgets.len() && player < round.board.total_drawn_resources.len()
}

/// Whether a summary of `player` can be drawn from the log: the log has
/// an entry, and every step of the player has the player's numbers.
pub open spec fn can_summarize(log: Seq<LogEntryModel>, player: usize) -> bool {
    &&& log.len() >= 1
    &&& forall|i: int|
        0 <= i < log.len() && is_step_of(#[trigger] log[i], player) ==> holds_player(log[i], player)
}

impl PlayerSummaryModel {
    /// The summary with the step of `entry` added: the action and its
    /// outcome, and the player's score, budget and drawn resources after
    /// the step.
    pub open spec fn with_step(self, entry: LogEntryModel) -> PlayerSummaryModel {
        let round = entry.round->0;
        let player = self.player_id as int;
        PlayerSummaryModel {
            scores: self.scores.push((entry.log_id, round.board.scores[player])),
            actions_and_outcomes: self.actions_and_outcomes.push(
                (entry.log_id, round.action, round.outcome),
            ),
            budgets: self.budgets.push((entry.log_id, round.board.budgets[player])),
            drawn_resources: self.drawn_resources.push(
                (entry.log_id, round.board.total_drawn_resources[player]),
            ),
            ..self
        }
    }

    /// The summary with the player's steps among the first `count` entries
    /// of the log added, in their order.
    pub open spec fn with_steps(self, log: Seq<LogEntryModel>, count: int) -> PlayerSummaryModel
        decreases count,
    {
        if count <= 0 {
            self
        } else if is_step_of(log[count - 1], self.player_id) {
            self.with_steps(log, count - 1).with_step(log[count - 1])
        } else {
            self.with_steps(log, count - 1)
        }
    }
}

/// The summary of `player` at the end of the log, before any step is
/// added: the player's settlements, cities and roads in the round of the
/// last entry; none where that entry has no round.
pub open spec fn holdings_of(log: Seq<LogEntryModel>, player: usize) -> PlayerSummaryModel {
    let owner = player;
    let nodes = match log.last().round {
        Some(round) => round.board.nodes,
        None => Seq::empty(),
    };
    PlayerSummaryModel {
        player_id: player,
        scores: Seq::empty(),
        actions_and_outcomes: Seq::empty(),
        budgets: Seq::empty(),
        drawn_resources: Seq::empty(),
        settlements: settlements_of(nodes, owner, nodes.len() as int),
        cities: cities_of(nodes, owner, nodes.len() as int),
        roads: roads_of(nodes, owner),
    }
}

/// The summary of `player` drawn from the log: what the player holds at the
/// end, and the history of the player's steps.
pub open spec fn summary_of(log: Seq<LogEntryModel>, player: usize) -> PlayerSummaryModel {
    holdings_of(log, player).with_steps(log, log.len() as int)
}

/// Whether `edges` holds `edge`.
fn holds_edge(edges: &Vec<(u32, u32)>, edge: (u32, u32)) -> (found: bool)
    ensures
        found == edges@.contains(edge),
{
    let mut i: usize = 0;
    while i < edges.len()
        invariant
            i <= edges.len(),
            forall|k: int| 0 <= k < i ==> edges@[k] != edge,
        decreases edges.len() - i,
    {
        if edges[i].0 == edge.0 && edges[i].1 == edge.1 {
            assert(edges@[i as int] == edge);
            return true;
        }
        i = i + 1;
    }
    false
}

/// The edges of the list without repeats: of equal edges the first stays.
pub fn remove_duplicates(list: &Vec<(u32, u32)>) -> (kept: Vec<(u32, u32)>)
    ensures
        kept@ == first_occurrences(list@, list.len() as int),
{
    let mut kept: Vec<(u32, u32)> = Vec::new();
    let mut i: usize = 0;
    while i < list.len()
        invariant
            i <= list.len(),
            kept@ == first_occurrences(list@, i as int),
        decreases list.len() - i,
    {
        let edge = list[i];
        if !holds_edge(&kept, edge) {
            kept.push(edge);
        }
        i = i + 1;
    }
    kept
}

/// The settlements, cities and roads of `player` on the nodes.
fn holdings(nodes: &Vec<Node>, player: usize) -> (found: (Vec<u32>, Vec<u32>, Vec<(u32, u32)>))
    ensures
        found.0@ == settlements_of(nodes.deep_view(), player, nodes.len() as int),
        found.1@ == cities_of(nodes.deep_view(), player, nodes.len() as int),
        found.2@ == roads_of(nodes.deep_view(), player),
{
    let ghost model = nodes.deep_view();
    let mut settlements: Vec<u32> = Vec::new();
    let mut cities: Vec<u32> = Vec::new();
    let mut listed: Vec<(u32, u32)> = Vec::new();
    let mut i: usize = 0;
    while i < nodes.len()
        invariant
            i <= nodes.len(),
            model == nodes.deep_view(),
            model.len() == nodes.len(),
            settlements@ == settlements_of(model, player, i as int),
            cities@ == cities_of(model, player, i as int),
            listed@ == roads_listed(model, player, i as int),
        decreases nodes.len() - i,
    {
        let node = &nodes[i];
        assert(model[i as int] == node.deep_view());
        match node.node_status {
            NodeStatus::Settled(owner) => {
                if owner as usize == player {
                    settlements.push(node.id);
                }
            },
            NodeStatus::Citied(owner) => {
                if owner as usize == player {
                    cities.push(node.id);
                }
            },
            _ => {},
        }
        let ghost before = listed@;
        match &node.roads {
            Some(roads) => {
                let mut j: usize = 0;
                while j < roads.len()
                    invariant
                        j <= roads.len(),
                        node.deep_view().road_list() == roads@,
                        listed@ == before + node_roads_of(node.deep_view(), player, j as int),
                    decreases roads.len() - j,
                {
                    if roads[j].0 as usize == player {
                        listed.push(make_edge(node.id, roads[j].1));
                        assert(listed@ =~= before + node_roads_of(
                            node.deep_view(),
                            player,
                            j as int + 1,
                        ));
                    }
                    j = j + 1;
                }
            },
            None => {
                assert(listed@ =~= before + node_roads_of(node.deep_view(), player, 0));
            },
        }
        i = i + 1;
    }
    let roads = remove_duplicates(&listed);
    (settlements, cities, roads)
}

impl PlayerSummary {
    /// Whether a summary of player `player_id` can be drawn from the log.
    pub fn covers(log: &Vec<LogEntry>, player_id: usize) -> (ok: bool)
        ensures
            ok == can_summarize(log.deep_view(), player_id),
    {
        if log.len() == 0 {
            return false;
        }
        let ghost model = log.deep_view();
        let mut i: usize = 0;
        while i < log.len()
            invariant
                i <= log.len(),
                model == log.deep_view(),
                model.len() == log.len(),
                forall|k: int|
                    0 <= k < i && is_step_of(#[trigger] model[k], player_id) ==> holds_player(
                        model[k],
                        player_id,
                    ),
            decreases log.len() - i,
        {
            assert(model[i as int] == log[i as int].deep_view());
            match &log[i].round {
                Some(round) => {
                    if round.active_player as usize == player_id && !(player_id
                        < round.board.scores.len() && player_id < round.board.budgets.len()
                        && player_id < round.board.total_drawn_resources.len()) {
                        assert(is_step_of(model[i as int], player_id));
                        assert(!holds_player(model[i as int], player_id));
                        return false;
                    }
                },
                None => {},
            }
            i = i + 1;
        }
        true
    }

    /// The summary of player `player_id` drawn from the log of a game.
    pub fn new(log: &Vec<LogEntry>, player_id: usize) -> (summary: Self)
        requires
            can_summarize(log.deep_view(), player_id),
        ensures
            summary.deep_view() == summary_of(log.deep_view(), player_id),
    {
        let ghost model = log.deep_view();
        let last = &log[log.len() - 1];
        assert(model.last() == last.deep_view());
        let (settlements, cities, roads) = match &last.round {
            Some(round) => holdings(&round.board.nodes, player_id),
            None => (Vec::new(), Vec::new(), Vec::new()),
        };
        let mut summary = PlayerSummary {
            player_id,
            scores: Vec::new(),
            actions_and_outcomes: Vec::new(),
            budgets: Vec::new(),
            drawn_resources: Vec::new(),
            settlements,
            cities,
            roads,
        };
        assert(summary.deep_view() =~= holdings_of(model, player_id)) by {
            assert(summary.deep_view().actions_and_outcomes =~= Seq::empty());
            assert(summary.deep_view().budgets =~= Seq::empty());
            assert(summary.deep_view().drawn_resources =~= Seq::empty());
        }
        let ghost start = summary.deep_view();
        let mut i: usize = 0;
        while i < log.len()
            invariant
                i <= log.len(),
                model == log.deep_view(),
                model.len() == log.len(),
                can_summarize(model, player_id),
                start.player_id == player_id,
                summary.player_id == player_id,
                summary.deep_view() == start.with_steps(model, i as int),
            decreases log.len() - i,
        {
            let entry = &log[i];
            assert(model[i as int] == entry.deep_view());
            match &entry.round {
                Some(round) => {
                    if round.active_player as usize == player_id {
                        assert(is_step_of(model[i as int], player_id));
                        assert(holds_player(model[i as int], player_id));
                        let ghost before = summary.deep_view();
                        let action = match &round.action {
                            Some(action) => Some(copy_action(action)),
                            None => None,
                        };
                        summary.actions_and_outcomes.push((entry.log_id, action, round.outcome));
                        summary.scores.push((entry.log_id, round.board.scores[player_id]));
                        let drawn = copy_vec(&round.board.total_drawn_resources[player_id]);
                        let budget = copy_vec(&round.board.budgets[player_id]);
                        summary.drawn_resources.push((entry.log_id, drawn));
                        summary.budgets.push((entry.log_id, budget));
                        proof {
                            let after = summary.deep_view();
                            let step = before.with_step(model[i as int]);
                            let board = round.board.deep_view();
                            assert(board.budgets[player_id as int]
                                == round.board.budgets[player_id as int]@);
                            assert(board.total_drawn_resources[player_id as int]
                                == round.board.total_drawn_resources[player_id as int]@);
                            assert(after.actions_and_outcomes =~= step.actions_and_outcomes);
                            assert(after.budgets =~= step.budgets);
                            assert(after.drawn_resources =~= step.drawn_resources);
                            assert(after.scores =~= step.scores);
                            assert(after == step);
                        }
                    }
                },
                None => {},
            }
            i = i + 1;
        }
        summary
    }
}

} // verus!
