use vstd::prelude::*;
use crate::backend::round::action::{Action, ActionModel, Quote};
use crate::backend::round::budget::{can_afford, covers};
use crate::backend::round::cards::CardType;
use crate::backend::round::phase::Phase;
use crate::backend::round::rules::same_edge;
use crate::backend::setup::board::{Board, BoardModel};
use crate::backend::setup::dice::seq_sum;
use crate::backend::setup::edge::make_edge;
use crate::backend::setup::game::{Game, GameModel};
use crate::backend::setup::game_parameters::N_CARD_KINDS;
use crate::backend::setup::node::{Node, NodeModel};
use crate::backend::setup::node_status::NodeStatus;
use crate::backend::setup::player::PlayerType;
use crate::backend::setup::road::{node_has_road_of, node_has_road_to};
use crate::backend::setup::tile::TileModel;

verus! {

/// The pairs of `node` and each of the neighbours that its first `count`
/// neighbour entries name.
pub open spec fn neighbor_pairs(node: NodeModel, count: int) -> Seq<(u32, u32)>
    decreases count,
{
    if count <= 0 {
        Seq::empty()
    } else {
        let before = neighbor_pairs(node, count - 1);
        match node.neighbors[count - 1] {
            Some(neighbor) => before.push((node.id, neighbor)),
            None => before,
        }
    }
}

/// The set-up moves open on the first `count` nodes: a settlement on a free
/// node with a road to any of its neighbours.
pub open spec fn setup_pairs(nodes: Seq<NodeModel>, count: int) -> Seq<(u32, u32)>
    decreases count,
{
    if count <= 0 {
        Seq::empty()
    } else {
        let before = setup_pairs(nodes, count - 1);
        let node = nodes[count - 1];
        if node.node_status is Free {
            before + neighbor_pairs(node, node.neighbors.len() as int)
        } else {
            before
        }
    }
}

/// Whether `player` may start a road at `node`: the player has built on the
/// node or one of the player's roads ends there.
pub open spec fn reaches(node: NodeModel, player: u32) -> bool {
    node.node_status.owner() == Some(player) || node.has_road_of(player)
}

/// The roads that can be built from `node` along its first `count`
/// neighbour entries: to every neighbour to which no road leads yet.
pub open spec fn open_roads_of(node: NodeModel, count: int) -> Seq<(u32, u32)>
    decreases count,
{
    if count <= 0 {
        Seq::empty()
    } else {
        let before = open_roads_of(node, count - 1);
        match node.neighbors[count - 1] {
            Some(neighbor) => if node.has_road_to(neighbor) {
                before
            } else {
                before.push((node.id, neighbor))
            },
            None => before,
        }
    }
}

/// The roads that `player` can build from the first `count` nodes: from
/// every node that the player reaches, to every neighbour to which no road
/// leads yet.
pub open spec fn open_roads(nodes: Seq<NodeModel>, player: u32, count: int) -> Seq<(u32, u32)>
    decreases count,
{
    if count <= 0 {
        Seq::empty()
    } else {
        let before = open_roads(nodes, player, count - 1);
        let node = nodes[count - 1];
        if reaches(node, player) {
            before + open_roads_of(node, node.neighbors.len() as int)
        } else {
            before
        }
    }
}

/// The nodes among the first `count` on which `player` can build a
/// settlement: free nodes at which a road of the player ends.
pub open spec fn settlement_sites(nodes: Seq<NodeModel>, player: u32, count: int) -> Seq<u32>
    decreases count,
{
    if count <= 0 {
        Seq::empty()
    } else {
        let before = settlement_sites(nodes, player, count - 1);
        let node = nodes[count - 1];
        if node.node_status is Free && node.has_road_of(player) {
            before.push(node.id)
        } else {
            before
        }
    }
}

/// The nodes among the first `count` on which `player` can build a city:
/// the nodes that the player has settled.
pub open spec fn city_sites(nodes: Seq<NodeModel>, player: u32, count: int) -> Seq<u32>
    decreases count,
{
    if count <= 0 {
        Seq::empty()
    } else {
        let before = city_sites(nodes, player, count - 1);
        let node = nodes[count - 1];
        if node.node_status == NodeStatus::Settled(player) {
            before.push(node.id)
        } else {
            before
        }
    }
}

/// Adds an action to a list of actions.
pub fn push_action(actions: &mut Vec<Action>, action: Action)
    ensures
        final(actions).deep_view() == old(actions).deep_view().push(action.deep_view()),
{
    let ghost before = actions.deep_view();
    let ghost model = action.deep_view();
    actions.push(action);
    assert(actions.deep_view() =~= before.push(model));
}

/// The set-up moves open on the nodes.
pub fn find_setup_pairs(nodes: &Vec<Node>) -> (pairs: Vec<(u32, u32)>)
    ensures
        pairs@ == setup_pairs(nodes.deep_view(), nodes.len() as int),
{
    let mut pairs: Vec<(u32, u32)> = Vec::new();
    let ghost model = nodes.deep_view();
    let mut i: usize = 0;
    while i < nodes.len()
        invariant
            i <= nodes.len(),
            model == nodes.deep_view(),
            pairs@ == setup_pairs(model, i as int),
        decreases nodes.len() - i,
    {
        let node = &nodes[i];
        assert(model[i as int] == node.deep_view());
        let free = match node.node_status {
            NodeStatus::Free => true,
            _ => false,
        };
        if free {
            let ghost base = pairs@;
            let mut j: usize = 0;
            while j < node.neighbors.len()
                invariant
                    j <= node.neighbors.len(),
                    pairs@ == base + neighbor_pairs(node.deep_view(), j as int),
                decreases node.neighbors.len() - j,
            {
                match node.neighbors[j] {
                    Some(neighbor) => {
                        pairs.push((node.id, neighbor));
                    },
                    None => {},
                }
                j = j + 1;
                assert(pairs@ =~= base + neighbor_pairs(node.deep_view(), j as int));
            }
        }
        i = i + 1;
    }
    pairs
}

/// The roads that `player` can build.
pub fn get_legal_roads(nodes: &Vec<Node>, player: u32) -> (roads: Vec<(u32, u32)>)
    ensures
        roads@ == open_roads(nodes.deep_view(), player, nodes.len() as int),
{
    let mut roads: Vec<(u32, u32)> = Vec::new();
    let ghost model = nodes.deep_view();
    let mut i: usize = 0;
    while i < nodes.len()
        invariant
            i <= nodes.len(),
            model == nodes.deep_view(),
            roads@ == open_roads(model, player, i as int),
        decreases nodes.len() - i,
    {
        let node = &nodes[i];
        assert(model[i as int] == node.deep_view());
        let settled = match node.node_status {
            NodeStatus::Settled(owner) => owner == player,
            NodeStatus::Citied(owner) => owner == player,
            _ => false,
        };
        if settled || node_has_road_of(node, player) {
            let ghost base = roads@;
            let mut j: usize = 0;
            while j < node.neighbors.len()
                invariant
                    j <= node.neighbors.len(),
                    roads@ == base + open_roads_of(node.deep_view(), j as int),
                decreases node.neighbors.len() - j,
            {
                match node.neighbors[j] {
                    Some(neighbor) => {
                        if !node_has_road_to(node, neighbor) {
                            roads.push((node.id, neighbor));
                        }
                    },
                    None => {},
                }
                j = j + 1;
                assert(roads@ =~= base + open_roads_of(node.deep_view(), j as int));
            }
        }
        i = i + 1;
    }
    roads
}

/// The nodes on which `player` can build a settlement.
pub fn find_settlement_sites(nodes: &Vec<Node>, player: u32) -> (sites: Vec<u32>)
    ensures
        sites@ == settlement_sites(nodes.deep_view(), player, nodes.len() as int),
{
    let mut sites: Vec<u32> = Vec::new();
    let ghost model = nodes.deep_view();
    let mut i: usize = 0;
    while i < nodes.len()
        invariant
            i <= nodes.len(),
            model == nodes.deep_view(),
            sites@ == settlement_sites(model, player, i as int),
        decreases nodes.len() - i,
    {
        let node = &nodes[i];
        assert(model[i as int] == node.deep_view());
        let free = match node.node_status {
            NodeStatus::Free => true,
            _ => false,
        };
        if free && node_has_road_of(node, player) {
            sites.push(node.id);
        }
        i = i + 1;
    }
    sites
}

/// The nodes on which `player` can build a city.
pub fn find_city_sites(nodes: &Vec<Node>, player: u32) -> (sites: Vec<u32>)
    ensures
        sites@ == city_sites(nodes.deep_view(), player, nodes.len() as int),
{
    let mut sites: Vec<u32> = Vec::new();
    let ghost model = nodes.deep_view();
    let mut i: usize = 0;
    while i < nodes.len()
        invariant
            i <= nodes.len(),
            model == nodes.deep_view(),
            sites@ == city_sites(model, player, i as int),
        decreases nodes.len() - i,
    {
        let node = &nodes[i];
        assert(model[i as int] == node.deep_view());
        let mine = match node.node_status {
            NodeStatus::Settled(owner) => owner == player,
            _ => false,
        };
        if mine {
            sites.push(node.id);
        }
        i = i + 1;
    }
    sites
}

/// A family of actions that differ in one resource: trades with the bank
/// that supply a resource, trades at a harbor of a kind that supply a
/// resource, plenty cards with a first resource, monopoly cards, and quotes
/// of a player that supply a quantity of a resource and demand a quantity.
#[derive(Clone, Copy, Debug)]
pub enum Row {
    Bank(u32),
    Harbor(u32, u32),
    Plenty(u32),
    Monopoly,
    Quotes(usize, u32, u32, u32),
}

impl Row {
    /// The action of the family for resource `resource`.
    pub open spec fn action(self, resource: u32) -> ActionModel {
        match self {
            Row::Bank(supplied) => ActionModel::BankTrade(supplied, resource),
            Row::Harbor(kind, supplied) => ActionModel::HarborTrade(kind, supplied, resource),
            Row::Plenty(first) => ActionModel::CardPlay(CardType::PlentyCard(first, resource)),
            Row::Monopoly => ActionModel::CardPlay(CardType::MonopolyCard(resource)),
            Row::Quotes(player, supplied, quantity, demanded) => ActionModel::TradeQuote(
                Quote {
                    quoting_player: player,
                    resource_supplied: supplied,
                    quantity_supplied: quantity,
                    resource_demanded: resource,
                    quantity_demanded: demanded,
                },
            ),
        }
    }

    /// The actions of the family for the first `count` resources.
    pub open spec fn actions(self, count: int) -> Seq<ActionModel>
        decreases count,
    {
        if count <= 0 {
            Seq::empty()
        } else {
            self.actions(count - 1).push(self.action((count - 1) as u32))
        }
    }

    /// The action of the family for resource `resource`.
    pub fn make(&self, resource: u32) -> (action: Action)
        ensures
            action.deep_view() == self.action(resource),
    {
        match self {
            Row::Bank(supplied) => Action::BankTrade(*supplied, resource),
            Row::Harbor(kind, supplied) => Action::HarborTrade(*kind, *supplied, resource),
            Row::Plenty(first) => Action::CardPlay(CardType::PlentyCard(*first, resource)),
            Row::Monopoly => Action::CardPlay(CardType::MonopolyCard(resource)),
            Row::Quotes(player, supplied, quantity, demanded) => Action::TradeQuote(
                Quote {
                    quoting_player: *player,
                    resource_supplied: *supplied,
                    quantity_supplied: *quantity,
                    resource_demanded: resource,
                    quantity_demanded: *demanded,
                },
            ),
        }
    }
}

/// Adds the actions of a family for each of `n_resources` resources.
pub fn push_row(actions: &mut Vec<Action>, row: Row, n_resources: u32)
    ensures
        final(actions).deep_view() == old(actions).deep_view() + row.actions(n_resources as int),
{
    let ghost base = actions.deep_view();
    let mut resource: u32 = 0;
    assert(actions.deep_view() =~= base + row.actions(0));
    while resource < n_resources
        invariant
            resource <= n_resources,
            actions.deep_view() == base + row.actions(resource as int),
        decreases n_resources - resource,
    {
        push_action(actions, row.make(resource));
        resource = resource + 1;
        assert(actions.deep_view() =~= base + row.actions(resource as int));
    }
}

/// The quotes by which `player` offers up to `quantities - 1` cards of the
/// resource `supplied`: for each quantity supplied, each quantity demanded
/// from one to three, and each resource demanded.
pub open spec fn quotes_of(player: usize, supplied: u32, n_resources: int, quantities: int) -> Seq<
    ActionModel,
>
    decreases quantities,
{
    if quantities <= 0 {
        Seq::empty()
    } else {
        let quantity = (quantities - 1) as u32;
        quotes_of(player, supplied, n_resources, quantities - 1) + Row::Quotes(
            player,
            supplied,
            quantity,
            1,
        ).actions(n_resources) + Row::Quotes(player, supplied, quantity, 2).actions(n_resources)
            + Row::Quotes(player, supplied, quantity, 3).actions(n_resources)
    }
}

/// The number of quantities that a player with `held` cards of a resource
/// can offer: none to three cards, but no more than the player holds.
pub open spec fn quantities_offered(held: u32) -> int {
    if held <= 3 {
        held + 1
    } else {
        4
    }
}

/// What `player` can do with the first `count` resources of `budget` in the
/// trading phase: trade four cards of a resource with the bank, and quote.
pub open spec fn resource_trades(player: usize, budget: Seq<u32>, n_resources: int, count: int) -> Seq<
    ActionModel,
>
    decreases count,
{
    if count <= 0 {
        Seq::empty()
    } else {
        let supplied = (count - 1) as u32;
        let held = budget[count - 1];
        let bank = if held >= 4 {
            Row::Bank(supplied).actions(n_resources)
        } else {
            Seq::empty()
        };
        resource_trades(player, budget, n_resources, count - 1) + bank + quotes_of(
            player,
            supplied,
            n_resources,
            quantities_offered(held),
        )
    }
}

/// The trades open at a three-for-one harbor of kind `kind`, supplying one
/// of the first `count` resources: any resource of which the player holds
/// three cards, for any resource.
pub open spec fn open_harbor_trades(kind: u32, budget: Seq<u32>, n_resources: int, count: int) -> Seq<
    ActionModel,
>
    decreases count,
{
    if count <= 0 {
        Seq::empty()
    } else {
        let before = open_harbor_trades(kind, budget, n_resources, count - 1);
        if count - 1 < budget.len() && budget[count - 1] >= 3 {
            before + Row::Harbor(kind, (count - 1) as u32).actions(n_resources)
        } else {
            before
        }
    }
}

/// The trades open to `player` at the harbor of `node`, if the node has a
/// harbor and the player has claimed it: two cards of the harbor's resource
/// for any resource, or at a harbor of no resource three cards of any
/// resource.
pub open spec fn node_harbor_trades(node: NodeModel, player: u32, budget: Seq<u32>, n_resources: u32) -> Seq<
    ActionModel,
> {
    match node.harbor {
        Some(harbor) => if harbor.player == Some(player) {
            let kind = harbor.harbor_type;
            if kind < n_resources {
                if kind < budget.len() && budget[kind as int] >= 2 {
                    Row::Harbor(kind, kind).actions(n_resources as int)
                } else {
                    Seq::empty()
                }
            } else {
                open_harbor_trades(kind, budget, n_resources as int, n_resources as int)
            }
        } else {
            Seq::empty()
        },
        None => Seq::empty(),
    }
}

/// The harbor trades open to `player` at the first `count` nodes.
pub open spec fn harbor_trades(
    nodes: Seq<NodeModel>,
    player: u32,
    budget: Seq<u32>,
    n_resources: u32,
    count: int,
) -> Seq<ActionModel>
    decreases count,
{
    if count <= 0 {
        Seq::empty()
    } else {
        harbor_trades(nodes, player, budget, n_resources, count - 1) + node_harbor_trades(
            nodes[count - 1],
            player,
            budget,
            n_resources,
        )
    }
}

/// What the active player can do in the trading phase: nothing, trade with
/// the bank, quote, or trade at a harbor.
pub open spec fn trading_actions(board: BoardModel, player: u32, n_resources: u32) -> Seq<ActionModel> {
    let budget = board.budgets[player as int];
    seq![ActionModel::NoTrade] + resource_trades(
        player as usize,
        budget,
        n_resources as int,
        budget.len() as int,
    ) + harbor_trades(board.nodes, player, budget, n_resources, board.nodes.len() as int)
}

/// Adds the quotes of `player` for the resource `supplied`.
fn push_quotes(actions: &mut Vec<Action>, player: usize, supplied: u32, held: u32, n_resources: u32)
    ensures
        final(actions).deep_view() == old(actions).deep_view() + quotes_of(
            player,
            supplied,
            n_resources as int,
            quantities_offered(held),
        ),
{
    let ghost base = actions.deep_view();
    let most: u32 = if held <= 3 {
        held + 1
    } else {
        4
    };
    let mut quantity: u32 = 0;
    assert(actions.deep_view() =~= base + quotes_of(player, supplied, n_resources as int, 0));
    while quantity < most
        invariant
            quantity <= most <= 4,
            actions.deep_view() == base + quotes_of(
                player,
                supplied,
                n_resources as int,
                quantity as int,
            ),
        decreases most - quantity,
    {
        push_row(actions, Row::Quotes(player, supplied, quantity, 1), n_resources);
        push_row(actions, Row::Quotes(player, supplied, quantity, 2), n_resources);
        push_row(actions, Row::Quotes(player, supplied, quantity, 3), n_resources);
        quantity = quantity + 1;
        assert(actions.deep_view() =~= base + quotes_of(
            player,
            supplied,
            n_resources as int,
            quantity as int,
        ));
    }
}

/// Adds the harbor trades open to `player` at `node`.
fn push_node_harbor_trades(
    actions: &mut Vec<Action>,
    node: &Node,
    player: u32,
    budget: &Vec<u32>,
    n_resources: u32,
)
    ensures
        final(actions).deep_view() == old(actions).deep_view() + node_harbor_trades(
            node.deep_view(),
            player,
            budget@,
            n_resources,
        ),
{
    let ghost base = actions.deep_view();
    assert(base =~= base + Seq::<ActionModel>::empty());
    match node.harbor {
        Some(harbor) => {
            let claimed = match harbor.player {
                Some(owner) => owner == player,
                None => false,
            };
            if claimed {
                let kind = harbor.harbor_type;
                if kind < n_resources {
                    if (kind as usize) < budget.len() && budget[kind as usize] >= 2 {
                        push_row(actions, Row::Harbor(kind, kind), n_resources);
                    }
                } else {
                    let mut supplied: u32 = 0;
                    assert(actions.deep_view() =~= base + open_harbor_trades(
                        kind,
                        budget@,
                        n_resources as int,
                        0,
                    ));
                    while supplied < n_resources
                        invariant
                            supplied <= n_resources,
                            actions.deep_view() == base + open_harbor_trades(
                                kind,
                                budget@,
                                n_resources as int,
                                supplied as int,
                            ),
                        decreases n_resources - supplied,
                    {
                        if (supplied as usize) < budget.len() && budget[supplied as usize] >= 3 {
                            push_row(actions, Row::Harbor(kind, supplied), n_resources);
                        }
                        supplied = supplied + 1;
                        assert(actions.deep_view() =~= base + open_harbor_trades(
                            kind,
                            budget@,
                            n_resources as int,
                            supplied as int,
                        ));
                    }
                }
            }
        },
        None => {},
    }
}

/// Adds what the active player can do in the trading phase.
fn push_trading_actions(actions: &mut Vec<Action>, board: &Board, player: u32, n_resources: u32)
    requires
        player < board.budgets.len(),
        board.budgets[player as int].len() <= u32::MAX,
    ensures
        final(actions).deep_view() == old(actions).deep_view() + trading_actions(
            board.deep_view(),
            player,
            n_resources,
        ),
{
    let ghost base = actions.deep_view();
    let budget = &board.budgets[player as usize];
    assert(board.deep_view().budgets[player as int] =~= budget@);
    let ghost wanted = trading_actions(board.deep_view(), player, n_resources);
    push_action(actions, Action::NoTrade);
    let ghost first = base + seq![ActionModel::NoTrade];
    assert(actions.deep_view() =~= first);
    let mut supplied: usize = 0;
    assert(actions.deep_view() =~= first + resource_trades(
        player as usize,
        budget@,
        n_resources as int,
        0,
    ));
    while supplied < budget.len()
        invariant
            supplied <= budget.len() <= u32::MAX,
            actions.deep_view() == first + resource_trades(
                player as usize,
                budget@,
                n_resources as int,
                supplied as int,
            ),
        decreases budget.len() - supplied,
    {
        let held = budget[supplied];
        if held >= 4 {
            push_row(actions, Row::Bank(supplied as u32), n_resources);
        }
        push_quotes(actions, player as usize, supplied as u32, held, n_resources);
        supplied = supplied + 1;
        assert(actions.deep_view() =~= first + resource_trades(
            player as usize,
            budget@,
            n_resources as int,
            supplied as int,
        ));
    }
    let ghost second = actions.deep_view();
    let ghost nodes = board.nodes.deep_view();
    let mut i: usize = 0;
    assert(actions.deep_view() =~= second + harbor_trades(nodes, player, budget@, n_resources, 0));
    while i < board.nodes.len()
        invariant
            i <= board.nodes.len(),
            nodes == board.nodes.deep_view(),
            actions.deep_view() == second + harbor_trades(
                nodes,
                player,
                budget@,
                n_resources,
                i as int,
            ),
        decreases board.nodes.len() - i,
    {
        assert(nodes[i as int] == board.nodes[i as int].deep_view());
        push_node_harbor_trades(actions, &board.nodes[i], player, budget, n_resources);
        i = i + 1;
        assert(actions.deep_view() =~= second + harbor_trades(
            nodes,
            player,
            budget@,
            n_resources,
            i as int,
        ));
    }
    assert(actions.deep_view() =~= base + wanted);
}

/// Whether a robber stands on tile `tile`.
pub open spec fn robber_on(robbers: Seq<u32>, tile: int) -> bool {
    exists|r: int| 0 <= r < robbers.len() && #[trigger] robbers[r] == tile
}

/// The players other than `player` who have built on the first `count`
/// corners of `tile`, once for each building.
pub open spec fn victims_at(nodes: Seq<NodeModel>, tile: TileModel, player: u32, count: int) -> Seq<
    u32,
>
    decreases count,
{
    if count <= 0 {
        Seq::empty()
    } else {
        let before = victims_at(nodes, tile, player, count - 1);
        match nodes[tile.nodes[count - 1] as int].node_status.owner() {
            Some(owner) => if owner != player {
                before.push(owner)
            } else {
                before
            },
            None => before,
        }
    }
}

/// The moves of robber `robber` to tile `tile` that rob one of the first
/// `count` victims.
pub open spec fn robberies(robber: u32, tile: u32, victims: Seq<u32>, count: int) -> Seq<
    (u32, u32, Option<u32>),
>
    decreases count,
{
    if count <= 0 {
        Seq::empty()
    } else {
        robberies(robber, tile, victims, count - 1).push((robber, tile, Some(victims[count - 1])))
    }
}

/// The moves of the first `count` robbers to tile `tile`: each robs one of
/// the victims, or nobody where there is no victim.
pub open spec fn moves_to(tile: u32, victims: Seq<u32>, count: int) -> Seq<(u32, u32, Option<u32>)>
    decreases count,
{
    if count <= 0 {
        Seq::empty()
    } else {
        let robber = (count - 1) as u32;
        let before = moves_to(tile, victims, count - 1);
        if victims.len() == 0 {
            before.push((robber, tile, None))
        } else {
            before + robberies(robber, tile, victims, victims.len() as int)
        }
    }
}

/// The robber moves open to `player` on the first `count` tiles: any robber
/// may move to any tile that shows a dice sum and holds no robber, and robs
/// one of the other players who have built there.
pub open spec fn robber_moves(board: BoardModel, player: u32, count: int) -> Seq<
    (u32, u32, Option<u32>),
>
    decreases count,
{
    if count <= 0 {
        Seq::empty()
    } else {
        let before = robber_moves(board, player, count - 1);
        let tile = board.tiles[count - 1];
        if robber_on(board.v_robbers, count - 1) || tile.rng is None {
            before
        } else {
            before + moves_to(
                (count - 1) as u32,
                victims_at(board.nodes, tile, player, tile.nodes.len() as int),
                board.v_robbers.len() as int,
            )
        }
    }
}

/// Whether a robber stands on tile `tile`.
fn is_robber_on(robbers: &Vec<u32>, tile: usize) -> (found: bool)
    ensures
        found == robber_on(robbers@, tile as int),
{
    let mut r: usize = 0;
    while r < robbers.len()
        invariant
            r <= robbers.len(),
            forall|k: int| 0 <= k < r ==> robbers[k] != tile,
        decreases robbers.len() - r,
    {
        if robbers[r] as usize == tile {
            return true;
        }
        r = r + 1;
    }
    false
}

/// The robber moves open to `player`.
pub fn get_legal_robber_moves(board: &Board, player: u32) -> (moves: Vec<(u32, u32, Option<u32>)>)
    requires
        board.tiles.len() <= u32::MAX,
        board.v_robbers.len() <= u32::MAX,
        forall|t: int, c: int|
            0 <= t < board.tiles.len() && 0 <= c < board.tiles[t].nodes.len()
                ==> #[trigger] board.tiles[t].nodes[c] < board.nodes.len(),
    ensures
        moves@ == robber_moves(board.deep_view(), player, board.tiles.len() as int),
{
    let mut moves: Vec<(u32, u32, Option<u32>)> = Vec::new();
    let ghost model = board.deep_view();
    let mut t: usize = 0;
    while t < board.tiles.len()
        invariant
            t <= board.tiles.len() <= u32::MAX,
            board.v_robbers.len() <= u32::MAX,
            model == board.deep_view(),
            forall|t: int, c: int|
                0 <= t < board.tiles.len() && 0 <= c < board.tiles[t].nodes.len()
                    ==> #[trigger] board.tiles[t].nodes[c] < board.nodes.len(),
            moves@ == robber_moves(model, player, t as int),
        decreases board.tiles.len() - t,
    {
        let tile = &board.tiles[t];
        assert(model.tiles[t as int] == tile.deep_view());
        if !is_robber_on(&board.v_robbers, t) && tile.rng.is_some() {
            let mut victims: Vec<u32> = Vec::new();
            let mut c: usize = 0;
            while c < tile.nodes.len()
                invariant
                    c <= tile.nodes.len(),
                    t < board.tiles.len(),
                    tile == board.tiles[t as int],
                    model == board.deep_view(),
                    forall|t: int, c: int|
                        0 <= t < board.tiles.len() && 0 <= c < board.tiles[t].nodes.len()
                            ==> #[trigger] board.tiles[t].nodes[c] < board.nodes.len(),
                    victims@ == victims_at(model.nodes, tile.deep_view(), player, c as int),
                decreases tile.nodes.len() - c,
            {
                let corner = tile.nodes[c] as usize;
                assert(board.tiles[t as int].nodes[c as int] < board.nodes.len());
                assert(model.nodes[corner as int] == board.nodes[corner as int].deep_view());
                match board.nodes[corner].node_status {
                    NodeStatus::Settled(owner) => {
                        if owner != player {
                            victims.push(owner);
                        }
                    },
                    NodeStatus::Citied(owner) => {
                        if owner != player {
                            victims.push(owner);
                        }
                    },
                    _ => {},
                }
                c = c + 1;
            }
            let ghost base = moves@;
            let mut robber: usize = 0;
            assert(moves@ =~= base + moves_to(t as u32, victims@, 0));
            while robber < board.v_robbers.len()
                invariant
                    robber <= board.v_robbers.len() <= u32::MAX,
                    t <= u32::MAX,
                    moves@ == base + moves_to(t as u32, victims@, robber as int),
                decreases board.v_robbers.len() - robber,
            {
                if victims.len() == 0 {
                    moves.push((robber as u32, t as u32, None));
                } else {
                    let ghost row = moves@;
                    let mut v: usize = 0;
                    assert(moves@ =~= row + robberies(robber as u32, t as u32, victims@, 0));
                    while v < victims.len()
                        invariant
                            v <= victims.len(),
                            moves@ == row + robberies(robber as u32, t as u32, victims@, v as int),
                        decreases victims.len() - v,
                    {
                        moves.push((robber as u32, t as u32, Some(victims[v])));
                        v = v + 1;
                        assert(moves@ =~= row + robberies(
                            robber as u32,
                            t as u32,
                            victims@,
                            v as int,
                        ));
                    }
                }
                robber = robber + 1;
                assert(moves@ =~= base + moves_to(t as u32, victims@, robber as int));
            }
        }
        t = t + 1;
    }
    moves
}

/// The hands that extend `chosen`, a choice of a quantity of each of the
/// first resources of `budget` that adds up to `sum`, by a quantity of at
/// most the budget of every further resource, and add up to `target`.
pub open spec fn hands_from(budget: Seq<u32>, target: int, chosen: Seq<u32>, sum: int) -> Seq<
    Seq<u32>,
>
    decreases budget.len() - chosen.len(), if chosen.len() < budget.len() {
        budget[chosen.len() as int] + 2
    } else {
        0
    },
{
    if chosen.len() >= budget.len() {
        if sum == target {
            seq![chosen]
        } else {
            Seq::empty()
        }
    } else {
        hands_upto(budget, target, chosen, sum, budget[chosen.len() as int] + 1)
    }
}

/// The hands of [`hands_from`] that take fewer than `count` cards of the
/// next resource.
pub open spec fn hands_upto(budget: Seq<u32>, target: int, chosen: Seq<u32>, sum: int, count: int) -> Seq<
    Seq<u32>,
>
    decreases budget.len() - chosen.len(), count,
{
    if count <= 0 || chosen.len() >= budget.len() {
        Seq::empty()
    } else {
        hands_upto(budget, target, chosen, sum, count - 1) + hands_from(
            budget,
            target,
            chosen.push((count - 1) as u32),
            sum + count - 1,
        )
    }
}

/// The hands that a player with `budget` can discard: half of the player's
/// cards, rounded down, and of no resource more than the player holds.
pub open spec fn discards(budget: Seq<u32>) -> Seq<Seq<u32>> {
    hands_from(budget, seq_sum(budget) / 2, Seq::empty(), 0)
}

/// The sum of the numbers of `values`.
fn wide_sum(values: &Vec<u32>) -> (total: u64)
    requires
        values.len() <= u32::MAX,
    ensures
        total == seq_sum(values@),
{
    let mut total: u64 = 0;
    let mut i: usize = 0;
    while i < values.len()
        invariant
            i <= values.len() <= u32::MAX,
            total == seq_sum(values@.take(i as int)),
            total <= i * 0xffff_ffff,
        decreases values.len() - i,
    {
        assert(values@.take(i + 1).drop_last() =~= values@.take(i as int));
        assert((i + 1) * 0xffff_ffff <= 0xffff_ffff * 0xffff_ffff) by (nonlinear_arith)
            requires
                i + 1 <= 0xffff_ffff,
        ;
        assert(i * 0xffff_ffff + 0xffff_ffff == (i + 1) * 0xffff_ffff) by (nonlinear_arith);
        total = total + values[i] as u64;
        i = i + 1;
    }
    assert(values@.take(values.len() as int) =~= values@);
    total
}

/// Adds to `hands` the hands that extend `chosen`.
fn extend_hands(
    budget: &Vec<u32>,
    target: u64,
    chosen: &mut Vec<u32>,
    sum: u64,
    hands: &mut Vec<Vec<u32>>,
)
    requires
        budget.len() <= u32::MAX,
        old(chosen).len() <= budget.len(),
        sum <= old(chosen).len() * 0xffff_ffff,
    ensures
        final(chosen)@ == old(chosen)@,
        final(hands).deep_view() == old(hands).deep_view() + hands_from(
            budget@,
            target as int,
            old(chosen)@,
            sum as int,
        ),
    decreases budget.len() - old(chosen).len(),
{
    let ghost base = hands.deep_view();
    let ghost prefix = chosen@;
    let index = chosen.len();
    if index >= budget.len() {
        if sum == target {
            let hand = chosen.clone();
            hands.push(hand);
            assert(hands.deep_view() =~= base + seq![prefix]) by {
                assert(hands.deep_view()[base.len() as int] =~= prefix);
            }
        } else {
            assert(hands.deep_view() =~= base + Seq::<Seq<u32>>::empty());
        }
    } else {
        let most = budget[index];
        let mut quantity: u32 = 0;
        assert(hands.deep_view() =~= base + hands_upto(
            budget@,
            target as int,
            prefix,
            sum as int,
            0,
        ));
        loop
            invariant_except_break
                hands.deep_view() == base + hands_upto(
                    budget@,
                    target as int,
                    prefix,
                    sum as int,
                    quantity as int,
                ),
            invariant
                quantity <= most,
                most == budget[index as int],
                index == prefix.len(),
                index < budget.len() <= u32::MAX,
                sum <= index * 0xffff_ffff,
                chosen@ == prefix,
                prefix == old(chosen)@,
            ensures
                chosen@ == prefix,
                hands.deep_view() == base + hands_upto(
                    budget@,
                    target as int,
                    prefix,
                    sum as int,
                    most + 1,
                ),
            decreases most - quantity,
        {
            chosen.push(quantity);
            assert((index + 1) * 0xffff_ffff <= 0xffff_ffff * 0xffff_ffff) by (nonlinear_arith)
                requires
                    index + 1 <= 0xffff_ffff,
            ;
            assert(index * 0xffff_ffff + 0xffff_ffff == (index + 1) * 0xffff_ffff)
                by (nonlinear_arith);
            extend_hands(budget, target, chosen, sum + quantity as u64, hands);
            chosen.pop();
            assert(chosen@ =~= prefix);
            assert(hands.deep_view() =~= base + hands_upto(
                budget@,
                target as int,
                prefix,
                sum as int,
                quantity + 1,
            ));
            if quantity == most {
                break;
            }
            quantity = quantity + 1;
        }
    }
}

/// The hands that a player with `budget` can discard: every choice of a
/// quantity of each resource, no more than the player holds, that adds up
/// to half of the player's cards, rounded down.
pub fn enumerate_discards(budget: &Vec<u32>) -> (hands: Vec<Vec<u32>>)
    requires
        budget.len() <= u32::MAX,
    ensures
        hands.deep_view() == discards(budget@),
{
    let target = wide_sum(budget) / 2;
    let mut hands: Vec<Vec<u32>> = Vec::new();
    let mut chosen: Vec<u32> = Vec::new();
    assert(hands.deep_view() =~= Seq::<Seq<u32>>::empty());
    extend_hands(budget, target, &mut chosen, 0, &mut hands);
    assert(hands.deep_view() =~= discards(budget@));
    hands
}

/// The two kinds of action that name a node and one of its neighbours.
#[derive(Clone, Copy, Debug)]
pub enum PairKind {
    SetUp,
    Road,
}

impl PairKind {
    /// The action of this kind for `pair`.
    pub open spec fn action(self, pair: (u32, u32)) -> ActionModel {
        match self {
            PairKind::SetUp => ActionModel::SetUpMove(pair.0, pair.1),
            PairKind::Road => ActionModel::BuildRoad(pair.0, pair.1),
        }
    }

    /// The actions of this kind for the first `count` of `pairs`.
    pub open spec fn actions(self, pairs: Seq<(u32, u32)>, count: int) -> Seq<ActionModel>
        decreases count,
    {
        if count <= 0 {
            Seq::empty()
        } else {
            self.actions(pairs, count - 1).push(self.action(pairs[count - 1]))
        }
    }
}

/// The two kinds of action that move a robber.
#[derive(Clone, Copy, Debug)]
pub enum MoveKind {
    Robber,
    Knight,
}

impl MoveKind {
    /// The action of this kind for `robbery`.
    pub open spec fn action(self, robbery: (u32, u32, Option<u32>)) -> ActionModel {
        match self {
            MoveKind::Robber => ActionModel::Robber(robbery.0, robbery.1, robbery.2),
            MoveKind::Knight => ActionModel::CardPlay(
                CardType::KnightCard(robbery.0, robbery.1, robbery.2),
            ),
        }
    }

    /// The actions of this kind for the first `count` of `moves`.
    pub open spec fn actions(self, moves: Seq<(u32, u32, Option<u32>)>, count: int) -> Seq<
        ActionModel,
    >
        decreases count,
    {
        if count <= 0 {
            Seq::empty()
        } else {
            self.actions(moves, count - 1).push(self.action(moves[count - 1]))
        }
    }
}

/// The two kinds of action that build on a node.
#[derive(Clone, Copy, Debug)]
pub enum SiteKind {
    Settlement,
    City,
}

impl SiteKind {
    /// The action of this kind for `site`.
    pub open spec fn action(self, site: u32) -> ActionModel {
        match self {
            SiteKind::Settlement => ActionModel::BuildSettlement(site),
            SiteKind::City => ActionModel::BuildCity(site),
        }
    }

    /// The actions of this kind for the first `count` of `sites`.
    pub open spec fn actions(self, sites: Seq<u32>, count: int) -> Seq<ActionModel>
        decreases count,
    {
        if count <= 0 {
            Seq::empty()
        } else {
            self.actions(sites, count - 1).push(self.action(sites[count - 1]))
        }
    }
}

/// The discards of the first `count` of `hands`.
pub open spec fn discard_actions(hands: Seq<Seq<u32>>, count: int) -> Seq<ActionModel>
    decreases count,
{
    if count <= 0 {
        Seq::empty()
    } else {
        discard_actions(hands, count - 1).push(ActionModel::DiscardCards(hands[count - 1]))
    }
}

/// The plays of a road card that build `first` and one of the first `count`
/// of `roads`, but for the road that joins the same two nodes as `first`.
pub open spec fn road_pairs_with(first: (u32, u32), roads: Seq<(u32, u32)>, count: int) -> Seq<
    ActionModel,
>
    decreases count,
{
    if count <= 0 {
        Seq::empty()
    } else {
        let before = road_pairs_with(first, roads, count - 1);
        let second = roads[count - 1];
        if same_edge(first.0, first.1, second.0, second.1) {
            before
        } else {
            before.push(
                ActionModel::CardPlay(CardType::RoadsCard(first.0, first.1, second.0, second.1)),
            )
        }
    }
}

/// The plays of a road card that build one of the first `count` of `roads`
/// and then any other of `roads`.
pub open spec fn road_plays(roads: Seq<(u32, u32)>, count: int) -> Seq<ActionModel>
    decreases count,
{
    if count <= 0 {
        Seq::empty()
    } else {
        road_plays(roads, count - 1) + road_pairs_with(roads[count - 1], roads, roads.len() as int)
    }
}

/// The plays of a plenty card that take one of the first `count` resources
/// and then any resource.
pub open spec fn plenty_plays(n_resources: int, count: int) -> Seq<ActionModel>
    decreases count,
{
    if count <= 0 {
        Seq::empty()
    } else {
        plenty_plays(n_resources, count - 1) + Row::Plenty((count - 1) as u32).actions(n_resources)
    }
}

/// The ways to play a card of kind `kind`.
pub open spec fn plays_of_kind(board: BoardModel, player: u32, n_resources: u32, kind: int) -> Seq<
    ActionModel,
> {
    if kind == 0 {
        seq![ActionModel::CardPlay(CardType::VPCard)]
    } else if kind == 1 {
        let moves = robber_moves(board, player, board.tiles.len() as int);
        MoveKind::Knight.actions(moves, moves.len() as int)
    } else if kind == 2 {
        let roads = open_roads(board.nodes, player, board.nodes.len() as int);
        road_plays(roads, roads.len() as int)
    } else if kind == 3 {
        plenty_plays(n_resources as int, n_resources as int)
    } else if kind == 4 {
        Row::Monopoly.actions(n_resources as int)
    } else {
        Seq::empty()
    }
}

/// The ways in which `player` can play a card of one of the first `kinds`
/// kinds: a card of every kind of which the player has drawn more than the
/// player has shown.
pub open spec fn card_plays(board: BoardModel, player: u32, n_resources: u32, kinds: int) -> Seq<
    ActionModel,
>
    decreases kinds,
{
    if kinds <= 0 {
        Seq::empty()
    } else {
        let before = card_plays(board, player, n_resources, kinds - 1);
        if board.drawn_dev_cards[player as int][kinds - 1] > board.public_dev_cards[player as int][kinds
            - 1] {
            before + plays_of_kind(board, player, n_resources, kinds - 1)
        } else {
            before
        }
    }
}

/// What the active player can do in a card phase: play no card, or, while
/// the cards of the round are not used up, play a card in hand.
pub open spec fn card_actions(game: GameModel) -> Seq<ActionModel> {
    let player = game.round.active_player;
    seq![ActionModel::NoCardPlay] + if game.round.cards_played < game.parameters.max_cards {
        card_plays(game.round.board, player, game.parameters.n_resources, N_CARD_KINDS as int)
    } else {
        Seq::empty()
    }
}

/// What the active player can do in the building phase: buy nothing, or
/// buy what the player can pay for and the board has a place for.
pub open spec fn building_actions(game: GameModel) -> Seq<ActionModel> {
    let player = game.round.active_player;
    let board = game.round.board;
    let budget = board.budgets[player as int];
    let roads = open_roads(board.nodes, player, board.nodes.len() as int);
    let settlements = settlement_sites(board.nodes, player, board.nodes.len() as int);
    let cities = city_sites(board.nodes, player, board.nodes.len() as int);
    seq![ActionModel::NoBuying] + (if covers(budget, game.parameters.cost(0)) {
        PairKind::Road.actions(roads, roads.len() as int)
    } else {
        Seq::empty()
    }) + (if covers(budget, game.parameters.cost(1)) {
        SiteKind::Settlement.actions(settlements, settlements.len() as int)
    } else {
        Seq::empty()
    }) + (if covers(budget, game.parameters.cost(2)) {
        SiteKind::City.actions(cities, cities.len() as int)
    } else {
        Seq::empty()
    }) + (if covers(budget, game.parameters.cost(3)) {
        seq![ActionModel::BuyDevCard]
    } else {
        Seq::empty()
    })
}

/// Whether the active player can accept the quote on record: there is a
/// quote, it names players and resources of the game, and the player holds
/// what the quote demands.
pub open spec fn can_accept(game: GameModel) -> bool {
    let player = game.round.active_player;
    match game.round.action {
        Some(ActionModel::TradeQuote(q)) => {
            &&& q.quoting_player < game.parameters.n_players
            &&& q.resource_supplied < game.parameters.n_resources
            &&& q.resource_demanded < game.parameters.n_resources
            &&& game.round.board.budgets[player as int][q.resource_demanded as int]
                >= q.quantity_demanded
        },
        _ => false,
    }
}

/// What the active player can do in the phase of the game.
pub open spec fn phase_actions(game: GameModel) -> Seq<ActionModel> {
    let player = game.round.active_player;
    let board = game.round.board;
    let budget = board.budgets[player as int];
    match game.round.phase {
        Phase::SetUp => {
            if game.round.phase_count / game.parameters.n_players
                < game.parameters.n_setup_rounds {
                let pairs = setup_pairs(board.nodes, board.nodes.len() as int);
                PairKind::SetUp.actions(pairs, pairs.len() as int)
            } else {
                seq![ActionModel::FinishRound]
            }
        },
        Phase::RobberDiscard => {
            if seq_sum(budget) > 7 {
                discard_actions(discards(budget), discards(budget).len() as int)
            } else {
                seq![ActionModel::NoDiscard]
            }
        },
        Phase::RobberMove => {
            let moves = robber_moves(board, player, board.tiles.len() as int);
            MoveKind::Robber.actions(moves, moves.len() as int)
        },
        Phase::FirstCardPhase => card_actions(game),
        Phase::SecondCardPhase => card_actions(game),
        Phase::TradingQuote => trading_actions(board, player, game.parameters.n_resources),
        Phase::TradingResponse => {
            seq![ActionModel::TradeResponse(player, false)] + if can_accept(game) {
                seq![ActionModel::TradeResponse(player, true)]
            } else {
                Seq::empty()
            }
        },
        Phase::Building => building_actions(game),
        Phase::Terminal => Seq::empty(),
    }
}

/// The legal actions of the game: what the active player can do in the
/// phase of the game, and for a human player also `Save` and `Quit`.
pub open spec fn legal_actions(game: GameModel) -> Seq<ActionModel> {
    phase_actions(game) + if game.parameters.is_human(game.round.active_player as int) {
        seq![ActionModel::Save, ActionModel::Quit]
    } else {
        Seq::empty()
    }
}

/// Adds the actions of a kind for `pairs`.
fn push_pairs(actions: &mut Vec<Action>, kind: PairKind, pairs: &Vec<(u32, u32)>)
    ensures
        final(actions).deep_view() == old(actions).deep_view() + kind.actions(
            pairs@,
            pairs.len() as int,
        ),
{
    let ghost base = actions.deep_view();
    let mut k: usize = 0;
    assert(actions.deep_view() =~= base + kind.actions(pairs@, 0));
    while k < pairs.len()
        invariant
            k <= pairs.len(),
            actions.deep_view() == base + kind.actions(pairs@, k as int),
        decreases pairs.len() - k,
    {
        let pair = pairs[k];
        let action = match kind {
            PairKind::SetUp => Action::SetUpMove(pair.0, pair.1),
            PairKind::Road => Action::BuildRoad(pair.0, pair.1),
        };
        push_action(actions, action);
        k = k + 1;
        assert(actions.deep_view() =~= base + kind.actions(pairs@, k as int));
    }
}

/// Adds the actions of a kind for `moves`.
fn push_moves(actions: &mut Vec<Action>, kind: MoveKind, moves: &Vec<(u32, u32, Option<u32>)>)
    ensures
        final(actions).deep_view() == old(actions).deep_view() + kind.actions(
            moves@,
            moves.len() as int,
        ),
{
    let ghost base = actions.deep_view();
    let mut k: usize = 0;
    assert(actions.deep_view() =~= base + kind.actions(moves@, 0));
    while k < moves.len()
        invariant
            k <= moves.len(),
            actions.deep_view() == base + kind.actions(moves@, k as int),
        decreases moves.len() - k,
    {
        let robbery = moves[k];
        let action = match kind {
            MoveKind::Robber => Action::Robber(robbery.0, robbery.1, robbery.2),
            MoveKind::Knight => Action::CardPlay(
                CardType::KnightCard(robbery.0, robbery.1, robbery.2),
            ),
        };
        push_action(actions, action);
        k = k + 1;
        assert(actions.deep_view() =~= base + kind.actions(moves@, k as int));
    }
}

/// Adds the actions of a kind for `sites`.
fn push_sites(actions: &mut Vec<Action>, kind: SiteKind, sites: &Vec<u32>)
    ensures
        final(actions).deep_view() == old(actions).deep_view() + kind.actions(
            sites@,
            sites.len() as int,
        ),
{
    let ghost base = actions.deep_view();
    let mut k: usize = 0;
    assert(actions.deep_view() =~= base + kind.actions(sites@, 0));
    while k < sites.len()
        invariant
            k <= sites.len(),
            actions.deep_view() == base + kind.actions(sites@, k as int),
        decreases sites.len() - k,
    {
        let action = match kind {
            SiteKind::Settlement => Action::BuildSettlement(sites[k]),
            SiteKind::City => Action::BuildCity(sites[k]),
        };
        push_action(actions, action);
        k = k + 1;
        assert(actions.deep_view() =~= base + kind.actions(sites@, k as int));
    }
}

/// Adds a discard for each of `hands`.
fn push_discards(actions: &mut Vec<Action>, hands: Vec<Vec<u32>>)
    ensures
        final(actions).deep_view() == old(actions).deep_view() + discard_actions(
            hands.deep_view(),
            hands.len() as int,
        ),
{
    let ghost base = actions.deep_view();
    let ghost model = hands.deep_view();
    let mut k: usize = 0;
    assert(actions.deep_view() =~= base + discard_actions(model, 0));
    while k < hands.len()
        invariant
            k <= hands.len(),
            model == hands.deep_view(),
            actions.deep_view() == base + discard_actions(model, k as int),
        decreases hands.len() - k,
    {
        let hand = hands[k].clone();
        assert(hand@ =~= model[k as int]);
        push_action(actions, Action::DiscardCards(hand));
        k = k + 1;
        assert(actions.deep_view() =~= base + discard_actions(model, k as int));
    }
}

/// Adds the plays of a road card.
fn push_road_plays(actions: &mut Vec<Action>, roads: &Vec<(u32, u32)>)
    ensures
        final(actions).deep_view() == old(actions).deep_view() + road_plays(
            roads@,
            roads.len() as int,
        ),
{
    let ghost base = actions.deep_view();
    let mut i: usize = 0;
    assert(actions.deep_view() =~= base + road_plays(roads@, 0));
    while i < roads.len()
        invariant
            i <= roads.len(),
            actions.deep_view() == base + road_plays(roads@, i as int),
        decreases roads.len() - i,
    {
        let first = roads[i];
        let first_edge = make_edge(first.0, first.1);
        let ghost row = actions.deep_view();
        let mut j: usize = 0;
        assert(actions.deep_view() =~= row + road_pairs_with(first, roads@, 0));
        while j < roads.len()
            invariant
                j <= roads.len(),
                first_edge == crate::backend::setup::edge::canonical_edge(first.0, first.1),
                actions.deep_view() == row + road_pairs_with(first, roads@, j as int),
            decreases roads.len() - j,
        {
            let second = roads[j];
            let second_edge = make_edge(second.0, second.1);
            if !(first_edge.0 == second_edge.0 && first_edge.1 == second_edge.1) {
                push_action(
                    actions,
                    Action::CardPlay(CardType::RoadsCard(first.0, first.1, second.0, second.1)),
                );
            }
            j = j + 1;
            assert(actions.deep_view() =~= row + road_pairs_with(first, roads@, j as int));
        }
        i = i + 1;
        assert(actions.deep_view() =~= base + road_plays(roads@, i as int));
    }
}

/// Adds the plays of a plenty card.
fn push_plenty_plays(actions: &mut Vec<Action>, n_resources: u32)
    ensures
        final(actions).deep_view() == old(actions).deep_view() + plenty_plays(
            n_resources as int,
            n_resources as int,
        ),
{
    let ghost base = actions.deep_view();
    let mut first: u32 = 0;
    assert(actions.deep_view() =~= base + plenty_plays(n_resources as int, 0));
    while first < n_resources
        invariant
            first <= n_resources,
            actions.deep_view() == base + plenty_plays(n_resources as int, first as int),
        decreases n_resources - first,
    {
        push_row(actions, Row::Plenty(first), n_resources);
        first = first + 1;
        assert(actions.deep_view() =~= base + plenty_plays(n_resources as int, first as int));
    }
}

impl Game {
    /// Adds the ways to play a card of kind `kind`.
    fn push_plays_of_kind(&self, actions: &mut Vec<Action>, kind: usize)
        requires
            self.deep_view().wf(),
            kind < N_CARD_KINDS,
        ensures
            final(actions).deep_view() == old(actions).deep_view() + plays_of_kind(
                self.deep_view().round.board,
                self.round.active_player,
                self.parameters.n_resources,
                kind as int,
            ),
    {
        let player = self.round.active_player;
        let board = &self.round.board;
        let ghost base = actions.deep_view();
        if kind == 0 {
            push_action(actions, Action::CardPlay(CardType::VPCard));
            assert(actions.deep_view() =~= base + seq![ActionModel::CardPlay(CardType::VPCard)]);
        } else if kind == 1 {
            proof {
                self.lemma_tiles_in_range();
            }
            let moves = get_legal_robber_moves(board, player);
            push_moves(actions, MoveKind::Knight, &moves);
        } else if kind == 2 {
            let roads = get_legal_roads(&board.nodes, player);
            push_road_plays(actions, &roads);
        } else if kind == 3 {
            push_plenty_plays(actions, self.parameters.n_resources);
        } else {
            push_row(actions, Row::Monopoly, self.parameters.n_resources);
        }
    }

    /// The tiles of a game name only nodes of the board.
    pub proof fn lemma_tiles_in_range(&self)
        requires
            self.deep_view().wf(),
        ensures
            self.round.board.tiles.len() <= u32::MAX,
            self.round.board.v_robbers.len() <= u32::MAX,
            self.round.board.nodes.len() <= u32::MAX,
            self.round.active_player < self.round.board.budgets.len(),
            self.round.board.budgets[self.round.active_player as int].len()
                == self.parameters.n_resources,
            forall|t: int, c: int|
                0 <= t < self.round.board.tiles.len() && 0 <= c
                    < self.round.board.tiles[t].nodes.len()
                    ==> #[trigger] self.round.board.tiles[t].nodes[c]
                    < self.round.board.nodes.len(),
    {
        let board = self.round.board;
        let model = self.deep_view().round.board;
        assert forall|t: int, c: int|
            0 <= t < board.tiles.len() && 0 <= c < board.tiles[t].nodes.len()
                implies #[trigger] board.tiles[t].nodes[c] < board.nodes.len() by {
            assert(model.tiles[t] == board.tiles[t].deep_view());
            assert(model.tiles[t].nodes[c] < model.nodes.len());
        }
        assert(model.budgets[self.round.active_player as int]
            == board.budgets[self.round.active_player as int]@);
    }

    /// Adds what the active player can do in a card phase.
    fn push_card_actions(&self, actions: &mut Vec<Action>)
        requires
            self.deep_view().wf(),
        ensures
            final(actions).deep_view() == old(actions).deep_view() + card_actions(self.deep_view()),
    {
        let player = self.round.active_player;
        let board = &self.round.board;
        let ghost base = actions.deep_view();
        let ghost model = self.deep_view().round.board;
        push_action(actions, Action::NoCardPlay);
        let ghost first = actions.deep_view();
        assert(first =~= base + seq![ActionModel::NoCardPlay]);
        if self.round.cards_played < self.parameters.max_cards {
            assert(model.drawn_dev_cards[player as int] == board.drawn_dev_cards[player as int]@);
            assert(model.public_dev_cards[player as int] == board.public_dev_cards[player as int]@);
            let mut kind: usize = 0;
            assert(actions.deep_view() =~= first + card_plays(
                model,
                player,
                self.parameters.n_resources,
                0,
            ));
            while kind < N_CARD_KINDS
                invariant
                    kind <= N_CARD_KINDS,
                    self.deep_view().wf(),
                    model == self.deep_view().round.board,
                    player == self.round.active_player,
                    board == &self.round.board,
                    model.drawn_dev_cards[player as int] == board.drawn_dev_cards[player as int]@,
                    model.public_dev_cards[player as int] == board.public_dev_cards[player as int]@,
                    actions.deep_view() == first + card_plays(
                        model,
                        player,
                        self.parameters.n_resources,
                        kind as int,
                    ),
                decreases N_CARD_KINDS - kind,
            {
                if board.drawn_dev_cards[player as usize][kind]
                    > board.public_dev_cards[player as usize][kind] {
                    self.push_plays_of_kind(actions, kind);
                }
                kind = kind + 1;
                assert(actions.deep_view() =~= first + card_plays(
                    model,
                    player,
                    self.parameters.n_resources,
                    kind as int,
                ));
            }
            assert(actions.deep_view() =~= base + card_actions(self.deep_view()));
        } else {
            assert(actions.deep_view() =~= base + card_actions(self.deep_view()));
        }
    }

    /// Adds what the active player can do in the building phase.
    fn push_building_actions(&self, actions: &mut Vec<Action>)
        requires
            self.deep_view().wf(),
        ensures
            final(actions).deep_view() == old(actions).deep_view() + building_actions(
                self.deep_view(),
            ),
    {
        let player = self.round.active_player;
        let board = &self.round.board;
        let ghost base = actions.deep_view();
        proof {
            self.lemma_tiles_in_range();
        }
        let budget = &board.budgets[player as usize];
        assert(self.deep_view().round.board.budgets[player as int] == budget@);
        let costs = &self.parameters.building_costs;
        push_action(actions, Action::NoBuying);
        let ghost step0 = actions.deep_view();
        assert(step0 =~= base + seq![ActionModel::NoBuying]);
        if can_afford(budget, &costs[0]) {
            let roads = get_legal_roads(&board.nodes, player);
            push_pairs(actions, PairKind::Road, &roads);
        }
        let ghost step1 = actions.deep_view();
        if can_afford(budget, &costs[1]) {
            let sites = find_settlement_sites(&board.nodes, player);
            push_sites(actions, SiteKind::Settlement, &sites);
        }
        let ghost step2 = actions.deep_view();
        if can_afford(budget, &costs[2]) {
            let sites = find_city_sites(&board.nodes, player);
            push_sites(actions, SiteKind::City, &sites);
        }
        let ghost step3 = actions.deep_view();
        if can_afford(budget, &costs[3]) {
            push_action(actions, Action::BuyDevCard);
        }
        assert(actions.deep_view() =~= base + building_actions(self.deep_view()));
    }

    /// Whether the active player can accept the quote on record.
    fn check_can_accept(&self) -> (acceptable: bool)
        requires
            self.deep_view().wf(),
        ensures
            acceptable == can_accept(self.deep_view()),
    {
        let player = self.round.active_player;
        proof {
            self.lemma_tiles_in_range();
        }
        let budget = &self.round.board.budgets[player as usize];
        assert(self.deep_view().round.board.budgets[player as int] == budget@);
        match &self.round.action {
            Some(Action::TradeQuote(q)) => {
                q.quoting_player < self.parameters.n_players as usize && q.resource_supplied
                    < self.parameters.n_resources && q.resource_demanded
                    < self.parameters.n_resources && budget[q.resource_demanded as usize]
                    >= q.quantity_demanded
            },
            _ => false,
        }
    }

    /// Adds what the active player can do in the phase of the game.
    fn push_phase_actions(&self, actions: &mut Vec<Action>)
        requires
            self.deep_view().wf(),
            old(actions).len() == 0,
        ensures
            final(actions).deep_view() == phase_actions(self.deep_view()),
    {
        let player = self.round.active_player;
        let board = &self.round.board;
        proof {
            self.lemma_tiles_in_range();
        }
        let budget = &board.budgets[player as usize];
        assert(self.deep_view().round.board.budgets[player as int] == budget@);
        let ghost base = actions.deep_view();
        assert(base =~= Seq::<ActionModel>::empty());
        match self.round.phase {
            Phase::SetUp => {
                if self.round.phase_count / self.parameters.n_players
                    < self.parameters.n_setup_rounds {
                    let pairs = find_setup_pairs(&board.nodes);
                    push_pairs(actions, PairKind::SetUp, &pairs);
                    assert(actions.deep_view() =~= phase_actions(self.deep_view()));
                } else {
                    push_action(actions, Action::FinishRound);
                    assert(actions.deep_view() =~= seq![ActionModel::FinishRound]);
                }
            },
            Phase::RobberDiscard => {
                if wide_sum(budget) > 7 {
                    let hands = enumerate_discards(budget);
                    push_discards(actions, hands);
                    assert(actions.deep_view() =~= phase_actions(self.deep_view()));
                } else {
                    push_action(actions, Action::NoDiscard);
                    assert(actions.deep_view() =~= seq![ActionModel::NoDiscard]);
                }
            },
            Phase::RobberMove => {
                let moves = get_legal_robber_moves(board, player);
                push_moves(actions, MoveKind::Robber, &moves);
                assert(actions.deep_view() =~= phase_actions(self.deep_view()));
            },
            Phase::FirstCardPhase => {
                self.push_card_actions(actions);
                assert(actions.deep_view() =~= phase_actions(self.deep_view()));
            },
            Phase::SecondCardPhase => {
                self.push_card_actions(actions);
                assert(actions.deep_view() =~= phase_actions(self.deep_view()));
            },
            Phase::TradingQuote => {
                push_trading_actions(actions, board, player, self.parameters.n_resources);
                assert(actions.deep_view() =~= phase_actions(self.deep_view()));
            },
            Phase::TradingResponse => {
                push_action(actions, Action::TradeResponse(player, false));
                if self.check_can_accept() {
                    push_action(actions, Action::TradeResponse(player, true));
                }
                assert(actions.deep_view() =~= phase_actions(self.deep_view()));
            },
            Phase::Building => {
                self.push_building_actions(actions);
                assert(actions.deep_view() =~= phase_actions(self.deep_view()));
            },
            Phase::Terminal => {},
        }
    }

    /// The legal actions of the game: what the active player can do in the
    /// phase of the game, in a fixed order, and for a human player also
    /// `Save` and `Quit`.
    pub fn get_legal_actions(&self) -> (actions: Vec<Action>)
        requires
            self.deep_view().wf(),
        ensures
            actions.deep_view() == legal_actions(self.deep_view()),
    {
        let mut actions: Vec<Action> = Vec::new();
        self.push_phase_actions(&mut actions);
        let player = self.round.active_player as usize;
        let human = match self.parameters.v_players[player].player_type {
            PlayerType::Human => true,
            _ => false,
        };
        if human {
            push_action(&mut actions, Action::Save);
            push_action(&mut actions, Action::Quit);
        }
        assert(actions.deep_view() =~= legal_actions(self.deep_view()));
        actions
    }
}

} // verus!
