use vstd::prelude::*;
use crate::backend::round::cards::CardType;
use crate::backend::round::moves::{build_city, build_road, build_settlement, buy_card, charge, exchange, grant, monopolize, play_robber, settle_trade, show_card};
use crate::backend::round::outcome::Outcome;
use crate::backend::round::rules::{accepts, applied, card_played, carried_out, holder_after, last_at_top, played, recorded, refreshed, refusal, same_edge, seq_max, with_board};
use crate::backend::round::score::{MIN_LARGEST_ARMY, MIN_LONGEST_ROAD};
use crate::backend::setup::board::measure_roads;
use crate::backend::setup::city::City;
use crate::backend::setup::edge::make_edge;
use crate::backend::setup::game::Game;
use crate::backend::setup::node::{Node, NodeModel};
use crate::backend::setup::node_status::NodeStatus;
use crate::backend::setup::placement::PlacementError;
use crate::backend::setup::road::{node_has_road_to, road_refused, with_road_between, Road};
use crate::backend::setup::settlement::Settlement;

verus! {

/// What a player can do. The enumerator offers actions, a player picks one
/// and the executor applies it.
#[derive(Clone, Debug, PartialEq)]
pub enum Action {
    /// In set-up: a settlement on the first node and a road to the second.
    SetUpMove(u32, u32),
    /// Move a robber (by index) to a tile and rob a victim, if any.
    Robber(u32, u32, Option<u32>),
    /// Discard this many cards of each resource.
    DiscardCards(Vec<u32>),
    NoDiscard,
    NoCardPlay,
    /// Play a development card.
    CardPlay(CardType),
    NoTrade,
    /// Trade four of the first resource for one of the second.
    BankTrade(u32, u32),
    /// Trade at a harbor of the given type: supply the second number's
    /// resource, demand the third's.
    HarborTrade(u32, u32, u32),
    /// Offer a trade to the other players.
    TradeQuote(Quote),
    /// A player's answer to the pending quote.
    TradeResponse(u32, bool),
    NoBuying,
    BuildRoad(u32, u32),
    BuildSettlement(u32),
    BuildCity(u32),
    BuyDevCard,
    FinishRound,
    Save,
    Quit,
}

/// An offer to trade: the quoting player supplies a quantity of one
/// resource against a quantity of another.
#[derive(Clone, Copy, Debug, PartialEq, Eq, Structural)]
pub struct Quote {
    pub quoting_player: usize,
    pub resource_supplied: u32,
    pub quantity_supplied: u32,
    pub resource_demanded: u32,
    pub quantity_demanded: u32,
}

/// The mathematical content of an [`Action`].
pub enum ActionModel {
    SetUpMove(u32, u32),
    Robber(u32, u32, Option<u32>),
    DiscardCards(Seq<u32>),
    NoDiscard,
    NoCardPlay,
    CardPlay(CardType),
    NoTrade,
    BankTrade(u32, u32),
    HarborTrade(u32, u32, u32),
    TradeQuote(Quote),
    TradeResponse(u32, bool),
    NoBuying,
    BuildRoad(u32, u32),
    BuildSettlement(u32),
    BuildCity(u32),
    BuyDevCard,
    FinishRound,
    Save,
    Quit,
}

impl DeepView for Action {
    type V = ActionModel;

    open spec fn deep_view(&self) -> ActionModel {
        match *self {
            Action::SetUpMove(a, b) => ActionModel::SetUpMove(a, b),
            Action::Robber(a, b, c) => ActionModel::Robber(a, b, c),
            Action::DiscardCards(v) => ActionModel::DiscardCards(v@),
            Action::NoDiscard => ActionModel::NoDiscard,
            Action::NoCardPlay => ActionModel::NoCardPlay,
            Action::CardPlay(c) => ActionModel::CardPlay(c),
            Action::NoTrade => ActionModel::NoTrade,
            Action::BankTrade(a, b) => ActionModel::BankTrade(a, b),
            Action::HarborTrade(a, b, c) => ActionModel::HarborTrade(a, b, c),
            Action::TradeQuote(q) => ActionModel::TradeQuote(q),
            Action::TradeResponse(a, b) => ActionModel::TradeResponse(a, b),
            Action::NoBuying => ActionModel::NoBuying,
            Action::BuildRoad(a, b) => ActionModel::BuildRoad(a, b),
            Action::BuildSettlement(a) => ActionModel::BuildSettlement(a),
            Action::BuildCity(a) => ActionModel::BuildCity(a),
            Action::BuyDevCard => ActionModel::BuyDevCard,
            Action::FinishRound => ActionModel::FinishRound,
            Action::Save => ActionModel::Save,
            Action::Quit => ActionModel::Quit,
        }
    }
}

/// A copy of the action.
pub fn copy_action(action: &Action) -> (copy: Action)
    ensures
        copy.deep_view() == action.deep_view(),
{
    match action {
        Action::SetUpMove(a, b) => Action::SetUpMove(*a, *b),
        Action::Robber(a, b, c) => Action::Robber(*a, *b, *c),
        Action::DiscardCards(hand) => Action::DiscardCards(hand.clone()),
        Action::NoDiscard => Action::NoDiscard,
        Action::NoCardPlay => Action::NoCardPlay,
        Action::CardPlay(card) => Action::CardPlay(*card),
        Action::NoTrade => Action::NoTrade,
        Action::BankTrade(a, b) => Action::BankTrade(*a, *b),
        Action::HarborTrade(a, b, c) => Action::HarborTrade(*a, *b, *c),
        Action::TradeQuote(quote) => Action::TradeQuote(*quote),
        Action::TradeResponse(a, b) => Action::TradeResponse(*a, *b),
        Action::NoBuying => Action::NoBuying,
        Action::BuildRoad(a, b) => Action::BuildRoad(*a, *b),
        Action::BuildSettlement(a) => Action::BuildSettlement(*a),
        Action::BuildCity(a) => Action::BuildCity(*a),
        Action::BuyDevCard => Action::BuyDevCard,
        Action::FinishRound => Action::FinishRound,
        Action::Save => Action::Save,
        Action::Quit => Action::Quit,
    }
}

/// A road that is not refused stays free to build after another road was
/// built between two other nodes.
pub proof fn lemma_second_road_free(nodes: Seq<NodeModel>, first: Road, c: u32, d: u32)
    requires
        first.nodes.0 < nodes.len(),
        first.nodes.1 < nodes.len(),
        c < nodes.len(),
        d < nodes.len(),
        !road_refused(nodes, first.nodes.0, first.nodes.1),
        !road_refused(nodes, c, d),
        !same_edge(first.nodes.0, first.nodes.1, c, d),
    ensures
        !road_refused(with_road_between(nodes, first), c, d),
{
    let after = with_road_between(nodes, first);
    let a = first.nodes.0;
    let b = first.nodes.1;
    if after[c as int].has_road_to(d) {
        let list = after[c as int].road_list();
        let k = choose|k: int| 0 <= k < list.len() && (#[trigger] list[k]).1 == d;
        let old_list = nodes[c as int].road_list();
        if k < old_list.len() {
            assert(old_list[k] == list[k]);
            assert(nodes[c as int].has_road_to(d));
        }
    }
    if after[d as int].has_road_to(c) {
        let list = after[d as int].road_list();
        let k = choose|k: int| 0 <= k < list.len() && (#[trigger] list[k]).1 == c;
        let old_list = nodes[d as int].road_list();
        if k < old_list.len() {
            assert(old_list[k] == list[k]);
            assert(nodes[d as int].has_road_to(c));
        }
    }
}

/// Whether a road between nodes `a` and `b` is refused.
pub fn is_road_refused(nodes: &Vec<Node>, a: u32, b: u32) -> (refused: bool)
    requires
        a < nodes.len(),
        b < nodes.len(),
    ensures
        refused == road_refused(nodes.deep_view(), a, b),
{
    assert(nodes.deep_view()[a as int] == nodes[a as int].deep_view());
    assert(nodes.deep_view()[b as int] == nodes[b as int].deep_view());
    a == b || node_has_road_to(&nodes[a as usize], b) || node_has_road_to(&nodes[b as usize], a)
}

/// Why a settlement cannot be placed on a node of the given status, if it
/// cannot.
pub fn settlement_refused(status: NodeStatus) -> (refused: Option<PlacementError>)
    ensures
        refused == crate::backend::setup::settlement::settlement_refusal(status),
{
    match status {
        NodeStatus::Free => None,
        NodeStatus::Adjacent => Some(PlacementError::SettlementNextToBuilding),
        NodeStatus::Settled(_) => Some(PlacementError::SettlementOnSettlement),
        NodeStatus::Citied(_) => Some(PlacementError::SettlementOnCity),
    }
}

/// Why `player` cannot place a city on a node of the given status, if the
/// player cannot.
pub fn city_refused(status: NodeStatus, player: u32) -> (refused: Option<PlacementError>)
    ensures
        refused == crate::backend::setup::city::city_refusal(status, player),
{
    match status {
        NodeStatus::Free => Some(PlacementError::CityWithoutSettlement),
        NodeStatus::Adjacent => Some(PlacementError::CityNextToBuilding),
        NodeStatus::Settled(owner) => if owner == player {
            None
        } else {
            Some(PlacementError::CityOnOtherPlayer)
        },
        NodeStatus::Citied(_) => Some(PlacementError::CityOnCity),
    }
}

/// The holder of an award after the sizes changed.
pub fn award_holder(sizes: &Vec<u32>, previous: Option<(u32, u32)>, least: u32) -> (holder: Option<
    (u32, u32),
>)
    requires
        sizes.len() <= u32::MAX,
    ensures
        holder == holder_after(sizes@, previous, least),
{
    if sizes.len() == 0 {
        return None;
    }
    let mut top: u32 = 0;
    let mut at: usize = 0;
    let mut i: usize = 0;
    while i < sizes.len()
        invariant
            i <= sizes.len() <= u32::MAX,
            top == seq_max(sizes@.take(i as int)),
            at == last_at_top(sizes@.take(i as int)),
            at <= i,
        decreases sizes.len() - i,
    {
        assert(sizes@.take(i + 1).drop_last() =~= sizes@.take(i as int));
        if sizes[i] >= top {
            top = sizes[i];
            at = i;
        }
        i = i + 1;
    }
    assert(sizes@.take(sizes.len() as int) =~= sizes@);
    if top < least {
        return previous;
    }
    match previous {
        Some((player, _)) => {
            if (player as usize) < sizes.len() && sizes[player as usize] == top {
                return Some((player, top));
            }
        },
        None => {},
    }
    Some((at as u32, top))
}

/// Builds a road of the active player between two nodes, without payment.
pub fn place_road(game: &mut Game, start_node: u32, end_node: u32)
    requires
        old(game).deep_view().wf(),
        start_node < old(game).round.board.nodes.len(),
        end_node < old(game).round.board.nodes.len(),
        !road_refused(old(game).deep_view().round.board.nodes, start_node, end_node),
    ensures
        final(game).deep_view() == with_board(
            old(game).deep_view(),
            old(game).deep_view().round.board.road_built(
                old(game).round.active_player,
                start_node,
                end_node,
            ),
        ),
        final(game).deep_view().wf(),
{
    let player = game.round.active_player;
    build_road(&mut game.round.board, &game.parameters, player, start_node, end_node);
}

/// Makes the active player pay for a road.
pub fn pay_road(game: &mut Game)
    requires
        old(game).deep_view().wf(),
    ensures
        final(game).deep_view() == with_board(
            old(game).deep_view(),
            old(game).deep_view().round.board.charged(
                old(game).round.active_player as int,
                old(game).parameters.cost(0),
            ),
        ),
        final(game).deep_view().wf(),
{
    let player = game.round.active_player;
    charge(&mut game.round.board, &game.parameters, player, &game.parameters.building_costs[0]);
}

/// Builds a road of the active player and makes the player pay for it.
pub fn place_and_pay_road(game: &mut Game, start_node: u32, end_node: u32)
    requires
        old(game).deep_view().wf(),
        start_node < old(game).round.board.nodes.len(),
        end_node < old(game).round.board.nodes.len(),
        !road_refused(old(game).deep_view().round.board.nodes, start_node, end_node),
    ensures
        final(game).deep_view() == with_board(
            old(game).deep_view(),
            old(game).deep_view().round.board.road_built(
                old(game).round.active_player,
                start_node,
                end_node,
            ).charged(old(game).round.active_player as int, old(game).parameters.cost(0)),
        ),
        final(game).deep_view().wf(),
{
    place_road(game, start_node, end_node);
    pay_road(game);
}

/// Builds a settlement of the active player on a free node, without
/// payment.
pub fn place_settlement(game: &mut Game, node_id: u32, building_name: Option<String>)
    requires
        old(game).deep_view().wf(),
        node_id < old(game).round.board.nodes.len(),
        old(game).round.board.nodes[node_id as int].node_status is Free,
    ensures
        final(game).deep_view() == with_board(
            old(game).deep_view(),
            old(game).deep_view().round.board.settlement_built(
                crate::backend::setup::settlement::BuildingModel {
                    name: building_name.deep_view(),
                    node_id,
                    player_id: old(game).round.active_player,
                },
            ),
        ),
        final(game).deep_view().wf(),
{
    let player = game.round.active_player;
    let settlement = Settlement { name: building_name, node_id, player_id: player };
    build_settlement(&mut game.round.board, &game.parameters, settlement);
}

/// Makes the active player pay for a settlement.
pub fn pay_settlement(game: &mut Game)
    requires
        old(game).deep_view().wf(),
    ensures
        final(game).deep_view() == with_board(
            old(game).deep_view(),
            old(game).deep_view().round.board.charged(
                old(game).round.active_player as int,
                old(game).parameters.cost(1),
            ),
        ),
        final(game).deep_view().wf(),
{
    let player = game.round.active_player;
    charge(&mut game.round.board, &game.parameters, player, &game.parameters.building_costs[1]);
}

/// Builds a settlement of the active player and makes the player pay for
/// it.
pub fn place_and_pay_settlement(game: &mut Game, node_id: u32, building_name: Option<String>)
    requires
        old(game).deep_view().wf(),
        node_id < old(game).round.board.nodes.len(),
        old(game).round.board.nodes[node_id as int].node_status is Free,
    ensures
        final(game).deep_view() == with_board(
            old(game).deep_view(),
            old(game).deep_view().round.board.settlement_built(
                crate::backend::setup::settlement::BuildingModel {
                    name: building_name.deep_view(),
                    node_id,
                    player_id: old(game).round.active_player,
                },
            ).charged(old(game).round.active_player as int, old(game).parameters.cost(1)),
        ),
        final(game).deep_view().wf(),
{
    place_settlement(game, node_id, building_name);
    pay_settlement(game);
}

impl Game {
    /// Whether the game can take `action` at all: whether every node, tile,
    /// robber, player and resource that the action names exists.
    pub fn accepts_action(&self, action: &Action) -> (accepted: bool)
        requires
            self.deep_view().wf(),
        ensures
            accepted == accepts(self.deep_view(), action.deep_view()),
    {
        proof {
            reveal(accepts);
        }
        let nodes = self.round.board.nodes.len();
        let tiles = self.round.board.tiles.len();
        let robbers = self.round.board.v_robbers.len();
        let players = self.parameters.n_players;
        let resources = self.parameters.n_resources;
        match action {
            Action::SetUpMove(a, b) => (*a as usize) < nodes && (*b as usize) < nodes,
            Action::Robber(r, t, v) => (*r as usize) < robbers && (*t as usize) < tiles && match v {
                Some(victim) => *victim < players,
                None => true,
            },
            Action::DiscardCards(d) => d.len() == resources as usize,
            Action::CardPlay(card) => match card {
                CardType::VPCard => true,
                CardType::KnightCard(r, t, v) => (*r as usize) < robbers && (*t as usize) < tiles
                    && match v {
                    Some(victim) => *victim < players,
                    None => true,
                },
                CardType::RoadsCard(a, b, c, d) => (*a as usize) < nodes && (*b as usize) < nodes
                    && (*c as usize) < nodes && (*d as usize) < nodes,
                CardType::PlentyCard(first, second) => *first < resources && *second < resources,
                CardType::MonopolyCard(r) => *r < resources,
            },
            Action::BankTrade(s, d) => *s < resources && *d < resources,
            Action::HarborTrade(_, s, d) => *s < resources && *d < resources,
            Action::TradeResponse(_, accept) => {
                if *accept {
                    match &self.round.action {
                        Some(Action::TradeQuote(q)) => q.quoting_player < players as usize
                            && q.resource_supplied < resources && q.resource_demanded < resources,
                        _ => true,
                    }
                } else {
                    true
                }
            },
            Action::BuildRoad(a, b) => (*a as usize) < nodes && (*b as usize) < nodes,
            Action::BuildSettlement(n) => (*n as usize) < nodes,
            Action::BuildCity(n) => (*n as usize) < nodes,
            Action::Quit => false,
            _ => true,
        }
    }

    /// Why the board refuses `action`, if it does.
    pub fn placement_refusal(&self, action: &Action) -> (refused: Option<PlacementError>)
        requires
            self.deep_view().wf(),
            accepts(self.deep_view(), action.deep_view()),
        ensures
            refused == refusal(self.deep_view(), action.deep_view()),
    {
        proof {
            reveal(accepts);
            reveal(refusal);
        }
        let nodes = &self.round.board.nodes;
        let player = self.round.active_player;
        match action {
            Action::SetUpMove(a, b) => {
                assert(nodes.deep_view()[*a as int] == nodes[*a as int].deep_view());
                let settlement = settlement_refused(nodes[*a as usize].node_status);
                if settlement.is_some() {
                    settlement
                } else if is_road_refused(nodes, *a, *b) {
                    Some(PlacementError::RoadOnRoad)
                } else {
                    None
                }
            },
            Action::CardPlay(CardType::RoadsCard(a, b, c, d)) => {
                let first = make_edge(*a, *b);
                let second = make_edge(*c, *d);
                if is_road_refused(nodes, *a, *b) || is_road_refused(nodes, *c, *d) || (first.0
                    == second.0 && first.1 == second.1) {
                    Some(PlacementError::RoadOnRoad)
                } else {
                    None
                }
            },
            Action::BuildRoad(a, b) => {
                if is_road_refused(nodes, *a, *b) {
                    Some(PlacementError::RoadOnRoad)
                } else {
                    None
                }
            },
            Action::BuildSettlement(n) => {
                assert(nodes.deep_view()[*n as int] == nodes[*n as int].deep_view());
                settlement_refused(nodes[*n as usize].node_status)
            },
            Action::BuildCity(n) => {
                assert(nodes.deep_view()[*n as int] == nodes[*n as int].deep_view());
                city_refused(nodes[*n as usize].node_status, player)
            },
            _ => None,
        }
    }

    /// Brings the board up to date: measures every player's longest route,
    /// counts the scores, and passes the awards on where a player has taken
    /// the lead.
    pub fn refresh_board(&mut self)
        requires
            old(self).deep_view().wf(),
        ensures
            final(self).deep_view() == with_board(
                old(self).deep_view(),
                refreshed(old(self).deep_view().round.board, old(self).parameters.n_players as int),
            ),
            final(self).deep_view().wf(),
    {
        let n_players = self.parameters.n_players;
        let lengths = match &self.round.board.roads {
            Some(roads) => Some(measure_roads(roads, n_players)),
            None => None,
        };
        self.round.board.longest_roads = lengths;
        let (scores, public_scores) = self.round.board.count_scores(n_players);
        self.round.board.scores = scores;
        self.round.board.public_scores = public_scores;
        let road_holder = match &self.round.board.longest_roads {
            Some(lengths) => award_holder(
                lengths,
                self.round.board.prev_longest_road,
                MIN_LONGEST_ROAD,
            ),
            None => None,
        };
        self.round.board.prev_longest_road = road_holder;
        let army_holder = award_holder(
            &self.round.board.armies,
            self.round.board.prev_largest_army,
            MIN_LARGEST_ARMY,
        );
        self.round.board.prev_largest_army = army_holder;
    }

    /// Makes the active player play `card`, where the board does not refuse
    /// it.
    fn play_card(&mut self, card: CardType)
        requires
            old(self).deep_view().wf(),
            accepts(old(self).deep_view(), ActionModel::CardPlay(card)),
            refusal(old(self).deep_view(), ActionModel::CardPlay(card)) is None,
        ensures
            final(self).deep_view() == card_played(old(self).deep_view(), card),
            final(self).deep_view().wf(),
    {
        proof {
            reveal(accepts);
            reveal(refusal);
        }
        let ghost start = self.deep_view();
        let player = self.round.active_player;
        show_card(&mut self.round.board, &self.parameters, player, card.kind_index());
        match card {
            CardType::VPCard => {},
            CardType::KnightCard(robber, tile, victim) => {
                play_robber(self, robber, tile, victim);
            },
            CardType::RoadsCard(a, b, c, d) => {
                proof {
                    lemma_second_road_free(start.round.board.nodes, Road { player, nodes: (a, b) }, c, d);
                }
                build_road(&mut self.round.board, &self.parameters, player, a, b);
                build_road(&mut self.round.board, &self.parameters, player, c, d);
            },
            CardType::PlentyCard(first, second) => {
                grant(&mut self.round.board, &self.parameters, player, first, second);
            },
            CardType::MonopolyCard(resource) => {
                monopolize(&mut self.round.board, &self.parameters, player, resource);
            },
        }
        self.round.cards_played = self.round.cards_played.saturating_add(1);
    }

    /// Makes the active player place a settlement and a road from it.
    fn apply_setup_move(&mut self, node: u32, road_end: u32, building_name: Option<String>)
        requires
            old(self).deep_view().wf(),
            accepts(old(self).deep_view(), ActionModel::SetUpMove(node, road_end)),
            refusal(old(self).deep_view(), ActionModel::SetUpMove(node, road_end)) is None,
        ensures
            final(self).deep_view() == applied(
                old(self).deep_view(),
                ActionModel::SetUpMove(node, road_end),
                building_name.deep_view(),
            ),
            final(self).deep_view().wf(),
    {
        proof {
            reveal(accepts);
            reveal(refusal);
            reveal(applied);
        }
        self.round.outcome = None;
        assert(self.deep_view().round.board.nodes[node as int]
            == self.round.board.nodes[node as int].deep_view());
        place_road(self, node, road_end);
        assert(self.deep_view().round.board.nodes[node as int]
            == self.round.board.nodes[node as int].deep_view());
        place_settlement(self, node, building_name);
    }

    /// Moves a robber for the active player.
    fn apply_robber(
        &mut self,
        robber: u32,
        tile: u32,
        victim: Option<u32>,
        Ghost(name): Ghost<Option<Seq<char>>>,
    )
        requires
            old(self).deep_view().wf(),
            accepts(old(self).deep_view(), ActionModel::Robber(robber, tile, victim)),
        ensures
            final(self).deep_view() == applied(
                old(self).deep_view(),
                ActionModel::Robber(robber, tile, victim),
                name,
            ),
            final(self).deep_view().wf(),
    {
        proof {
            reveal(accepts);
            reveal(refusal);
            reveal(applied);
        }
        self.round.outcome = None;
        play_robber(self, robber, tile, victim);
    }

    /// Makes the active player pay `amounts` without getting anything.
    fn apply_discard(&mut self, amounts: &Vec<u32>, Ghost(name): Ghost<Option<Seq<char>>>)
        requires
            old(self).deep_view().wf(),
        ensures
            final(self).deep_view() == applied(
                old(self).deep_view(),
                ActionModel::DiscardCards(amounts@),
                name,
            ),
            final(self).deep_view().wf(),
    {
        proof {
            reveal(accepts);
            reveal(refusal);
            reveal(applied);
        }
        self.round.outcome = None;
        let player = self.round.active_player;
        charge(&mut self.round.board, &self.parameters, player, amounts);
    }

    /// Makes the active player trade with the bank.
    fn apply_bank_trade(
        &mut self,
        supplied: u32,
        demanded: u32,
        Ghost(name): Ghost<Option<Seq<char>>>,
    )
        requires
            old(self).deep_view().wf(),
            accepts(old(self).deep_view(), ActionModel::BankTrade(supplied, demanded)),
        ensures
            final(self).deep_view() == applied(
                old(self).deep_view(),
                ActionModel::BankTrade(supplied, demanded),
                name,
            ),
            final(self).deep_view().wf(),
    {
        proof {
            reveal(accepts);
            reveal(applied);
        }
        self.round.outcome = None;
        let player = self.round.active_player;
        exchange(&mut self.round.board, &self.parameters, player, supplied, demanded, 4);
    }

    /// Makes the active player trade at a harbor of the given kind.
    fn apply_harbor_trade(
        &mut self,
        harbor_type: u32,
        supplied: u32,
        demanded: u32,
        Ghost(name): Ghost<Option<Seq<char>>>,
    )
        requires
            old(self).deep_view().wf(),
            accepts(old(self).deep_view(), ActionModel::HarborTrade(harbor_type, supplied, demanded)),
        ensures
            final(self).deep_view() == applied(
                old(self).deep_view(),
                ActionModel::HarborTrade(harbor_type, supplied, demanded),
                name,
            ),
            final(self).deep_view().wf(),
    {
        proof {
            reveal(accepts);
            reveal(applied);
        }
        self.round.outcome = None;
        let player = self.round.active_player;
        let rate = if harbor_type < self.parameters.n_resources {
            2
        } else {
            3
        };
        exchange(&mut self.round.board, &self.parameters, player, supplied, demanded, rate);
    }

    /// Records the active player's answer to the pending quote and settles
    /// the trade where the answer is yes.
    fn apply_response(
        &mut self,
        responder: u32,
        accept: bool,
        Ghost(name): Ghost<Option<Seq<char>>>,
    )
        requires
            old(self).deep_view().wf(),
            accepts(old(self).deep_view(), ActionModel::TradeResponse(responder, accept)),
        ensures
            final(self).deep_view() == applied(
                old(self).deep_view(),
                ActionModel::TradeResponse(responder, accept),
                name,
            ),
            final(self).deep_view().wf(),
    {
        proof {
            reveal(accepts);
            reveal(refusal);
            reveal(applied);
        }
        let player = self.round.active_player;
        if accept {
            let quote = match &self.round.action {
                Some(Action::TradeQuote(q)) => Some(*q),
                _ => None,
            };
            match quote {
                Some(q) => {
                    settle_trade(&mut self.round.board, &self.parameters, &q, player);
                },
                None => {},
            }
        }
        self.round.outcome = Some(Outcome::TradeOutcome(player, accept));
    }

    /// Builds a road for the active player, against payment.
    fn apply_build_road(
        &mut self,
        start_node: u32,
        end_node: u32,
        Ghost(name): Ghost<Option<Seq<char>>>,
    )
        requires
            old(self).deep_view().wf(),
            accepts(old(self).deep_view(), ActionModel::BuildRoad(start_node, end_node)),
            refusal(old(self).deep_view(), ActionModel::BuildRoad(start_node, end_node)) is None,
        ensures
            final(self).deep_view() == applied(
                old(self).deep_view(),
                ActionModel::BuildRoad(start_node, end_node),
                name,
            ),
            final(self).deep_view().wf(),
    {
        proof {
            reveal(accepts);
            reveal(refusal);
            reveal(applied);
        }
        self.round.outcome = None;
        place_and_pay_road(self, start_node, end_node);
    }

    /// Builds a settlement for the active player, against payment.
    fn apply_build_settlement(&mut self, node_id: u32, building_name: Option<String>)
        requires
            old(self).deep_view().wf(),
            accepts(old(self).deep_view(), ActionModel::BuildSettlement(node_id)),
            refusal(old(self).deep_view(), ActionModel::BuildSettlement(node_id)) is None,
        ensures
            final(self).deep_view() == applied(
                old(self).deep_view(),
                ActionModel::BuildSettlement(node_id),
                building_name.deep_view(),
            ),
            final(self).deep_view().wf(),
    {
        proof {
            reveal(accepts);
            reveal(refusal);
            reveal(applied);
        }
        self.round.outcome = None;
        assert(self.deep_view().round.board.nodes[node_id as int]
            == self.round.board.nodes[node_id as int].deep_view());
        place_and_pay_settlement(self, node_id, building_name);
    }

    /// Builds a city for the active player, against payment.
    fn apply_build_city(&mut self, node_id: u32, building_name: Option<String>)
        requires
            old(self).deep_view().wf(),
            accepts(old(self).deep_view(), ActionModel::BuildCity(node_id)),
            refusal(old(self).deep_view(), ActionModel::BuildCity(node_id)) is None,
        ensures
            final(self).deep_view() == applied(
                old(self).deep_view(),
                ActionModel::BuildCity(node_id),
                building_name.deep_view(),
            ),
            final(self).deep_view().wf(),
    {
        proof {
            reveal(accepts);
            reveal(refusal);
            reveal(applied);
        }
        self.round.outcome = None;
        let player = self.round.active_player;
        assert(self.deep_view().round.board.nodes[node_id as int]
            == self.round.board.nodes[node_id as int].deep_view());
        let city = City { name: building_name, node_id, player_id: player };
        build_city(&mut self.round.board, &self.parameters, city);
        charge(&mut self.round.board, &self.parameters, player, &self.parameters.building_costs[2]);
    }

    /// Makes the active player play a card or buy one.
    fn apply_card(&mut self, card: Option<CardType>, Ghost(name): Ghost<Option<Seq<char>>>)
        requires
            old(self).deep_view().wf(),
            card matches Some(c) ==> accepts(old(self).deep_view(), ActionModel::CardPlay(c))
                && refusal(old(self).deep_view(), ActionModel::CardPlay(c)) is None,
        ensures
            final(self).deep_view() == applied(
                old(self).deep_view(),
                match card {
                    Some(c) => ActionModel::CardPlay(c),
                    None => ActionModel::BuyDevCard,
                },
                name,
            ),
            final(self).deep_view().wf(),
    {
        proof {
            reveal(accepts);
            reveal(refusal);
            reveal(applied);
        }
        self.round.outcome = None;
        match card {
            Some(c) => {
                self.play_card(c);
            },
            None => {
                buy_card(self);
            },
        }
    }

    /// Makes `legal_action` take effect on the board, on the seeds and on
    /// the outcome.
    fn apply(&mut self, legal_action: &Action, building_name: Option<String>)
        requires
            old(self).deep_view().wf(),
            accepts(old(self).deep_view(), legal_action.deep_view()),
            refusal(old(self).deep_view(), legal_action.deep_view()) is None,
        ensures
            final(self).deep_view() == applied(
                old(self).deep_view(),
                legal_action.deep_view(),
                building_name.deep_view(),
            ),
            final(self).deep_view().wf(),
    {
        let ghost name = building_name.deep_view();
        match legal_action {
            Action::SetUpMove(settlement_node, road_end) => {
                self.apply_setup_move(*settlement_node, *road_end, building_name);
            },
            Action::Robber(robber, tile, victim) => {
                self.apply_robber(*robber, *tile, *victim, Ghost(name));
            },
            Action::DiscardCards(discarded) => {
                self.apply_discard(discarded, Ghost(name));
            },
            Action::CardPlay(card) => {
                self.apply_card(Some(*card), Ghost(name));
            },
            Action::BankTrade(supplied, demanded) => {
                self.apply_bank_trade(*supplied, *demanded, Ghost(name));
            },
            Action::HarborTrade(harbor_type, supplied, demanded) => {
                self.apply_harbor_trade(*harbor_type, *supplied, *demanded, Ghost(name));
            },
            Action::TradeResponse(responder, accept) => {
                self.apply_response(*responder, *accept, Ghost(name));
            },
            Action::BuildRoad(start_node, end_node) => {
                self.apply_build_road(*start_node, *end_node, Ghost(name));
            },
            Action::BuildSettlement(node_id) => {
                self.apply_build_settlement(*node_id, building_name);
            },
            Action::BuildCity(node_id) => {
                self.apply_build_city(*node_id, building_name);
            },
            Action::BuyDevCard => {
                self.apply_card(None, Ghost(name));
            },
            _ => {
                self.apply_nothing(legal_action, Ghost(name));
            },
        }
    }

    /// Clears the outcome for an action that leaves the board alone.
    fn apply_nothing(&mut self, legal_action: &Action, Ghost(name): Ghost<Option<Seq<char>>>)
        requires
            match legal_action.deep_view() {
                ActionModel::NoDiscard => true,
                ActionModel::NoCardPlay => true,
                ActionModel::NoTrade => true,
                ActionModel::TradeQuote(_) => true,
                ActionModel::NoBuying => true,
                ActionModel::FinishRound => true,
                ActionModel::Save => true,
                ActionModel::Quit => true,
                _ => false,
            },
            old(self).deep_view().wf(),
        ensures
            final(self).deep_view() == applied(old(self).deep_view(), legal_action.deep_view(), name),
            final(self).deep_view().wf(),
    {
        proof {
            reveal(applied);
        }
        self.round.outcome = None;
    }

    /// Puts `legal_action` on record as the last action.
    fn record(&mut self, legal_action: Action)
        ensures
            final(self).deep_view() == recorded(old(self).deep_view(), legal_action.deep_view()),
    {
        match legal_action {
            Action::TradeResponse(_, _) => {},
            _ => {
                self.round.action = Some(legal_action);
            },
        }
    }

    /// Carries out `legal_action` for the active player up to the move of
    /// the phase: the action takes effect, it goes on record and the board
    /// is brought up to date. The result is the outcome of the action, if
    /// it has one. Where the board refuses a placement that the action asks
    /// for, the game stays as it was and the error says why.
    /// `building_name` names the settlement or city that the action builds.
    pub fn carry_out(&mut self, legal_action: &Action, building_name: Option<String>) -> (result:
        Result<Option<Outcome>, PlacementError>)
        requires
            old(self).deep_view().wf(),
            accepts(old(self).deep_view(), legal_action.deep_view()),
        ensures
            final(self).deep_view().wf(),
            match result {
                Ok(outcome) => {
                    &&& refusal(old(self).deep_view(), legal_action.deep_view()) is None
                    &&& final(self).deep_view() == carried_out(
                        old(self).deep_view(),
                        legal_action.deep_view(),
                        building_name.deep_view(),
                    )
                    &&& outcome == final(self).round.outcome
                },
                Err(e) => {
                    &&& refusal(old(self).deep_view(), legal_action.deep_view()) == Some(e)
                    &&& *final(self) == *old(self)
                },
            },
    {
        match self.placement_refusal(legal_action) {
            Some(e) => {
                return Err(e);
            },
            None => {},
        }
        self.apply(legal_action, building_name);
        self.record(copy_action(legal_action));
        self.refresh_board();
        Ok(self.round.outcome)
    }

    /// Carries out `legal_action` for the active player: the action takes
    /// effect, it goes on record, the board is brought up to date and the
    /// phase moves on. The result is the outcome of the action, if it has
    /// one. Where the board refuses a placement that the action asks for,
    /// the game stays as it was and the error says why. `building_name`
    /// names the settlement or city that the action builds.
    pub fn take_action(&mut self, legal_action: Action, building_name: Option<String>) -> (result:
        Result<Option<Outcome>, PlacementError>)
        requires
            old(self).deep_view().wf(),
            accepts(old(self).deep_view(), legal_action.deep_view()),
        ensures
            final(self).deep_view().wf(),
            match result {
                Ok(outcome) => {
                    &&& refusal(old(self).deep_view(), legal_action.deep_view()) is None
                    &&& final(self).deep_view() == played(
                        old(self).deep_view(),
                        legal_action.deep_view(),
                        building_name.deep_view(),
                    )
                    &&& outcome == final(self).round.outcome
                },
                Err(e) => {
                    &&& refusal(old(self).deep_view(), legal_action.deep_view()) == Some(e)
                    &&& *final(self) == *old(self)
                },
            },
    {
        match self.carry_out(&legal_action, building_name) {
            Ok(outcome) => {
                self.iterate_phase(&legal_action);
                Ok(outcome)
            },
            Err(e) => Err(e),
        }
    }
}

} // verus!
