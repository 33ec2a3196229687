use vstd::prelude::*;
use crate::backend::setup::node::{Node, NodeModel};

verus! {

/// The least length of a route that earns the longest-road award.
pub const MIN_LONGEST_ROAD: u32 = 5;

/// The least number of knights that earns the largest-army award.
pub const MIN_LARGEST_ARMY: u32 = 3;

/// Number of nodes that record a settlement of `player`. A settlement stays
/// on record when it grows into a city.
pub open spec fn settlement_count(nodes: Seq<NodeModel>, player: u32) -> nat
    decreases nodes.len(),
{
    if nodes.len() == 0 {
        0
    } else {
        settlement_count(nodes.drop_last(), player) + if nodes.last().settlement matches Some(s)
            && s.player_id == player {
            1nat
        } else {
            0nat
        }
    }
}

/// Number of nodes that record a city of `player`.
pub open spec fn city_count(nodes: Seq<NodeModel>, player: u32) -> nat
    decreases nodes.len(),
{
    if nodes.len() == 0 {
        0
    } else {
        city_count(nodes.drop_last(), player) + if nodes.last().city matches Some(c) && c.player_id
            == player {
            1nat
        } else {
            0nat
        }
    }
}

/// Whether `player` holds the award for the largest of `sizes`: the player's
/// size is at least `least`, nobody's size is larger, and either everybody
/// else's size is smaller or the player is the holder `previous` names, who
/// keeps the award on a tie.
pub open spec fn holds_award(
    sizes: Seq<u32>,
    previous: Option<(u32, u32)>,
    player: u32,
    least: u32,
) -> bool {
    &&& player < sizes.len()
    &&& sizes[player as int] >= least
    &&& forall|j: int| 0 <= j < sizes.len() ==> sizes[j] <= sizes[player as int]
    &&& {
        ||| forall|j: int| 0 <= j < sizes.len() && j != player ==> sizes[j] < sizes[player as int]
        ||| previous matches Some(holder) && holder.0 == player
    }
}

/// Whether `player` holds the longest-road award. Without a table of road
/// lengths nobody does.
pub open spec fn holds_longest_road(
    longest_roads: Option<Seq<u32>>,
    previous: Option<(u32, u32)>,
    player: u32,
) -> bool {
    longest_roads matches Some(lengths) && holds_award(lengths, previous, player, MIN_LONGEST_ROAD)
}

/// Whether `player` holds the largest-army award.
pub open spec fn holds_largest_army(
    armies: Seq<u32>,
    previous: Option<(u32, u32)>,
    player: u32,
) -> bool {
    holds_award(armies, previous, player, MIN_LARGEST_ARMY)
}

/// The points of a player: one for each settlement on record, one more for
/// each city, one for each victory card, and two for each award held.
pub open spec fn score_total(
    settlements: nat,
    cities: nat,
    victory_cards: nat,
    longest_road: bool,
    largest_army: bool,
) -> nat {
    settlements + cities + victory_cards + if longest_road {
        2nat
    } else {
        0nat
    } + if largest_army {
        2nat
    } else {
        0nat
    }
}

/// A number of points as a `u32`: the number itself, or the largest `u32`
/// where it is beyond that.
pub open spec fn capped(total: nat) -> u32 {
    if total > u32::MAX {
        u32::MAX
    } else {
        total as u32
    }
}

/// The score of `player` on a board, counting `victory_cards` victory
/// cards.
pub open spec fn score_of(
    nodes: Seq<NodeModel>,
    victory_cards: u32,
    longest_roads: Option<Seq<u32>>,
    prev_longest_road: Option<(u32, u32)>,
    armies: Seq<u32>,
    prev_largest_army: Option<(u32, u32)>,
    player: u32,
) -> u32 {
    capped(
        score_total(
            settlement_count(nodes, player),
            city_count(nodes, player),
            victory_cards as nat,
            holds_longest_road(longest_roads, prev_longest_road, player),
            holds_largest_army(armies, prev_largest_army, player),
        ),
    )
}

proof fn lemma_counts_bounded(nodes: Seq<NodeModel>, player: u32)
    ensures
        settlement_count(nodes, player) <= nodes.len(),
        city_count(nodes, player) <= nodes.len(),
    decreases nodes.len(),
{
    if nodes.len() > 0 {
        lemma_counts_bounded(nodes.drop_last(), player);
    }
}

/// More settlements, cities or victory cards never lower the points, and so
/// never lower the score.
pub proof fn lemma_score_monotonic(
    settlements: nat,
    cities: nat,
    victory_cards: nat,
    more_settlements: nat,
    more_cities: nat,
    more_victory_cards: nat,
    longest_road: bool,
    largest_army: bool,
)
    requires
        settlements <= more_settlements,
        cities <= more_cities,
        victory_cards <= more_victory_cards,
    ensures
        score_total(settlements, cities, victory_cards, longest_road, largest_army) <= score_total(
            more_settlements,
            more_cities,
            more_victory_cards,
            longest_road,
            largest_army,
        ),
        capped(score_total(settlements, cities, victory_cards, longest_road, largest_army))
            <= capped(
            score_total(
                more_settlements,
                more_cities,
                more_victory_cards,
                longest_road,
                largest_army,
            ),
        ),
{
}

/// Each award is worth exactly two points.
pub proof fn lemma_award_adds_two(
    settlements: nat,
    cities: nat,
    victory_cards: nat,
    longest_road: bool,
    largest_army: bool,
)
    ensures
        score_total(settlements, cities, victory_cards, true, largest_army) == score_total(
            settlements,
            cities,
            victory_cards,
            false,
            largest_army,
        ) + 2,
        score_total(settlements, cities, victory_cards, longest_road, true) == score_total(
            settlements,
            cities,
            victory_cards,
            longest_road,
            false,
        ) + 2,
{
}

/// An award is sticky: its holder keeps it while the holder's size is large
/// enough and nobody's size is strictly larger, ties included; and whoever
/// is strictly exceeded does not hold it.
pub proof fn lemma_award_sticky(
    sizes: Seq<u32>,
    previous: Option<(u32, u32)>,
    player: u32,
    least: u32,
)
    requires
        player < sizes.len(),
    ensures
        previous matches Some(holder) && holder.0 == player && sizes[player as int] >= least && (
        forall|j: int| 0 <= j < sizes.len() ==> sizes[j] <= sizes[player as int]) ==> holds_award(
            sizes,
            previous,
            player,
            least,
        ),
        (exists|j: int| 0 <= j < sizes.len() && sizes[j] > sizes[player as int]) ==> !holds_award(
            sizes,
            previous,
            player,
            least,
        ),
{
}

/// At most one player holds an award.
pub proof fn lemma_award_unique(
    sizes: Seq<u32>,
    previous: Option<(u32, u32)>,
    first: u32,
    second: u32,
    least: u32,
)
    requires
        holds_award(sizes, previous, first, least),
        holds_award(sizes, previous, second, least),
    ensures
        first == second,
{
}

/// Whether `player` holds the award for the largest of `sizes`.
fn check_award(player: u32, sizes: &Vec<u32>, previous: &Option<(u32, u32)>, least: u32) -> (held:
    bool)
    requires
        player < sizes.len(),
    ensures
        held == holds_award(sizes@, *previous, player, least),
{
    let mine = sizes[player as usize];
    let mut at_top = true;
    let mut alone = true;
    let mut j: usize = 0;
    while j < sizes.len()
        invariant
            j <= sizes.len(),
            player < sizes.len(),
            mine == sizes[player as int],
            at_top == forall|k: int| 0 <= k < j ==> sizes[k] <= mine,
            alone == forall|k: int| 0 <= k < j && k != player ==> sizes[k] < mine,
        decreases sizes.len() - j,
    {
        if sizes[j] > mine {
            at_top = false;
        }
        if j != player as usize && sizes[j] >= mine {
            alone = false;
        }
        j = j + 1;
    }
    let incumbent = match previous {
        Some(holder) => holder.0 == player,
        None => false,
    };
    mine >= least && at_top && (alone || incumbent)
}

/// Number of nodes that record a settlement of `i_player`.
pub fn count_settlements(i_player: u32, nodes: &Vec<Node>) -> (count: u32)
    requires
        nodes.len() <= u32::MAX,
    ensures
        count == settlement_count(nodes.deep_view(), i_player),
{
    let mut count: u32 = 0;
    let mut i: usize = 0;
    let ghost model = nodes.deep_view();
    while i < nodes.len()
        invariant
            i <= nodes.len() <= u32::MAX,
            model == nodes.deep_view(),
            count == settlement_count(model.take(i as int), i_player),
            count <= i,
        decreases nodes.len() - i,
    {
        assert(model.take(i + 1).drop_last() =~= model.take(i as int));
        assert(model[i as int] == nodes[i as int].deep_view());
        match &nodes[i].settlement {
            Some(settlement) => {
                if settlement.player_id == i_player {
                    count = count + 1;
                }
            },
            None => {},
        }
        i = i + 1;
    }
    assert(model.take(nodes.len() as int) =~= model);
    count
}

/// Number of nodes that record a city of `i_player`.
pub fn count_cities(i_player: u32, nodes: &Vec<Node>) -> (count: u32)
    requires
        nodes.len() <= u32::MAX,
    ensures
        count == city_count(nodes.deep_view(), i_player),
{
    let mut count: u32 = 0;
    let mut i: usize = 0;
    let ghost model = nodes.deep_view();
    while i < nodes.len()
        invariant
            i <= nodes.len() <= u32::MAX,
            model == nodes.deep_view(),
            count == city_count(model.take(i as int), i_player),
            count <= i,
        decreases nodes.len() - i,
    {
        assert(model.take(i + 1).drop_last() =~= model.take(i as int));
        assert(model[i as int] == nodes[i as int].deep_view());
        match &nodes[i].city {
            Some(city) => {
                if city.player_id == i_player {
                    count = count + 1;
                }
            },
            None => {},
        }
        i = i + 1;
    }
    assert(model.take(nodes.len() as int) =~= model);
    count
}

/// Number of victory cards that `i_player` has drawn: the first entry of
/// the player's row of card counters.
pub fn count_vp_cards(i_player: u32, drawn_dev_cards: &Vec<Vec<u32>>) -> (count: u32)
    requires
        i_player < drawn_dev_cards.len(),
        drawn_dev_cards[i_player as int].len() > 0,
    ensures
        count == drawn_dev_cards[i_player as int][0],
{
    drawn_dev_cards[i_player as usize][0]
}

/// Whether `i_player` holds the longest-road award: the player's longest
/// route has at least five roads, no route is longer, and every other
/// player's is shorter or the player is the holder so far.
pub fn check_longest_road(
    i_player: u32,
    longest_roads: &Option<Vec<u32>>,
    prev_longest_road: &Option<(u32, u32)>,
) -> (held: bool)
    requires
        longest_roads matches Some(lengths) ==> i_player < lengths.len(),
    ensures
        held == holds_longest_road(longest_roads.deep_view(), *prev_longest_road, i_player),
{
    match longest_roads {
        Some(lengths) => {
            assert(lengths.deep_view() =~= lengths@);
            check_award(i_player, lengths, prev_longest_road, MIN_LONGEST_ROAD)
        },
        None => false,
    }
}

/// Whether `i_player` holds the largest-army award: the player's army has at
/// least three knights, no army is larger, and every other player's is
/// smaller or the player is the holder so far.
pub fn check_largest_army(
    i_player: u32,
    armies: &Vec<u32>,
    prev_largest_army: &Option<(u32, u32)>,
) -> (held: bool)
    requires
        i_player < armies.len(),
    ensures
        held == holds_largest_army(armies@, *prev_largest_army, i_player),
{
    check_award(i_player, armies, prev_largest_army, MIN_LARGEST_ARMY)
}

/// The score of `i_player`, counting the victory cards in `victory_cards`.
fn score_with(
    i_player: u32,
    nodes: &Vec<Node>,
    victory_cards: u32,
    longest_roads: &Option<Vec<u32>>,
    prev_longest_road: &Option<(u32, u32)>,
    armies: &Vec<u32>,
    prev_largest_army: &Option<(u32, u32)>,
) -> (score: u32)
    requires
        nodes.len() <= u32::MAX,
        longest_roads matches Some(lengths) ==> i_player < lengths.len(),
        i_player < armies.len(),
    ensures
        score == score_of(
            nodes.deep_view(),
            victory_cards,
            longest_roads.deep_view(),
            *prev_longest_road,
            armies@,
            *prev_largest_army,
            i_player,
        ),
{
    let n_settlements = count_settlements(i_player, nodes);
    let n_cities = count_cities(i_player, nodes);
    let longest_road = check_longest_road(i_player, longest_roads, prev_longest_road);
    let largest_army = check_largest_army(i_player, armies, prev_largest_army);
    let mut total: u64 = n_settlements as u64 + n_cities as u64 + victory_cards as u64;
    if longest_road {
        total = total + 2;
    }
    if largest_army {
        total = total + 2;
    }
    if total > u32::MAX as u64 {
        u32::MAX
    } else {
        total as u32
    }
}

/// The score of `i_player`: settlements on record, cities, victory cards
/// drawn and two points for each award held.
pub fn get_score(
    i_player: u32,
    nodes: &Vec<Node>,
    drawn_dev_cards: &Vec<Vec<u32>>,
    longest_roads: &Option<Vec<u32>>,
    prev_longest_road: &Option<(u32, u32)>,
    armies: &Vec<u32>,
    prev_largest_army: &Option<(u32, u32)>,
) -> (score: u32)
    requires
        nodes.len() <= u32::MAX,
        i_player < drawn_dev_cards.len(),
        drawn_dev_cards[i_player as int].len() > 0,
        longest_roads matches Some(lengths) ==> i_player < lengths.len(),
        i_player < armies.len(),
    ensures
        score == score_of(
            nodes.deep_view(),
            drawn_dev_cards[i_player as int][0],
            longest_roads.deep_view(),
            *prev_longest_road,
            armies@,
            *prev_largest_army,
            i_player,
        ),
{
    let n_vp_cards = count_vp_cards(i_player, drawn_dev_cards);
    score_with(
        i_player,
        nodes,
        n_vp_cards,
        longest_roads,
        prev_longest_road,
        armies,
        prev_largest_army,
    )
}

/// The score of `i_player` as the other players know it: as [`get_score`],
/// but counting only the victory cards that the player has shown.
pub fn get_public_score(
    i_player: u32,
    nodes: &Vec<Node>,
    public_dev_cards: &Vec<Vec<u32>>,
    longest_roads: &Option<Vec<u32>>,
    prev_longest_road: &Option<(u32, u32)>,
    armies: &Vec<u32>,
    prev_largest_army: &Option<(u32, u32)>,
) -> (score: u32)
    requires
        nodes.len() <= u32::MAX,
        i_player < public_dev_cards.len(),
        public_dev_cards[i_player as int].len() > 0,
        longest_roads matches Some(lengths) ==> i_player < lengths.len(),
        i_player < armies.len(),
    ensures
        score == score_of(
            nodes.deep_view(),
            public_dev_cards[i_player as int][0],
            longest_roads.deep_view(),
            *prev_longest_road,
            armies@,
            *prev_largest_army,
            i_player,
        ),
{
    let public_vp_cards = public_dev_cards[i_player as usize][0];
    score_with(
        i_player,
        nodes,
        public_vp_cards,
        longest_roads,
        prev_longest_road,
        armies,
        prev_largest_army,
    )
}

} // verus!
