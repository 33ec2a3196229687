use vstd::prelude::*;
use crate::backend::setup::road::Road;

verus! {

/// Whether `road` ends at `node`.
pub open spec fn touches(road: Road, node: u32) -> bool {
    road.nodes.0 == node || road.nodes.1 == node
}

/// The end of `road` that one reaches by walking it from `node`.
pub open spec fn other_end(road: Road, node: u32) -> u32 {
    if road.nodes.0 == node {
        road.nodes.1
    } else {
        road.nodes.0
    }
}

/// Whether `route`, a list of indices into `roads`, is a route of `player`
/// that starts at node `from`: every road on it belongs to the player, each
/// road leaves from the node at which the one before it arrived, and no
/// road is walked twice. A route may come back to a node it has left.
pub open spec fn is_route(roads: Seq<Road>, player: u32, route: Seq<int>, from: u32) -> bool
    decreases route.len(),
{
    if route.len() == 0 {
        true
    } else {
        let first = route[0];
        &&& 0 <= first < roads.len()
        &&& roads[first].player == player
        &&& touches(roads[first], from)
        &&& !route.skip(1).contains(first)
        &&& is_route(roads, player, route.skip(1), other_end(roads[first], from))
    }
}

/// Whether `length` is the number of roads on the longest route of `player`.
pub open spec fn is_longest_route_length(roads: Seq<Road>, player: u32, length: nat) -> bool {
    &&& exists|route: Seq<int>, from: u32|
        is_route(roads, player, route, from) && route.len() == length
    &&& forall|route: Seq<int>, from: u32|
        is_route(roads, player, route, from) ==> route.len() <= length
}

/// Whether `route` walks no road that `used` marks.
pub open spec fn avoids(route: Seq<int>, used: Seq<bool>) -> bool {
    forall|k: int| 0 <= k < route.len() ==> 0 <= #[trigger] route[k] < used.len() && !used[route[k]]
}

/// Number of roads that `used` does not mark.
pub open spec fn count_free(used: Seq<bool>) -> nat
    decreases used.len(),
{
    if used.len() == 0 {
        0
    } else {
        count_free(used.drop_last()) + if used.last() {
            0nat
        } else {
            1nat
        }
    }
}

proof fn lemma_count_free_bound(used: Seq<bool>)
    ensures
        count_free(used) <= used.len(),
    decreases used.len(),
{
    if used.len() > 0 {
        lemma_count_free_bound(used.drop_last());
    }
}

proof fn lemma_count_free_mark(used: Seq<bool>, i: int)
    requires
        0 <= i < used.len(),
        !used[i],
    ensures
        count_free(used.update(i, true)) + 1 == count_free(used),
    decreases used.len(),
{
    let marked = used.update(i, true);
    if i == used.len() - 1 {
        assert(marked.drop_last() =~= used.drop_last());
    } else {
        assert(marked.drop_last() =~= used.drop_last().update(i, true));
        lemma_count_free_mark(used.drop_last(), i);
    }
}

/// The longest route of a player without roads has length 0.
pub proof fn lemma_no_roads_no_route(roads: Seq<Road>, player: u32)
    requires
        forall|i: int| 0 <= i < roads.len() ==> (#[trigger] roads[i]).player != player,
    ensures
        is_longest_route_length(roads, player, 0),
{
    assert(is_route(roads, player, Seq::<int>::empty(), 0u32));
}

/// Length of the longest route of `player` that starts at node `at` and
/// walks only roads that `used` does not mark.
fn longest_from(roads: &Vec<Road>, player: u32, used: &mut Vec<bool>, at: u32) -> (best: usize)
    requires
        old(used).len() == roads.len(),
    ensures
        final(used)@ == old(used)@,
        best <= count_free(old(used)@),
        exists|route: Seq<int>|
            is_route(roads@, player, route, at) && avoids(route, old(used)@) && route.len() == best,
        forall|route: Seq<int>|
            is_route(roads@, player, route, at) && avoids(route, old(used)@) ==> route.len()
                <= best,
    decreases count_free(old(used)@),
{
    let ghost start = used@;
    let ghost mut witness: Seq<int> = Seq::empty();
    let mut best: usize = 0;
    let mut i: usize = 0;
    proof {
        assert(is_route(roads@, player, witness, at));
    }
    while i < roads.len()
        invariant
            i <= roads.len(),
            used.len() == roads.len(),
            used@ == start,
            start == old(used)@,
            best <= count_free(start),
            is_route(roads@, player, witness, at),
            avoids(witness, start),
            witness.len() == best,
            forall|route: Seq<int>|
                is_route(roads@, player, route, at) && avoids(route, start) && route.len() > 0
                    && route[0] < i ==> route.len() <= best,
        decreases roads.len() - i,
    {
        let road = roads[i];
        if !used[i] && road.player == player && (road.nodes.0 == at || road.nodes.1 == at) {
            let next = if road.nodes.0 == at {
                road.nodes.1
            } else {
                road.nodes.0
            };
            used.set(i, true);
            proof {
                lemma_count_free_mark(start, i as int);
                lemma_count_free_bound(start);
            }
            let ghost marked = used@;
            assert(marked == start.update(i as int, true));
            let sub = longest_from(roads, player, used, next);
            used.set(i, false);
            assert(used@ =~= start);
            let ghost tail = choose|route: Seq<int>|
                is_route(roads@, player, route, next) && avoids(route, marked) && route.len()
                    == sub;
            let candidate = sub + 1;
            proof {
                assert forall|route: Seq<int>|
                    is_route(roads@, player, route, at) && avoids(route, start) && route.len() > 0
                        && route[0] == i implies route.len() <= candidate by {
                    let rest = route.skip(1);
                    assert(is_route(roads@, player, rest, next));
                    assert forall|k: int| 0 <= k < rest.len() implies 0 <= #[trigger] rest[k]
                        < marked.len() && !marked[rest[k]] by {
                        assert(rest[k] == route[k + 1]);
                        if rest[k] == i {
                            assert(rest.contains(i as int));
                        }
                    }
                    assert(avoids(rest, marked));
                }
            }
            if candidate > best {
                best = candidate;
                proof {
                    let longer = seq![i as int] + tail;
                    assert(longer.skip(1) =~= tail);
                    assert(!tail.contains(i as int)) by {
                        if tail.contains(i as int) {
                            let k = choose|k: int| 0 <= k < tail.len() && tail[k] == i as int;
                            assert(!marked[tail[k]]);
                        }
                    }
                    assert(is_route(roads@, player, longer, at));
                    assert forall|k: int| 0 <= k < longer.len() implies 0 <= #[trigger] longer[k]
                        < start.len() && !start[longer[k]] by {
                        if k > 0 {
                            assert(longer[k] == tail[k - 1]);
                            assert(!marked[tail[k - 1]]);
                        }
                    }
                    witness = longer;
                }
            }
        } else {
            proof {
                assert forall|route: Seq<int>|
                    is_route(roads@, player, route, at) && avoids(route, start) && route.len() > 0
                        && route[0] == i implies route.len() <= best by {
                    assert(!start[route[0]]);
                }
            }
        }
        i = i + 1;
    }
    proof {
        assert forall|route: Seq<int>|
            is_route(roads@, player, route, at) && avoids(route, start) implies route.len()
                <= best by {
            if route.len() > 0 {
                assert(0 <= route[0] < roads.len());
            }
        }
    }
    best
}

/// The longest route length of `player` as a `u32`: the length itself, or
/// the largest `u32` where the length is beyond that.
pub open spec fn longest_road_length(roads: Seq<Road>, player: u32) -> u32 {
    let length = choose|length: nat| is_longest_route_length(roads, player, length);
    if length > u32::MAX {
        u32::MAX
    } else {
        length as u32
    }
}

/// There is only one longest route length.
pub proof fn lemma_longest_route_length_unique(roads: Seq<Road>, player: u32, a: nat, b: nat)
    requires
        is_longest_route_length(roads, player, a),
        is_longest_route_length(roads, player, b),
    ensures
        a == b,
{
}

/// Length of the longest route of roads of player `i_player`: the largest
/// number of the player's roads that can be walked one after another
/// without walking a road twice. A player without roads has length 0.
pub fn get_longest_road(i_player: u32, roads: &Vec<Road>) -> (length: u32)
    ensures
        length == longest_road_length(roads@, i_player),
        roads.len() <= u32::MAX ==> is_longest_route_length(roads@, i_player, length as nat),
{
    find_players_longest_road(i_player, roads)
}

/// The search behind [`get_longest_road`]: from each end of each of the
/// player's roads, the longest route that starts there.
pub fn find_players_longest_road(i_player: u32, roads: &Vec<Road>) -> (length: u32)
    ensures
        length == longest_road_length(roads@, i_player),
        roads.len() <= u32::MAX ==> is_longest_route_length(roads@, i_player, length as nat),
{
    let mut used: Vec<bool> = Vec::new();
    let mut n: usize = 0;
    while n < roads.len()
        invariant
            n <= roads.len(),
            used.len() == n,
            forall|k: int| 0 <= k < n ==> !used[k],
        decreases roads.len() - n,
    {
        used.push(false);
        n = n + 1;
    }
    let ghost free = used@;
    let ghost mut witness: Seq<int> = Seq::empty();
    let ghost mut origin: u32 = 0;
    let mut best: usize = 0;
    let mut i: usize = 0;
    proof {
        lemma_count_free_bound(free);
        assert(is_route(roads@, i_player, witness, origin));
    }
    while i < roads.len()
        invariant
            i <= roads.len(),
            used@ == free,
            free.len() == roads.len(),
            forall|k: int| 0 <= k < free.len() ==> !free[k],
            best <= roads.len(),
            is_route(roads@, i_player, witness, origin),
            witness.len() == best,
            forall|route: Seq<int>, from: u32|
                is_route(roads@, i_player, route, from) && route.len() > 0 && route[0] < i
                    ==> route.len() <= best,
        decreases roads.len() - i,
    {
        let road = roads[i];
        if road.player == i_player {
            let first = longest_from(roads, i_player, &mut used, road.nodes.0);
            proof {
                lemma_count_free_bound(free);
            }
            if first > best {
                proof {
                    witness = choose|route: Seq<int>|
                        is_route(roads@, i_player, route, road.nodes.0) && avoids(route, free)
                            && route.len() == first;
                    origin = road.nodes.0;
                }
                best = first;
            }
            let second = longest_from(roads, i_player, &mut used, road.nodes.1);
            if second > best {
                proof {
                    witness = choose|route: Seq<int>|
                        is_route(roads@, i_player, route, road.nodes.1) && avoids(route, free)
                            && route.len() == second;
                    origin = road.nodes.1;
                }
                best = second;
            }
            proof {
                assert forall|route: Seq<int>, from: u32|
                    is_route(roads@, i_player, route, from) && route.len() > 0 && route[0]
                        == i implies route.len() <= best by {
                    lemma_route_in_range(roads@, i_player, route, from);
                    assert(avoids(route, free));
                    assert(from == road.nodes.0 || from == road.nodes.1);
                }
            }
        }
        i = i + 1;
    }
    proof {
        assert forall|route: Seq<int>, from: u32|
            is_route(roads@, i_player, route, from) implies route.len() <= best by {
            if route.len() > 0 {
                assert(0 <= route[0] < roads.len());
            }
        }
    }
    proof {
        assert(is_longest_route_length(roads@, i_player, best as nat));
        let chosen = choose|length: nat| is_longest_route_length(roads@, i_player, length);
        lemma_longest_route_length_unique(roads@, i_player, best as nat, chosen);
    }
    if best > u32::MAX as usize {
        u32::MAX
    } else {
        best as u32
    }
}

/// Every road on a route is a road of the list.
pub proof fn lemma_route_in_range(roads: Seq<Road>, player: u32, route: Seq<int>, from: u32)
    requires
        is_route(roads, player, route, from),
    ensures
        forall|k: int| 0 <= k < route.len() ==> 0 <= #[trigger] route[k] < roads.len(),
    decreases route.len(),
{
    if route.len() > 0 {
        let rest = route.skip(1);
        lemma_route_in_range(roads, player, rest, other_end(roads[route[0]], from));
        assert forall|k: int| 0 <= k < route.len() implies 0 <= #[trigger] route[k]
            < roads.len() by {
            if k > 0 {
                assert(route[k] == rest[k - 1]);
            }
        }
    }
}

} // verus!
