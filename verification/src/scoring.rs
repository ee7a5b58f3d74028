use vstd::prelude::*;

use crate::engine::{ArmyState, RoadState};
use crate::production::level_yield;
use crate::state::{is_player, State};
use crate::types::{dev_card_index, BuildingLevel, DevCard, PlayerId, NODE_COUNT, NO_PLAYER, PLAYER_COUNT};

verus! {

/// The points `player` has from buildings on the first `n` nodes: one a settlement, two a city.
pub open spec fn building_points_upto(s: State, player: int, n: int) -> int
    decreases n,
{
    if n <= 0 {
        0
    } else {
        building_points_upto(s, player, n - 1) + if s.node_owner@[n - 1] as int == player {
            level_yield(s.node_level@[n - 1])
        } else {
            0
        }
    }
}

/// The points `player` has from buildings.
pub open spec fn building_points(s: State, player: int) -> int {
    building_points_upto(s, player, NODE_COUNT as int)
}

/// Two points for holding the longest road card, two for the largest army card.
pub open spec fn card_points(road: RoadState, army: ArmyState, player: int) -> int {
    (if road.owner_view() == Some(player as PlayerId) { 2int } else { 0 }) + (if army.owner_view() == Some(player as PlayerId) {
        2int
    } else {
        0
    })
}

/// The points the other players can see: buildings and the two cards.
pub open spec fn public_points(s: State, road: RoadState, army: ArmyState, player: int) -> int {
    building_points(s, player) + card_points(road, army, player)
}

/// All of `player`'s points: the public ones and the victory point cards in hand.
pub open spec fn total_points(s: State, road: RoadState, army: ArmyState, player: int) -> int {
    public_points(s, road, army, player) + s.dev_cards_in_hand@[player]@[dev_card_index(DevCard::VictoryPoint)]
}

/// No player holds more than twenty-five development cards of a kind.
pub open spec fn victory_cards_bounded(s: State) -> bool {
    forall|p: int| 0 <= p < PLAYER_COUNT ==> #[trigger] s.dev_cards_in_hand@[p]@[dev_card_index(DevCard::VictoryPoint)] <= 25
}

proof fn lemma_building_points_bound(s: State, player: int, n: int)
    requires
        0 <= n,
    ensures
        0 <= building_points_upto(s, player, n) <= 2 * n,
    decreases n,
{
    if n > 0 {
        lemma_building_points_bound(s, player, n - 1);
    }
}

/// Every player's points.
pub(crate) fn player_points(state: &State, road_state: &RoadState, army_state: &ArmyState) -> (points: [u8; PLAYER_COUNT])
    requires
        state.wf(),
        road_state.wf(),
        army_state.wf(),
        victory_cards_bounded(*state),
    ensures
        forall|p: int| 0 <= p < PLAYER_COUNT ==> #[trigger] points@[p] as int == total_points(*state, *road_state, *army_state, p),
{
    let mut points = [0u8; PLAYER_COUNT];
    let mut n: usize = 0;
    while n < NODE_COUNT
        invariant
            n <= NODE_COUNT,
            state.wf(),
            forall|p: int| 0 <= p < PLAYER_COUNT ==> #[trigger] points@[p] as int == building_points_upto(*state, p, n as int),
        decreases NODE_COUNT - n,
    {
        proof {
            assert forall|p: int| 0 <= p < PLAYER_COUNT implies building_points_upto(*state, p, n as int) <= 2 * n by {
                lemma_building_points_bound(*state, p, n as int);
            }
        }
        let owner = state.node_owner[n];
        if owner != NO_PLAYER {
            let add: u8 = match state.node_level[n] {
                BuildingLevel::Settlement => 1,
                BuildingLevel::City => 2,
                BuildingLevel::Empty => 0,
            };
            points[owner as usize] = points[owner as usize] + add;
        }
        n = n + 1;
    }
    let vp = DevCard::VictoryPoint.as_index();
    let mut p: usize = 0;
    while p < PLAYER_COUNT
        invariant
            p <= PLAYER_COUNT,
            vp == dev_card_index(DevCard::VictoryPoint),
            victory_cards_bounded(*state),
            forall|q: int| 0 <= q < PLAYER_COUNT ==> #[trigger] points@[q] as int == building_points(*state, q) + if q < p {
                state.dev_cards_in_hand@[q]@[vp as int] as int
            } else {
                0
            },
        decreases PLAYER_COUNT - p,
    {
        proof {
            lemma_building_points_bound(*state, p as int, NODE_COUNT as int);
        }
        points[p] = points[p] + state.dev_cards_in_hand[p][vp];
        p = p + 1;
    }
    proof {
        assert forall|q: int| 0 <= q < PLAYER_COUNT implies building_points(*state, q) <= 2 * NODE_COUNT by {
            lemma_building_points_bound(*state, q, NODE_COUNT as int);
        }
    }
    if let Some(owner) = road_state.owner() {
        points[owner as usize] = points[owner as usize] + 2;
    }
    if let Some(owner) = army_state.owner() {
        points[owner as usize] = points[owner as usize] + 2;
    }
    points
}

/// Every player's points, by seat, as the bytes the game keeps.
pub open spec fn points_seq(s: State, road: RoadState, army: ArmyState) -> Seq<u8> {
    Seq::new(PLAYER_COUNT as nat, |p: int| total_points(s, road, army, p) as u8)
}

/// The first player, by seat, with ten points or more.
pub open spec fn spec_first_winner(points: Seq<u8>) -> Option<PlayerId> {
    if points[0] >= 10 {
        Some(0u8)
    } else if points[1] >= 10 {
        Some(1u8)
    } else if points[2] >= 10 {
        Some(2u8)
    } else if points[3] >= 10 {
        Some(3u8)
    } else {
        None
    }
}

/// The player who has won, if any: the first seat with ten points or more.
pub(crate) fn check_winner(state: &State, road_state: &RoadState, army_state: &ArmyState) -> (winner: Option<PlayerId>)
    requires
        state.wf(),
        road_state.wf(),
        army_state.wf(),
        victory_cards_bounded(*state),
    ensures
        winner == spec_first_winner(points_seq(*state, *road_state, *army_state)),
        winner matches Some(w) ==> is_player(w),
{
    let points = player_points(state, road_state, army_state);
    let ghost seen = points_seq(*state, *road_state, *army_state);
    proof {
        assert(points@ =~= seen);
    }
    let mut p: usize = 0;
    while p < PLAYER_COUNT
        invariant
            p <= PLAYER_COUNT,
            points@ == seen,
            seen == points_seq(*state, *road_state, *army_state),
            forall|q: int| 0 <= q < p ==> #[trigger] seen[q] < 10,
        decreases PLAYER_COUNT - p,
    {
        if points[p] >= 10 {
            proof {
                assert(seen[p as int] >= 10);
                if p > 0 {
                    assert(seen[0] < 10);
                }
                if p > 1 {
                    assert(seen[1] < 10);
                }
                if p > 2 {
                    assert(seen[2] < 10);
                }
            }
            return Some(p as u8);
        }
        p = p + 1;
    }
    proof {
        assert(seen[0] < 10);
        assert(seen[1] < 10);
        assert(seen[2] < 10);
        assert(seen[3] < 10);
    }
    None
}

/// The first seat with the most points, which takes the game when no one reached ten.
pub(crate) fn select_winner(state: &State, road_state: &RoadState, army_state: &ArmyState) -> (winner: PlayerId)
    requires
        state.wf(),
        road_state.wf(),
        army_state.wf(),
        victory_cards_bounded(*state),
    ensures
        is_player(winner),
        forall|q: int| 0 <= q < PLAYER_COUNT ==> #[trigger] total_points(*state, *road_state, *army_state, q) <= total_points(
            *state,
            *road_state,
            *army_state,
            winner as int,
        ),
        forall|q: int| 0 <= q < winner ==> #[trigger] total_points(*state, *road_state, *army_state, q) < total_points(
            *state,
            *road_state,
            *army_state,
            winner as int,
        ),
{
    let points = player_points(state, road_state, army_state);
    let mut best_player: usize = 0;
    let mut best_score = points[0];
    let mut p: usize = 1;
    while p < PLAYER_COUNT
        invariant
            1 <= p <= PLAYER_COUNT,
            best_player < p,
            best_score == points@[best_player as int],
            forall|q: int| 0 <= q < PLAYER_COUNT ==> #[trigger] points@[q] as int == total_points(*state, *road_state, *army_state, q),
            forall|q: int| 0 <= q < p ==> #[trigger] points@[q] <= best_score,
            forall|q: int| 0 <= q < best_player ==> #[trigger] points@[q] < best_score,
        decreases PLAYER_COUNT - p,
    {
        let score = points[p];
        if score > best_score {
            best_score = score;
            best_player = p;
        }
        p = p + 1;
    }
    proof {
        assert((best_player as u8) as int == best_player as int);
        assert forall|q: int| 0 <= q < PLAYER_COUNT implies #[trigger] total_points(*state, *road_state, *army_state, q) <= total_points(
            *state,
            *road_state,
            *army_state,
            best_player as int,
        ) by {
            assert(points@[q] <= best_score);
        }
        assert forall|q: int| 0 <= q < best_player implies #[trigger] total_points(*state, *road_state, *army_state, q) < total_points(
            *state,
            *road_state,
            *army_state,
            best_player as int,
        ) by {
            assert(points@[q] < best_score);
        }
    }
    best_player as u8
}

} // verus!
