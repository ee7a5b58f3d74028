use vstd::prelude::*;

use crate::board::Board;
use crate::engine::{resource_total_byte, ArmyState, RoadState};
use crate::production::{corners_yield, level_yield, node_yield};
use crate::scoring::{building_points, building_points_upto, card_points, public_points};
use crate::rng::{next_u64_mod, output_xsl_rr, pcg_step, Pcg64};
use crate::state::{is_player, State};
use crate::types::{
    BuildingLevel, PlayerId, Resource, TileId, DEV_CARD_COUNT, RESOURCE_COUNT, INVALID_NODE, NODE_COUNT, NO_PLAYER, PLAYER_COUNT,
    TILE_COUNT,
};

verus! {

/// One unit of the fixed-point scale in which double values are compared: 2^60.
pub const SCALE_ONE: u128 = 0x1000_0000_0000_0000;

/// 2^53: a double carries 53 significant bits.
pub const SIGNIFICAND_LIMIT: u128 = 0x20_0000_0000_0000;

/// The spacing of doubles around a value whose integer part, in scaled units, is `n` (for `n` of at least
/// 2^52): one below 2^53, doubling with each binade above.
pub open spec fn double_spacing(n: nat) -> nat
    decreases n,
{
    if n < SIGNIFICAND_LIMIT {
        1
    } else {
        2 * double_spacing(n / 2)
    }
}

/// `num / den` rounded to a multiple of `unit`, to nearest with ties to an even multiple.
pub open spec fn round_to_unit(num: nat, den: nat, unit: nat) -> nat {
    let step = den * unit;
    let q = num / step;
    let r = num % step;
    if 2 * r > step {
        (q + 1) * unit
    } else if 2 * r < step {
        q * unit
    } else if q % 2 == 0 {
        q * unit
    } else {
        (q + 1) * unit
    }
}

/// The double nearest to `num / den`, in scaled units (exact for values of at least 2^52 units, and zero).
pub open spec fn nearest_double(num: nat, den: nat) -> nat {
    round_to_unit(num, den, double_spacing(num / den))
}

/// The double `base + devs / 3` as the robber heuristic computes it, in units of 2^-60: the quotient is
/// rounded to a double, then the sum.
pub open spec fn vps_estimate(base: nat, devs: nat) -> nat {
    nearest_double((base * SCALE_ONE + nearest_double((devs * SCALE_ONE) as nat, 3)) as nat, 1)
}

proof fn lemma_spacing_positive(n: nat)
    ensures
        double_spacing(n) >= 1,
    decreases n,
{
    if n >= SIGNIFICAND_LIMIT {
        lemma_spacing_positive(n / 2);
    }
}

/// The double nearest to `num / den`, in scaled units.
pub fn round_to_double(num: u128, den: u128) -> (out: u128)
    requires
        den == 1 || den == 3,
        num < 0x1_0000_0000_0000_0000_0000,
    ensures
        out == nearest_double(num as nat, den as nat),
        out <= num / den + 0x1_0000_0000_0000_0000,
{
    let n = num / den;
    let mut m = n;
    let mut unit: u128 = 1;
    while m >= SIGNIFICAND_LIMIT
        invariant
            double_spacing(n as nat) == unit * double_spacing(m as nat),
            1 <= unit,
            unit * m <= n,
            unit == 1 || m >= 0x10_0000_0000_0000,
            unit <= 0x1_0000_0000,
            n == num / den,
            n < 0x1_0000_0000_0000_0000_0000,
        decreases m,
    {
        proof {
            assert(double_spacing(m as nat) == 2 * double_spacing((m / 2) as nat));
            assert(unit * double_spacing(m as nat) == (unit * 2) * double_spacing((m / 2) as nat)) by (nonlinear_arith)
                requires
                    double_spacing(m as nat) == 2 * double_spacing((m / 2) as nat),
            ;
            assert((unit * 2) * (m / 2) <= unit * m) by (nonlinear_arith)
                requires
                    unit >= 1,
            ;
            assert(unit * 2 <= 0x1_0000_0000) by (nonlinear_arith)
                requires
                    unit * m <= n,
                    m >= 0x20_0000_0000_0000,
                    n < 0x1_0000_0000_0000_0000_0000,
            ;
        }
        m = m / 2;
        unit = unit * 2;
    }
    proof {
        assert(double_spacing(m as nat) == 1);
        assert(double_spacing(n as nat) == unit);
    }
    let step = den * unit;
    let q = num / step;
    let r = num % step;
    proof {
        assert(q * step <= num) by (nonlinear_arith)
            requires
                q == num / step,
                step >= 1,
        ;
        assert(q * unit <= num / den) by (nonlinear_arith)
            requires
                q * step <= num,
                step == den * unit,
                den >= 1,
                unit >= 1,
        ;
    }
    proof {
        assert((q + 1) * unit == q * unit + unit) by (nonlinear_arith);
    }
    let out = if 2 * r > step {
        (q + 1) * unit
    } else if 2 * r < step {
        q * unit
    } else if q % 2 == 0 {
        q * unit
    } else {
        (q + 1) * unit
    };
    out
}


/// The number of cards a number token yields in thirty-six rolls.
pub open spec fn spec_pip_value(number: u8) -> u8 {
    if number == 2 || number == 12 {
        1
    } else if number == 3 || number == 11 {
        2
    } else if number == 4 || number == 10 {
        3
    } else if number == 5 || number == 9 {
        4
    } else if number == 6 || number == 8 {
        5
    } else {
        0
    }
}

pub(crate) fn pip_value(number: u8) -> (pips: u8)
    ensures
        pips == spec_pip_value(number),
{
    match number {
        2 => 1,
        3 => 2,
        4 => 3,
        5 => 4,
        6 => 5,
        8 => 5,
        9 => 4,
        10 => 3,
        11 => 2,
        12 => 1,
        _ => 0,
    }
}

/// `player` has a building on a corner of `tile`.
pub open spec fn has_building_on_tile(board: Board, s: State, player: PlayerId, tile: int) -> bool {
    exists|k: int|
        0 <= k < 6 && {
            let n = #[trigger] board.tile_nodes@[tile]@[k];
            n != INVALID_NODE && s.node_owner@[n as int] == player
        }
}

pub fn player_has_building_on_tile(board: &Board, state: &State, player: PlayerId, tile: TileId) -> (found: bool)
    requires
        board.wf(),
        (tile as int) < TILE_COUNT,
    ensures
        found == has_building_on_tile(*board, *state, player, tile as int),
{
    let mut k: usize = 0;
    while k < 6
        invariant
            k <= 6,
            board.wf(),
            (tile as int) < TILE_COUNT,
            forall|j: int|
                0 <= j < k ==> {
                    let n = #[trigger] board.tile_nodes@[tile as int]@[j];
                    !(n != INVALID_NODE && state.node_owner@[n as int] == player)
                },
        decreases 6 - k,
    {
        let node = board.tile_nodes[tile as usize][k];
        if node != INVALID_NODE && state.node_owner[node as usize] == player {
            return true;
        }
        k = k + 1;
    }
    false
}

/// How much the leader loses from the robber on `tile`: the pips of its number times the leader's
/// buildings there, a city counting twice.
pub open spec fn spec_leader_tile_score(board: Board, s: State, leader: PlayerId, tile: int) -> int {
    match board.tile_numbers@[tile] {
        Some(number) => spec_pip_value(number) * corners_yield(board, s, tile, leader as int, 6),
        None => 0,
    }
}

proof fn lemma_corners_yield_small(board: Board, s: State, t: int, player: int, k: int)
    requires
        0 <= k <= 6,
    ensures
        0 <= corners_yield(board, s, t, player, k) <= 2 * k,
    decreases k,
{
    if k > 0 {
        lemma_corners_yield_small(board, s, t, player, k - 1);
    }
}

fn leader_tile_score(board: &Board, state: &State, leader: PlayerId, tile: TileId) -> (score: u32)
    requires
        board.wf(),
        (tile as int) < TILE_COUNT,
    ensures
        score == spec_leader_tile_score(*board, *state, leader, tile as int),
{
    let number = match board.tile_numbers[tile as usize] {
        Some(number) => number,
        None => return 0,
    };
    let pip = pip_value(number) as u32;
    if pip == 0 {
        proof {
            let c = corners_yield(*board, *state, tile as int, leader as int, 6);
            assert(spec_pip_value(number) * c == 0) by (nonlinear_arith)
                requires
                    spec_pip_value(number) == 0,
            ;
        }
        return 0;
    }
    let mut multiplier: u32 = 0;
    let mut k: usize = 0;
    while k < 6
        invariant
            k <= 6,
            board.wf(),
            (tile as int) < TILE_COUNT,
            multiplier == corners_yield(*board, *state, tile as int, leader as int, k as int),
        decreases 6 - k,
    {
        proof {
            lemma_corners_yield_small(*board, *state, tile as int, leader as int, k as int);
        }
        let node = board.tile_nodes[tile as usize][k];
        if node != INVALID_NODE && state.node_owner[node as usize] == leader {
            multiplier = multiplier + match state.node_level[node as usize] {
                BuildingLevel::Settlement => 1,
                BuildingLevel::City => 2,
                BuildingLevel::Empty => 0,
            };
        }
        k = k + 1;
    }
    proof {
        lemma_corners_yield_small(*board, *state, tile as int, leader as int, 6);
        assert(pip * multiplier <= 5 * 12) by (nonlinear_arith)
            requires
                pip <= 5,
                multiplier <= 12,
        ;
    }
    pip * multiplier
}

/// The points other players can see for `player`.
pub fn public_vps_for_player(state: &State, road_state: &RoadState, army_state: &ArmyState, player: PlayerId) -> (points: u8)
    requires
        is_player(player),
    ensures
        points as int == public_points(*state, *road_state, *army_state, player as int),
{
    let mut points: u8 = 0;
    let mut n: usize = 0;
    while n < NODE_COUNT
        invariant
            n <= NODE_COUNT,
            is_player(player),
            points as int == building_points_upto(*state, player as int, n as int),
        decreases NODE_COUNT - n,
    {
        proof {
            lemma_points_upto_small(*state, player as int, n as int);
        }
        if state.node_owner[n] == player {
            points = points + match state.node_level[n] {
                BuildingLevel::Settlement => 1,
                BuildingLevel::City => 2,
                BuildingLevel::Empty => 0,
            };
        }
        n = n + 1;
    }
    proof {
        lemma_points_upto_small(*state, player as int, NODE_COUNT as int);
    }
    if road_state.owner() == Some(player) {
        points = points + 2;
    }
    if army_state.owner() == Some(player) {
        points = points + 2;
    }
    points
}

proof fn lemma_points_upto_small(s: State, player: int, n: int)
    requires
        0 <= n,
    ensures
        0 <= building_points_upto(s, player, n) <= 2 * n,
    decreases n,
{
    if n > 0 {
        lemma_points_upto_small(s, player, n - 1);
    }
}

/// The number of development cards in `player`'s hand.
pub open spec fn devs_in_hand(s: State, player: int) -> int {
    let h = s.dev_cards_in_hand@[player]@;
    h[0] + h[1] + h[2] + h[3] + h[4]
}

/// Every hand holds at most twenty-five development cards of each kind.
pub open spec fn dev_hands_small(s: State) -> bool {
    forall|p: int, c: int| 0 <= p < PLAYER_COUNT && 0 <= c < DEV_CARD_COUNT ==> #[trigger] s.dev_cards_in_hand@[p]@[c] <= 25
}

/// The robber heuristic's estimate of `player`'s points: the public points and a third of a point per
/// development card in hand, as a double in units of 2^-60.
pub open spec fn estimated_vps(s: State, road: RoadState, army: ArmyState, player: int) -> nat {
    vps_estimate(public_points(s, road, army, player) as nat, devs_in_hand(s, player) as nat)
}

fn estimated_public_vps(state: &State, road_state: &RoadState, army_state: &ArmyState, player: PlayerId) -> (score: u128)
    requires
        is_player(player),
        dev_hands_small(*state),
    ensures
        score == estimated_vps(*state, *road_state, *army_state, player as int),
{
    let base = public_vps_for_player(state, road_state, army_state, player);
    let hand = &state.dev_cards_in_hand[player as usize];
    proof {
        assert(hand@[0] <= 25 && hand@[1] <= 25 && hand@[2] <= 25 && hand@[3] <= 25 && hand@[4] <= 25) by {
            assert(state.dev_cards_in_hand@[player as int]@[0] <= 25);
            assert(state.dev_cards_in_hand@[player as int]@[1] <= 25);
            assert(state.dev_cards_in_hand@[player as int]@[2] <= 25);
            assert(state.dev_cards_in_hand@[player as int]@[3] <= 25);
            assert(state.dev_cards_in_hand@[player as int]@[4] <= 25);
        }
    }
    let devs: u8 = hand[0] + hand[1] + hand[2] + hand[3] + hand[4];
    let third = round_to_double(devs as u128 * SCALE_ONE, 3);
    proof {
        assert(devs as u128 * SCALE_ONE < 0x1_0000_0000_0000_0000_0000) by (nonlinear_arith)
            requires
                devs <= 255,
        ;
        assert((devs as u128 * SCALE_ONE) / 3 <= 255 * SCALE_ONE) by (nonlinear_arith)
            requires
                devs <= 255,
        ;
        assert(base as u128 * SCALE_ONE <= 255 * SCALE_ONE) by (nonlinear_arith)
            requires
                base <= 255,
        ;
    }
    round_to_double(base as u128 * SCALE_ONE + third, 1)
}

/// `leader` is the first seat other than `player` with the highest estimate.
pub open spec fn is_leader(s: State, road: RoadState, army: ArmyState, player: PlayerId, leader: PlayerId) -> bool {
    &&& is_player(leader)
    &&& leader != player
    &&& forall|q: int|
        0 <= q < PLAYER_COUNT && q != player ==> #[trigger] estimated_vps(s, road, army, q) <= estimated_vps(s, road, army, leader as int)
    &&& forall|q: int|
        0 <= q < leader && q != player ==> #[trigger] estimated_vps(s, road, army, q) < estimated_vps(s, road, army, leader as int)
}

/// The player the robber goes after: the first other seat with the highest estimate.
pub open spec fn spec_leader(s: State, road: RoadState, army: ArmyState, player: PlayerId) -> PlayerId {
    choose|leader: PlayerId| is_leader(s, road, army, player, leader)
}

proof fn lemma_leader_unique(s: State, road: RoadState, army: ArmyState, player: PlayerId, a: PlayerId, b: PlayerId)
    requires
        is_leader(s, road, army, player, a),
        is_leader(s, road, army, player, b),
    ensures
        a == b,
{
    if a < b {
        assert(estimated_vps(s, road, army, a as int) < estimated_vps(s, road, army, b as int));
        assert(estimated_vps(s, road, army, b as int) <= estimated_vps(s, road, army, a as int));
    } else if b < a {
        assert(estimated_vps(s, road, army, b as int) < estimated_vps(s, road, army, a as int));
        assert(estimated_vps(s, road, army, a as int) <= estimated_vps(s, road, army, b as int));
    }
}

pub fn leader_by_public_vps(state: &State, road_state: &RoadState, army_state: &ArmyState, player: PlayerId) -> (leader: PlayerId)
    requires
        is_player(player),
        dev_hands_small(*state),
    ensures
        is_leader(*state, *road_state, *army_state, player, leader),
        leader == spec_leader(*state, *road_state, *army_state, player),
{
    let mut best_player: Option<PlayerId> = None;
    let mut best_score: u128 = 0;
    let mut other: usize = 0;
    while other < PLAYER_COUNT
        invariant
            other <= PLAYER_COUNT,
            is_player(player),
            dev_hands_small(*state),
            best_player is None <==> (other == 0 || (other == 1 && player == 0)),
            best_player matches Some(b) ==> {
                &&& (b as int) < other
                &&& b != player
                &&& best_score == estimated_vps(*state, *road_state, *army_state, b as int)
                &&& forall|q: int|
                    0 <= q < other && q != player ==> #[trigger] estimated_vps(*state, *road_state, *army_state, q) <= best_score
                &&& forall|q: int|
                    0 <= q < b && q != player ==> #[trigger] estimated_vps(*state, *road_state, *army_state, q) < best_score
            },
        decreases PLAYER_COUNT - other,
    {
        let other_id = other as u8;
        if other_id != player {
            let score = estimated_public_vps(state, road_state, army_state, other_id);
            if best_player.is_none() || score > best_score {
                best_player = Some(other_id);
                best_score = score;
            }
        }
        other = other + 1;
    }
    let leader = match best_player {
        Some(b) => b,
        None => crate::engine::next_player(player, 1),
    };
    proof {
        assert(is_leader(*state, *road_state, *army_state, player, leader));
        let c = spec_leader(*state, *road_state, *army_state, player);
        assert(is_leader(*state, *road_state, *army_state, player, c));
        lemma_leader_unique(*state, *road_state, *army_state, player, leader, c);
    }
    leader
}


/// The robber may go to `t` to hurt `leader`: not the current tile, none of `player`'s buildings there, and a
/// positive score for the leader.
pub open spec fn leader_tile_eligible(board: Board, s: State, leader: PlayerId, player: PlayerId, current: TileId, t: int) -> bool {
    &&& t != current as int
    &&& !has_building_on_tile(board, s, player, t)
    &&& spec_leader_tile_score(board, s, leader, t) > 0
}

/// `t` is the first eligible tile with the highest score for the leader.
pub open spec fn is_best_leader_tile(board: Board, s: State, leader: PlayerId, player: PlayerId, current: TileId, t: int) -> bool {
    &&& 0 <= t < TILE_COUNT
    &&& leader_tile_eligible(board, s, leader, player, current, t)
    &&& forall|u: int|
        0 <= u < TILE_COUNT && leader_tile_eligible(board, s, leader, player, current, u) ==> #[trigger] spec_leader_tile_score(
            board,
            s,
            leader,
            u,
        ) <= spec_leader_tile_score(board, s, leader, t)
    &&& forall|u: int|
        0 <= u < t && leader_tile_eligible(board, s, leader, player, current, u) ==> #[trigger] spec_leader_tile_score(
            board,
            s,
            leader,
            u,
        ) < spec_leader_tile_score(board, s, leader, t)
}

/// The tile where the robber hurts the leader most, if any tile is eligible.
pub open spec fn spec_best_leader_tile(board: Board, s: State, leader: PlayerId, player: PlayerId, current: TileId) -> Option<TileId> {
    if exists|t: int| is_best_leader_tile(board, s, leader, player, current, t) {
        Some((choose|t: int| is_best_leader_tile(board, s, leader, player, current, t)) as TileId)
    } else {
        None
    }
}

proof fn lemma_best_leader_tile_unique(board: Board, s: State, leader: PlayerId, player: PlayerId, current: TileId, a: int, b: int)
    requires
        is_best_leader_tile(board, s, leader, player, current, a),
        is_best_leader_tile(board, s, leader, player, current, b),
    ensures
        a == b,
{
    if a < b {
        assert(spec_leader_tile_score(board, s, leader, a) < spec_leader_tile_score(board, s, leader, b));
        assert(spec_leader_tile_score(board, s, leader, b) <= spec_leader_tile_score(board, s, leader, a));
    } else if b < a {
        assert(spec_leader_tile_score(board, s, leader, b) < spec_leader_tile_score(board, s, leader, a));
        assert(spec_leader_tile_score(board, s, leader, a) <= spec_leader_tile_score(board, s, leader, b));
    }
}

fn best_leader_robber_tile(board: &Board, state: &State, leader: PlayerId, player: PlayerId, current: TileId) -> (best: Option<TileId>)
    requires
        board.wf(),
    ensures
        best == spec_best_leader_tile(*board, *state, leader, player, current),
{
    let mut best_tile: Option<TileId> = None;
    let mut best_score: u32 = 0;
    let mut t: usize = 0;
    while t < TILE_COUNT
        invariant
            t <= TILE_COUNT,
            board.wf(),
            best_tile is None ==> forall|u: int| 0 <= u < t ==> !#[trigger] leader_tile_eligible(*board, *state, leader, player, current, u),
            best_tile matches Some(b) ==> {
                &&& (b as int) < t
                &&& leader_tile_eligible(*board, *state, leader, player, current, b as int)
                &&& best_score == spec_leader_tile_score(*board, *state, leader, b as int)
                &&& forall|u: int|
                    0 <= u < t && leader_tile_eligible(*board, *state, leader, player, current, u) ==> #[trigger] spec_leader_tile_score(
                        *board,
                        *state,
                        leader,
                        u,
                    ) <= best_score
                &&& forall|u: int|
                    0 <= u < b && leader_tile_eligible(*board, *state, leader, player, current, u) ==> #[trigger] spec_leader_tile_score(
                        *board,
                        *state,
                        leader,
                        u,
                    ) < best_score
            },
        decreases TILE_COUNT - t,
    {
        let tile = t as TileId;
        if tile != current {
            if !player_has_building_on_tile(board, state, player, tile) {
                let score = leader_tile_score(board, state, leader, tile);
                if score != 0 {
                    if best_tile.is_none() || score > best_score {
                        best_tile = Some(tile);
                        best_score = score;
                    }
                }
            }
        }
        t = t + 1;
    }
    proof {
        match best_tile {
            Some(b) => {
                assert(is_best_leader_tile(*board, *state, leader, player, current, b as int));
                let c = choose|u: int| is_best_leader_tile(*board, *state, leader, player, current, u);
                lemma_best_leader_tile_unique(*board, *state, leader, player, current, b as int, c);
            },
            None => {
                assert(!exists|u: int| is_best_leader_tile(*board, *state, leader, player, current, u));
            },
        }
    }
    best_tile
}

/// `q` can be robbed on `tile`: another player with a building there and a card in hand.
pub open spec fn victim_eligible(board: Board, s: State, player: PlayerId, tile: int, q: int) -> bool {
    &&& 0 <= q < PLAYER_COUNT
    &&& q != player
    &&& has_building_on_tile(board, s, q as PlayerId, tile)
    &&& resource_total_byte(s, q) != 0
}

/// `v` is the first robbable player on `tile` with the highest estimate.
pub open spec fn is_best_victim(board: Board, s: State, road: RoadState, army: ArmyState, player: PlayerId, tile: int, v: int) -> bool {
    &&& victim_eligible(board, s, player, tile, v)
    &&& forall|q: int| victim_eligible(board, s, player, tile, q) ==> #[trigger] estimated_vps(s, road, army, q) <= estimated_vps(s, road, army, v)
    &&& forall|q: int|
        q < v && victim_eligible(board, s, player, tile, q) ==> #[trigger] estimated_vps(s, road, army, q) < estimated_vps(s, road, army, v)
}

/// The player to rob on `tile`, if anyone there can be robbed.
pub open spec fn spec_best_victim(board: Board, s: State, road: RoadState, army: ArmyState, player: PlayerId, tile: int) -> Option<PlayerId> {
    if exists|v: int| is_best_victim(board, s, road, army, player, tile, v) {
        Some((choose|v: int| is_best_victim(board, s, road, army, player, tile, v)) as PlayerId)
    } else {
        None
    }
}

proof fn lemma_best_victim_unique(board: Board, s: State, road: RoadState, army: ArmyState, player: PlayerId, tile: int, a: int, b: int)
    requires
        is_best_victim(board, s, road, army, player, tile, a),
        is_best_victim(board, s, road, army, player, tile, b),
    ensures
        a == b,
{
    if a < b {
        assert(estimated_vps(s, road, army, a) < estimated_vps(s, road, army, b));
        assert(estimated_vps(s, road, army, b) <= estimated_vps(s, road, army, a));
    } else if b < a {
        assert(estimated_vps(s, road, army, b) < estimated_vps(s, road, army, a));
        assert(estimated_vps(s, road, army, a) <= estimated_vps(s, road, army, b));
    }
}

pub fn best_victim_on_tile(
    board: &Board,
    state: &State,
    road_state: &RoadState,
    army_state: &ArmyState,
    player: PlayerId,
    tile: TileId,
) -> (best: Option<PlayerId>)
    requires
        board.wf(),
        (tile as int) < TILE_COUNT,
        dev_hands_small(*state),
    ensures
        best == spec_best_victim(*board, *state, *road_state, *army_state, player, tile as int),
        best matches Some(v) ==> victim_eligible(*board, *state, player, tile as int, v as int),
{
    let mut best: Option<PlayerId> = None;
    let mut best_score: u128 = 0;
    let mut other: usize = 0;
    while other < PLAYER_COUNT
        invariant
            other <= PLAYER_COUNT,
            board.wf(),
            (tile as int) < TILE_COUNT,
            dev_hands_small(*state),
            best is None ==> forall|q: int| q < other ==> !#[trigger] victim_eligible(*board, *state, player, tile as int, q),
            best matches Some(b) ==> {
                &&& (b as int) < other
                &&& victim_eligible(*board, *state, player, tile as int, b as int)
                &&& best_score == estimated_vps(*state, *road_state, *army_state, b as int)
                &&& forall|q: int|
                    q < other && victim_eligible(*board, *state, player, tile as int, q) ==> #[trigger] estimated_vps(
                        *state,
                        *road_state,
                        *army_state,
                        q,
                    ) <= best_score
                &&& forall|q: int|
                    q < b && victim_eligible(*board, *state, player, tile as int, q) ==> #[trigger] estimated_vps(
                        *state,
                        *road_state,
                        *army_state,
                        q,
                    ) < best_score
            },
        decreases PLAYER_COUNT - other,
    {
        let other_id = other as u8;
        if other_id != player {
            if player_has_building_on_tile(board, state, other_id, tile) {
                if crate::engine::player_resource_total(state, other_id) != 0 {
                    let score = estimated_public_vps(state, road_state, army_state, other_id);
                    if best.is_none() || score > best_score {
                        best = Some(other_id);
                        best_score = score;
                    }
                }
            }
        }
        proof {
            assert(victim_eligible(*board, *state, player, tile as int, other as int) ==> other_id != player);
        }
        other = other + 1;
    }
    proof {
        match best {
            Some(b) => {
                assert(is_best_victim(*board, *state, *road_state, *army_state, player, tile as int, b as int));
                let c = choose|v: int| is_best_victim(*board, *state, *road_state, *army_state, player, tile as int, v);
                lemma_best_victim_unique(*board, *state, *road_state, *army_state, player, tile as int, b as int, c);
            },
            None => {
                assert(!exists|v: int| is_best_victim(*board, *state, *road_state, *army_state, player, tile as int, v));
            },
        }
    }
    best
}

/// The first tile other than `current` with none of `player`'s buildings, if any.
pub open spec fn spec_first_open_tile(board: Board, s: State, player: PlayerId, current: TileId) -> Option<TileId> {
    if exists|t: int| 0 <= t < TILE_COUNT && t != current && !has_building_on_tile(board, s, player, t) {
        Some(
            (choose|t: int|
                0 <= t < TILE_COUNT && t != current && !has_building_on_tile(board, s, player, t) && forall|u: int|
                    0 <= u < t ==> !(u != current && !has_building_on_tile(board, s, player, u))) as TileId,
        )
    } else {
        None
    }
}

fn first_non_self_robber_tile(board: &Board, state: &State, player: PlayerId, current: TileId) -> (tile: Option<TileId>)
    requires
        board.wf(),
    ensures
        tile == spec_first_open_tile(*board, *state, player, current),
{
    let mut t: usize = 0;
    while t < TILE_COUNT
        invariant
            t <= TILE_COUNT,
            board.wf(),
            forall|u: int| 0 <= u < t ==> !(u != current && !#[trigger] has_building_on_tile(*board, *state, player, u)),
        decreases TILE_COUNT - t,
    {
        let tile = t as TileId;
        if tile != current {
            if !player_has_building_on_tile(board, state, player, tile) {
                proof {
                    let c = choose|u: int|
                        0 <= u < TILE_COUNT && u != current && !has_building_on_tile(*board, *state, player, u) && forall|v: int|
                            0 <= v < u ==> !(v != current && !has_building_on_tile(*board, *state, player, v));
                    assert(c == t) by {
                        if c < t {
                            assert(!(c != current && !has_building_on_tile(*board, *state, player, c)));
                        } else if c > t {
                            assert(!(t != current && !has_building_on_tile(*board, *state, player, t as int)));
                        }
                    }
                }
                return Some(tile);
            }
        }
        t = t + 1;
    }
    None
}


/// The resource of the card at position `roll` in a hand laid out as lumber, brick, wool, grain, ore.
pub open spec fn resource_at_position(counts: [u8; RESOURCE_COUNT], roll: int) -> Option<Resource> {
    let lumber = counts@[1] as int;
    let brick = lumber + counts@[0];
    let wool = brick + counts@[4];
    let grain = wool + counts@[3];
    let ore = grain + counts@[2];
    if roll < lumber {
        Some(Resource::Lumber)
    } else if roll < brick {
        Some(Resource::Brick)
    } else if roll < wool {
        Some(Resource::Wool)
    } else if roll < grain {
        Some(Resource::Grain)
    } else if roll < ore {
        Some(Resource::Ore)
    } else {
        None
    }
}

/// The number of cards in a hand.
pub open spec fn count_total(counts: [u8; RESOURCE_COUNT]) -> int {
    counts@[0] + counts@[1] + counts@[2] + counts@[3] + counts@[4]
}

/// A card drawn at random from `counts`: the next generator output modulo the hand size picks the position.
pub(crate) fn random_resource_from_counts(rng: &mut Pcg64, counts: &[u8; RESOURCE_COUNT]) -> (resource: Option<Resource>)
    ensures
        count_total(*counts) == 0 ==> resource is None && *final(rng) == *old(rng),
        count_total(*counts) != 0 ==> {
            &&& final(rng).spec_state() == pcg_step(old(rng).spec_state(), old(rng).spec_increment())
            &&& final(rng).spec_increment() == old(rng).spec_increment()
            &&& resource == resource_at_position(
                *counts,
                (output_xsl_rr(final(rng).spec_state()) % (count_total(*counts) as u64)) as int,
            )
            &&& resource is Some
        },
{
    let total: u64 = counts[0] as u64 + counts[1] as u64 + counts[2] as u64 + counts[3] as u64 + counts[4] as u64;
    if total == 0 {
        return None;
    }
    let mut roll = next_u64_mod(rng, total);
    let ghost start = roll as int;
    let order = Resource::ALL;
    let mut i: usize = 0;
    while i < RESOURCE_COUNT
        invariant
            i <= RESOURCE_COUNT,
            order@ == seq![Resource::Lumber, Resource::Brick, Resource::Wool, Resource::Grain, Resource::Ore],
            start < count_total(*counts),
            roll as int == start - (if i > 0 { counts@[1] as int } else { 0 }) - (if i > 1 { counts@[0] as int } else { 0 })
                - (if i > 2 { counts@[4] as int } else { 0 }) - (if i > 3 { counts@[3] as int } else { 0 }),
            i > 0 ==> start >= counts@[1],
            i > 1 ==> start >= counts@[1] + counts@[0],
            i > 2 ==> start >= counts@[1] + counts@[0] + counts@[4],
            i > 3 ==> start >= counts@[1] + counts@[0] + counts@[4] + counts@[3],
            i > 4 ==> start >= count_total(*counts),
            total == count_total(*counts),
            rng.spec_state() == pcg_step(old(rng).spec_state(), old(rng).spec_increment()),
            rng.spec_increment() == old(rng).spec_increment(),
            start == output_xsl_rr(rng.spec_state()) % total,
        decreases RESOURCE_COUNT - i,
    {
        let resource = order[i];
        let amount = counts[resource.as_index()] as u64;
        if roll < amount {
            return Some(resource);
        }
        roll = roll - amount;
        i = i + 1;
    }
    None
}

/// Where the robber goes and whom it robs, before the card is drawn: the tile that hurts the leader most,
/// robbing the leader when it is there with a card, else the best victim on that tile; failing such a tile,
/// the first tile free of the player's buildings; failing that, the robber stays.
pub open spec fn spec_robber_target(board: Board, s: State, road: RoadState, army: ArmyState, player: PlayerId) -> (TileId, Option<PlayerId>) {
    let leader = spec_leader(s, road, army, player);
    match spec_best_leader_tile(board, s, leader, player, s.robber_tile) {
        Some(tile) => (
            tile,
            if has_building_on_tile(board, s, leader, tile as int) && resource_total_byte(s, leader as int) > 0 {
                Some(leader)
            } else {
                spec_best_victim(board, s, road, army, player, tile as int)
            },
        ),
        None => match spec_first_open_tile(board, s, player, s.robber_tile) {
            Some(tile) => (tile, spec_best_victim(board, s, road, army, player, tile as int)),
            None => (s.robber_tile, None),
        },
    }
}

pub(crate) fn choose_robber_move(
    board: &Board,
    state: &State,
    road_state: &RoadState,
    army_state: &ArmyState,
    player: PlayerId,
    rng: &mut Pcg64,
) -> (choice: (TileId, Option<PlayerId>, Option<Resource>))
    requires
        board.wf(),
        is_player(player),
        dev_hands_small(*state),
    ensures
        (choice.0, choice.1) == spec_robber_target(*board, *state, *road_state, *army_state, player),
        choice.1 matches Some(v) ==> is_player(v),
        (choice.0 as int) < TILE_COUNT || choice.0 == state.robber_tile,
        match choice.1 {
            Some(v) => {
                let counts = state.player_resources@[v as int];
                &&& count_total(counts) == 0 ==> choice.2 is None && *final(rng) == *old(rng)
                &&& count_total(counts) != 0 ==> {
                    &&& final(rng).spec_state() == pcg_step(old(rng).spec_state(), old(rng).spec_increment())
                    &&& final(rng).spec_increment() == old(rng).spec_increment()
                    &&& choice.2 == resource_at_position(
                        counts,
                        (output_xsl_rr(final(rng).spec_state()) % (count_total(counts) as u64)) as int,
                    )
                }
            },
            None => choice.2 is None && *final(rng) == *old(rng),
        },
{
    let leader = leader_by_public_vps(state, road_state, army_state, player);
    let best_tile = best_leader_robber_tile(board, state, leader, player, state.robber_tile);
    if let Some(tile) = best_tile {
        proof {
            let c = choose|t: int| is_best_leader_tile(*board, *state, leader, player, state.robber_tile, t);
            assert(is_best_leader_tile(*board, *state, leader, player, state.robber_tile, c));
        }
        let victim = if player_has_building_on_tile(board, state, leader, tile)
            && crate::engine::player_resource_total(state, leader) > 0 {
            Some(leader)
        } else {
            best_victim_on_tile(board, state, road_state, army_state, player, tile)
        };
        let stolen = match victim {
            Some(victim_id) => random_resource_from_counts(rng, &state.player_resources[victim_id as usize]),
            None => None,
        };
        return (tile, victim, stolen);
    }
    if let Some(tile) = first_non_self_robber_tile(board, state, player, state.robber_tile) {
        proof {
            let c = choose|t: int|
                0 <= t < TILE_COUNT && t != state.robber_tile && !has_building_on_tile(*board, *state, player, t) && forall|u: int|
                    0 <= u < t ==> !(u != state.robber_tile && !has_building_on_tile(*board, *state, player, u));
            assert(0 <= c < TILE_COUNT);
        }
        let victim = best_victim_on_tile(board, state, road_state, army_state, player, tile);
        let stolen = match victim {
            Some(victim_id) => random_resource_from_counts(rng, &state.player_resources[victim_id as usize]),
            None => None,
        };
        return (tile, victim, stolen);
    }
    (state.robber_tile, None, None)
}

} // verus!
