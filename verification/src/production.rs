use vstd::prelude::*;

use crate::board::Board;
use vstd::array::spec_array_update;
use crate::engine::{bank_at, hand_at, only_resources_changed, resource_total, resources_bounded};
use crate::state::{is_player, State};
use crate::types::{
    resource_index, BuildingLevel, NodeId, Resource, INVALID_NODE, NODE_COUNT, NO_PLAYER, PLAYER_COUNT,
    RESOURCE_COUNT, TILE_COUNT,
};

verus! {

/// Cards a building of `level` earns from one producing tile.
pub open spec fn level_yield(level: BuildingLevel) -> int {
    match level {
        BuildingLevel::Settlement => 1,
        BuildingLevel::City => 2,
        BuildingLevel::Empty => 0,
    }
}

/// What `player` earns from the building on `node`, an entry of a tile's node list.
pub open spec fn node_yield(s: State, node: NodeId, player: int) -> int {
    if node == INVALID_NODE || s.node_owner@[node as int] != player {
        0
    } else {
        level_yield(s.node_level@[node as int])
    }
}

/// What `player` earns from the first `k` corners of tile `t`.
pub open spec fn corners_yield(board: Board, s: State, t: int, player: int, k: int) -> int
    decreases k,
{
    if k <= 0 {
        0
    } else {
        corners_yield(board, s, t, player, k - 1) + node_yield(s, board.tile_nodes@[t]@[k - 1], player)
    }
}

/// Tile `t` produces resource index `r` on a roll of `roll`: its number, no robber, and that resource.
pub open spec fn tile_produces(board: Board, s: State, roll: u8, t: int, r: int) -> bool {
    &&& board.tile_numbers@[t] == Some(roll)
    &&& t != s.robber_tile as int
    &&& board.tile_resources@[t] matches Some(res) && resource_index(res) == r
}

/// What `player` earns of resource index `r` from the first `t` tiles on a roll of `roll`.
pub open spec fn roll_yield(board: Board, s: State, roll: u8, player: int, r: int, t: int) -> int
    decreases t,
{
    if t <= 0 {
        0
    } else {
        roll_yield(board, s, roll, player, r, t - 1) + if tile_produces(board, s, roll, t - 1, r) {
            corners_yield(board, s, t - 1, player, 6)
        } else {
            0
        }
    }
}

/// What all players together earn of resource index `r` from the first `t` tiles.
pub open spec fn roll_total(board: Board, s: State, roll: u8, r: int, t: int) -> int {
    roll_yield(board, s, roll, 0, r, t) + roll_yield(board, s, roll, 1, r, t) + roll_yield(board, s, roll, 2, r, t)
        + roll_yield(board, s, roll, 3, r, t)
}

/// The corners' yields to the four players add up to at most two cards a corner.
proof fn lemma_corners_yield_bound(board: Board, s: State, t: int, k: int)
    requires
        0 <= k <= 6,
    ensures
        0 <= corners_yield(board, s, t, 0, k),
        0 <= corners_yield(board, s, t, 1, k),
        0 <= corners_yield(board, s, t, 2, k),
        0 <= corners_yield(board, s, t, 3, k),
        corners_yield(board, s, t, 0, k) + corners_yield(board, s, t, 1, k) + corners_yield(board, s, t, 2, k)
            + corners_yield(board, s, t, 3, k) <= 2 * k,
    decreases k,
{
    if k > 0 {
        lemma_corners_yield_bound(board, s, t, k - 1);
    }
}

/// The yields of the first `t` tiles are at most twelve cards a tile.
proof fn lemma_roll_yield_bound(board: Board, s: State, roll: u8, r: int, t: int)
    requires
        0 <= t <= TILE_COUNT,
    ensures
        0 <= roll_yield(board, s, roll, 0, r, t),
        0 <= roll_yield(board, s, roll, 1, r, t),
        0 <= roll_yield(board, s, roll, 2, r, t),
        0 <= roll_yield(board, s, roll, 3, r, t),
        roll_total(board, s, roll, r, t) <= 12 * t,
    decreases t,
{
    if t > 0 {
        lemma_roll_yield_bound(board, s, roll, r, t - 1);
        lemma_corners_yield_bound(board, s, t - 1, 6);
    }
}

/// The payout table of a roll: each player's earnings per resource, and the sum per resource.
fn roll_payouts(board: &Board, state: &State, roll: u8) -> (out: ([[u8; RESOURCE_COUNT]; PLAYER_COUNT], [u8; RESOURCE_COUNT]))
    requires
        board.wf(),
        state.wf(),
    ensures
        forall|p: int, r: int|
            0 <= p < PLAYER_COUNT && 0 <= r < RESOURCE_COUNT ==> #[trigger] out.0@[p]@[r] == roll_yield(
                *board,
                *state,
                roll,
                p,
                r,
                TILE_COUNT as int,
            ),
        forall|r: int| 0 <= r < RESOURCE_COUNT ==> #[trigger] out.1@[r] == roll_total(*board, *state, roll, r, TILE_COUNT as int),
{
    let mut payouts = [[0u8; RESOURCE_COUNT]; PLAYER_COUNT];
    let mut totals = [0u8; RESOURCE_COUNT];
    let mut t: usize = 0;
    while t < TILE_COUNT
        invariant
            t <= TILE_COUNT,
            board.wf(),
            state.wf(),
            forall|p: int, r: int|
                0 <= p < PLAYER_COUNT && 0 <= r < RESOURCE_COUNT ==> #[trigger] payouts@[p]@[r] == roll_yield(
                    *board,
                    *state,
                    roll,
                    p,
                    r,
                    t as int,
                ),
            forall|r: int| 0 <= r < RESOURCE_COUNT ==> #[trigger] totals@[r] == roll_total(*board, *state, roll, r, t as int),
        decreases TILE_COUNT - t,
    {
        let number = board.tile_numbers[t];
        let produces = match number {
            Some(n) => n == roll && t as u8 != state.robber_tile,
            None => false,
        };
        let resource = board.tile_resources[t];
        let ghost base_p = payouts;
        let ghost base_t = totals;
        proof {
            assert forall|r: int| 0 <= r < RESOURCE_COUNT implies roll_total(*board, *state, roll, r, t as int) <= 12 * t by {
                lemma_roll_yield_bound(*board, *state, roll, r, t as int);
            }
        }
        if produces {
            if let Some(res) = resource {
                let ri = res.as_index();
                let mut k: usize = 0;
                while k < 6
                    invariant
                        k <= 6,
                        t < TILE_COUNT,
                        ri == resource_index(res),
                        board.wf(),
                        state.wf(),
                        forall|r: int| 0 <= r < RESOURCE_COUNT ==> roll_total(*board, *state, roll, r, t as int) <= 12 * t,
                        forall|p: int, r: int|
                            0 <= p < PLAYER_COUNT && 0 <= r < RESOURCE_COUNT ==> #[trigger] payouts@[p]@[r] == base_p@[p]@[r] + if r
                                == ri {
                                corners_yield(*board, *state, t as int, p, k as int)
                            } else {
                                0
                            },
                        forall|r: int| 0 <= r < RESOURCE_COUNT ==> #[trigger] totals@[r] == base_t@[r] + if r == ri {
                            corners_yield(*board, *state, t as int, 0, k as int) + corners_yield(*board, *state, t as int, 1, k as int)
                                + corners_yield(*board, *state, t as int, 2, k as int) + corners_yield(
                                *board,
                                *state,
                                t as int,
                                3,
                                k as int,
                            )
                        } else {
                            0
                        },
                        forall|p: int, r: int|
                            0 <= p < PLAYER_COUNT && 0 <= r < RESOURCE_COUNT ==> #[trigger] base_p@[p]@[r] == roll_yield(
                                *board,
                                *state,
                                roll,
                                p,
                                r,
                                t as int,
                            ),
                        forall|r: int| 0 <= r < RESOURCE_COUNT ==> #[trigger] base_t@[r] == roll_total(*board, *state, roll, r, t as int),
                    decreases 6 - k,
                {
                    let node = board.tile_nodes[t][k];
                    proof {
                        lemma_corners_yield_bound(*board, *state, t as int, k as int);
                        lemma_corners_yield_bound(*board, *state, t as int, k as int + 1);
                        lemma_roll_yield_bound(*board, *state, roll, ri as int, t as int);
                        assert(board.tile_nodes@[t as int]@[k as int] == node);
                    }
                    if node != INVALID_NODE {
                        let owner = state.node_owner[node as usize];
                        if owner != NO_PLAYER {
                            let amount: u8 = match state.node_level[node as usize] {
                                BuildingLevel::Settlement => 1,
                                BuildingLevel::City => 2,
                                BuildingLevel::Empty => 0,
                            };
                            if amount != 0 {
                                payouts[owner as usize][ri] = payouts[owner as usize][ri] + amount;
                                totals[ri] = totals[ri] + amount;
                            }
                        }
                    }
                    k = k + 1;
                }
            }
        }
        t = t + 1;
    }
    (payouts, totals)
}


/// What `player` is paid of resource index `r` on a roll: its yield, unless the bank cannot pay everyone.
pub open spec fn roll_paid(board: Board, s: State, roll: u8, player: int, r: int) -> int {
    if bank_at(s, r) >= roll_total(board, s, roll, r, TILE_COUNT as int) {
        roll_yield(board, s, roll, player, r, TILE_COUNT as int)
    } else {
        0
    }
}

/// The sum of column `k` of a payout table.
pub open spec fn column_sum(payouts: [[u8; RESOURCE_COUNT]; PLAYER_COUNT], k: int) -> int {
    payouts@[0]@[k] + payouts@[1]@[k] + payouts@[2]@[k] + payouts@[3]@[k]
}

/// Drops every payout of a resource whose sum the bank cannot cover.
fn cap_payouts(payouts: &mut [[u8; RESOURCE_COUNT]; PLAYER_COUNT], totals: &[u8; RESOURCE_COUNT], bank: &[u8; RESOURCE_COUNT])
    ensures
        forall|p: int, r: int|
            0 <= p < PLAYER_COUNT && 0 <= r < RESOURCE_COUNT ==> #[trigger] final(payouts)@[p]@[r] == if totals@[r] != 0
                && bank@[r] < totals@[r] {
                0
            } else {
                old(payouts)@[p]@[r]
            },
{
    let mut idx: usize = 0;
    while idx < RESOURCE_COUNT
        invariant
            idx <= RESOURCE_COUNT,
            forall|p: int, r: int|
                0 <= p < PLAYER_COUNT && 0 <= r < RESOURCE_COUNT ==> #[trigger] payouts@[p]@[r] == if r < idx && totals@[r]
                    != 0 && bank@[r] < totals@[r] {
                    0
                } else {
                    old(payouts)@[p]@[r]
                },
        decreases RESOURCE_COUNT - idx,
    {
        if totals[idx] != 0 && bank[idx] < totals[idx] {
            let mut p: usize = 0;
            while p < PLAYER_COUNT
                invariant
                    p <= PLAYER_COUNT,
                    idx < RESOURCE_COUNT,
                    totals@[idx as int] != 0 && bank@[idx as int] < totals@[idx as int],
                    forall|q: int, r: int|
                        0 <= q < PLAYER_COUNT && 0 <= r < RESOURCE_COUNT ==> #[trigger] payouts@[q]@[r] == if (r < idx && totals@[r]
                            != 0 && bank@[r] < totals@[r]) || (r == idx && q < p) {
                            0
                        } else {
                            old(payouts)@[q]@[r]
                        },
                decreases PLAYER_COUNT - p,
            {
                payouts[p][idx] = 0;
                p = p + 1;
            }
        }
        idx = idx + 1;
    }
}

/// Payout `(q, k)` has been made once the loop has passed player `p` and, for that player, index `idx`.
pub open spec fn payout_done(q: int, k: int, p: int, idx: int) -> bool {
    q < p || (q == p && k < idx)
}

/// The part of column `k` paid so far.
pub open spec fn column_done(payouts: [[u8; RESOURCE_COUNT]; PLAYER_COUNT], k: int, p: int, idx: int) -> int {
    (if payout_done(0, k, p, idx) { payouts@[0]@[k] as int } else { 0 })
        + (if payout_done(1, k, p, idx) { payouts@[1]@[k] as int } else { 0 })
        + (if payout_done(2, k, p, idx) { payouts@[2]@[k] as int } else { 0 })
        + (if payout_done(3, k, p, idx) { payouts@[3]@[k] as int } else { 0 })
}

/// Pays every entry of `payouts` from the bank into the hands.
fn pay_payouts(state: &mut State, payouts: &[[u8; RESOURCE_COUNT]; PLAYER_COUNT])
    requires
        resources_bounded(*old(state)),
        forall|k: int| 0 <= k < RESOURCE_COUNT ==> #[trigger] column_sum(*payouts, k) <= bank_at(*old(state), k),
    ensures
        only_resources_changed(*final(state), *old(state)),
        forall|q: int, k: int|
            0 <= q < PLAYER_COUNT && 0 <= k < RESOURCE_COUNT ==> #[trigger] hand_at(*final(state), q, k) == hand_at(*old(state), q, k)
                + payouts@[q]@[k],
        forall|k: int| 0 <= k < RESOURCE_COUNT ==> #[trigger] bank_at(*final(state), k) == bank_at(*old(state), k) - column_sum(*payouts, k),
        forall|r: int| 0 <= r < RESOURCE_COUNT ==> #[trigger] resource_total(*final(state), r) == resource_total(*old(state), r),
        resources_bounded(*final(state)),
{
    let ghost o = *state;
    let mut p: usize = 0;
    while p < PLAYER_COUNT
        invariant
            p <= PLAYER_COUNT,
            resources_bounded(o),
            forall|k: int| 0 <= k < RESOURCE_COUNT ==> #[trigger] column_sum(*payouts, k) <= bank_at(o, k),
            only_resources_changed(*state, o),
            forall|r: int| 0 <= r < RESOURCE_COUNT ==> #[trigger] resource_total(*state, r) == resource_total(o, r),
            forall|q: int, k: int|
                0 <= q < PLAYER_COUNT && 0 <= k < RESOURCE_COUNT ==> #[trigger] hand_at(*state, q, k) == hand_at(o, q, k)
                    + if payout_done(q, k, p as int, 0) { payouts@[q]@[k] as int } else { 0 },
            forall|k: int| 0 <= k < RESOURCE_COUNT ==> #[trigger] bank_at(*state, k) == bank_at(o, k) - column_done(*payouts, k, p as int, 0),
        decreases PLAYER_COUNT - p,
    {
        let mut idx: usize = 0;
        while idx < RESOURCE_COUNT
            invariant
                p < PLAYER_COUNT,
                idx <= RESOURCE_COUNT,
                resources_bounded(o),
                forall|k: int| 0 <= k < RESOURCE_COUNT ==> #[trigger] column_sum(*payouts, k) <= bank_at(o, k),
                only_resources_changed(*state, o),
                forall|r: int| 0 <= r < RESOURCE_COUNT ==> #[trigger] resource_total(*state, r) == resource_total(o, r),
                forall|q: int, k: int|
                    0 <= q < PLAYER_COUNT && 0 <= k < RESOURCE_COUNT ==> #[trigger] hand_at(*state, q, k) == hand_at(o, q, k)
                        + if payout_done(q, k, p as int, idx as int) { payouts@[q]@[k] as int } else { 0 },
                forall|k: int|
                    0 <= k < RESOURCE_COUNT ==> #[trigger] bank_at(*state, k) == bank_at(o, k) - column_done(*payouts, k, p as int, idx as int),
            decreases RESOURCE_COUNT - idx,
        {
            let amount = payouts[p][idx];
            if amount != 0 {
                let resource = Resource::from_index(idx).unwrap();
                let ghost before = *state;
                proof {
                    let k = idx as int;
                    assert(column_sum(*payouts, k) <= bank_at(o, k));
                    assert(bank_at(*state, k) >= amount);
                    assert(resource_total(o, k) <= 127);
                    assert(resource_total(*state, k) == hand_at(*state, 0, k) + hand_at(*state, 1, k) + hand_at(*state, 2, k)
                        + hand_at(*state, 3, k) + bank_at(*state, k));
                    assert(hand_at(*state, p as int, k) + amount <= 127);
                    assert(amount <= 127);
                }
                crate::engine::move_with_bank(state, p as u8, resource, amount, false);
                proof {
                    assert forall|q: int, k: int|
                        0 <= q < PLAYER_COUNT && 0 <= k < RESOURCE_COUNT implies #[trigger] hand_at(*state, q, k) == hand_at(o, q, k)
                            + if payout_done(q, k, p as int, idx as int + 1) { payouts@[q]@[k] as int } else { 0 } by {
                        assert(hand_at(before, q, k) == hand_at(o, q, k) + if payout_done(q, k, p as int, idx as int) {
                            payouts@[q]@[k] as int
                        } else {
                            0
                        });
                    }
                    assert forall|k: int|
                        0 <= k < RESOURCE_COUNT implies #[trigger] bank_at(*state, k) == bank_at(o, k) - column_done(
                            *payouts,
                            k,
                            p as int,
                            idx as int + 1,
                        ) by {
                        assert(bank_at(before, k) == bank_at(o, k) - column_done(*payouts, k, p as int, idx as int));
                    }
                }
            }
            idx = idx + 1;
        }
        p = p + 1;
        proof {
            assert forall|k: int| 0 <= k < RESOURCE_COUNT implies column_done(*payouts, k, p as int, 0) == column_done(
                *payouts,
                k,
                p as int - 1,
                RESOURCE_COUNT as int,
            ) by {
            }
        }
    }
    proof {
        assert forall|r: int| 0 <= r < RESOURCE_COUNT implies #[trigger] resource_total(*state, r) <= 127 by {
            assert(resource_total(o, r) <= 127);
        }
    }
}

/// Pays out a roll of `roll`: every building on a producing tile earns its cards, except for a resource that
/// the bank cannot pay in full.
pub(crate) fn distribute_resources(board: &Board, state: &mut State, roll: u8)
    requires
        board.wf(),
        old(state).wf(),
        resources_bounded(*old(state)),
    ensures
        only_resources_changed(*final(state), *old(state)),
        forall|q: int, k: int|
            0 <= q < PLAYER_COUNT && 0 <= k < RESOURCE_COUNT ==> #[trigger] hand_at(*final(state), q, k) == hand_at(*old(state), q, k)
                + roll_paid(*board, *old(state), roll, q, k),
        forall|k: int|
            0 <= k < RESOURCE_COUNT ==> #[trigger] bank_at(*final(state), k) == bank_at(*old(state), k) - (roll_paid(*board, *old(state), roll, 0, k)
                + roll_paid(*board, *old(state), roll, 1, k) + roll_paid(*board, *old(state), roll, 2, k) + roll_paid(
                *board,
                *old(state),
                roll,
                3,
                k,
            )),
        forall|r: int| 0 <= r < RESOURCE_COUNT ==> #[trigger] resource_total(*final(state), r) == resource_total(*old(state), r),
        resources_bounded(*final(state)),
{
    let ghost o = *state;
    let (mut payouts, totals) = roll_payouts(board, state, roll);
    let ghost raw = payouts;
    let bank = state.bank_resources;
    cap_payouts(&mut payouts, &totals, &bank);
    proof {
        assert forall|k: int| 0 <= k < RESOURCE_COUNT implies #[trigger] column_sum(payouts, k) <= bank_at(o, k) by {
            lemma_roll_yield_bound(*board, o, roll, k, TILE_COUNT as int);
            assert(totals@[k] == roll_total(*board, o, roll, k, TILE_COUNT as int));
        }
        assert forall|q: int, k: int|
            0 <= q < PLAYER_COUNT && 0 <= k < RESOURCE_COUNT implies #[trigger] payouts@[q]@[k] == roll_paid(*board, o, roll, q, k) by {
            lemma_roll_yield_bound(*board, o, roll, k, TILE_COUNT as int);
            assert(raw@[q]@[k] == roll_yield(*board, o, roll, q, k, TILE_COUNT as int));
            assert(totals@[k] == roll_total(*board, o, roll, k, TILE_COUNT as int));
        }
    }
    pay_payouts(state, &payouts);
}


/// A roll's payout reads only the board, the buildings, the robber and the bank.
pub proof fn lemma_roll_paid_ignores_flags(board: Board, a: State, b: State, roll: u8, player: int, r: int)
    requires
        a.node_owner == b.node_owner,
        a.node_level == b.node_level,
        a.robber_tile == b.robber_tile,
        a.bank_resources == b.bank_resources,
    ensures
        roll_paid(board, a, roll, player, r) == roll_paid(board, b, roll, player, r),
{
    assert forall|t: int, p: int| 0 <= t <= TILE_COUNT implies #[trigger] roll_yield(board, a, roll, p, r, t) == roll_yield(board, b, roll, p, r, t) by {
        lemma_roll_yield_same(board, a, b, roll, p, r, t);
    }
    assert(roll_total(board, a, roll, r, TILE_COUNT as int) == roll_total(board, b, roll, r, TILE_COUNT as int));
}

proof fn lemma_roll_yield_same(board: Board, a: State, b: State, roll: u8, player: int, r: int, t: int)
    requires
        a.node_owner == b.node_owner,
        a.node_level == b.node_level,
        a.robber_tile == b.robber_tile,
    ensures
        roll_yield(board, a, roll, player, r, t) == roll_yield(board, b, roll, player, r, t),
    decreases t,
{
    if t > 0 {
        lemma_roll_yield_same(board, a, b, roll, player, r, t - 1);
        lemma_corners_yield_same(board, a, b, t - 1, player, 6);
    }
}

proof fn lemma_corners_yield_same(board: Board, a: State, b: State, t: int, player: int, k: int)
    requires
        a.node_owner == b.node_owner,
        a.node_level == b.node_level,
    ensures
        corners_yield(board, a, t, player, k) == corners_yield(board, b, t, player, k),
    decreases k,
{
    if k > 0 {
        lemma_corners_yield_same(board, a, b, t, player, k - 1);
    }
}

/// The board with the robber's tile carrying no number.
pub open spec fn robbed_unnumbered(board: Board, s: State) -> Board {
    Board { tile_numbers: spec_array_update(board.tile_numbers, s.robber_tile as int, None), ..board }
}

proof fn lemma_corners_same_nodes(a: Board, b: Board, s: State, t: int, player: int, k: int)
    requires
        a.tile_nodes == b.tile_nodes,
    ensures
        corners_yield(a, s, t, player, k) == corners_yield(b, s, t, player, k),
    decreases k,
{
    if k > 0 {
        lemma_corners_same_nodes(a, b, s, t, player, k - 1);
    }
}

proof fn lemma_robbed_yield_same(board: Board, s: State, roll: u8, player: int, r: int, t: int)
    requires
        (s.robber_tile as int) < TILE_COUNT,
        t <= TILE_COUNT,
    ensures
        roll_yield(board, s, roll, player, r, t) == roll_yield(robbed_unnumbered(board, s), s, roll, player, r, t),
    decreases t,
{
    if t > 0 {
        lemma_robbed_yield_same(board, s, roll, player, r, t - 1);
        let b2 = robbed_unnumbered(board, s);
        assert(b2.tile_numbers@[t - 1] == if t - 1 == s.robber_tile as int { None } else { board.tile_numbers@[t - 1] });
        assert(tile_produces(board, s, roll, t - 1, r) == tile_produces(b2, s, roll, t - 1, r));
        lemma_corners_same_nodes(board, b2, s, t - 1, player, 6);
    }
}

/// The tile under the robber yields nothing on any roll: every payout is what it would be if that tile had no
/// number at all.
pub proof fn lemma_robbed_tile_yields_nothing(board: Board, s: State, roll: u8, player: int, r: int)
    requires
        (s.robber_tile as int) < TILE_COUNT,
    ensures
        roll_paid(board, s, roll, player, r) == roll_paid(robbed_unnumbered(board, s), s, roll, player, r),
{
    lemma_robbed_yield_same(board, s, roll, player, r, TILE_COUNT as int);
    lemma_robbed_yield_same(board, s, roll, 0, r, TILE_COUNT as int);
    lemma_robbed_yield_same(board, s, roll, 1, r, TILE_COUNT as int);
    lemma_robbed_yield_same(board, s, roll, 2, r, TILE_COUNT as int);
    lemma_robbed_yield_same(board, s, roll, 3, r, TILE_COUNT as int);
}

proof fn lemma_no_producer_no_yield(board: Board, s: State, roll: u8, player: int, r: int, t: int)
    requires
        forall|u: int| 0 <= u < t && #[trigger] board.tile_numbers@[u] == Some(roll) ==> u == s.robber_tile as int,
    ensures
        roll_yield(board, s, roll, player, r, t) == 0,
    decreases t,
{
    if t > 0 {
        lemma_no_producer_no_yield(board, s, roll, player, r, t - 1);
        assert(board.tile_numbers@[t - 1] == Some(roll) ==> t - 1 == s.robber_tile as int);
    }
}

/// When the only tiles with the rolled number lie under the robber, nobody is paid anything.
pub proof fn lemma_only_robbed_tile_pays_nothing(board: Board, s: State, roll: u8, player: int, r: int)
    requires
        forall|u: int| 0 <= u < TILE_COUNT && #[trigger] board.tile_numbers@[u] == Some(roll) ==> u == s.robber_tile as int,
    ensures
        roll_paid(board, s, roll, player, r) == 0,
{
    lemma_no_producer_no_yield(board, s, roll, player, r, TILE_COUNT as int);
}

} // verus!
