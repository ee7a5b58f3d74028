use vstd::prelude::*;

use crate::board::Board;
use crate::engine::{ArmyState, RoadState};
use crate::game::step_ready;
use crate::robber::{pip_value, spec_pip_value};
use crate::rules::initial_settlement_allowed;
use crate::state::{is_player, State};
use crate::types::{
    ActionPrompt, BuildingLevel, EdgeId, NodeId, PlayerId, Resource, EDGE_COUNT, INVALID_TILE, NODE_COUNT,
    PLAYER_COUNT, RESOURCE_COUNT,
};
use crate::value_player::{
    actions_where, apply_value_action, generate_playable_actions, opening_settlement_pred, playable_actions,
    settlement_kind, value_action_done, ValueAction, ValueActionKind,
};

verus! {

/// The outcome of one simulated game from an opening: the winner, if any, each player's points and the turns played.
#[derive(Copy, Clone, Debug)]
pub struct PlayoutResult {
    pub winner: Option<PlayerId>,
    pub vps_by_player: [u8; PLAYER_COUNT],
    pub num_turns: u32,
}

/// Running totals over playout results.
#[derive(Copy, Clone, Debug)]
pub struct PlayoutAggregate {
    pub wins: [u64; PLAYER_COUNT],
    pub total_non_none: u64,
    pub total_vps: [u64; PLAYER_COUNT],
    pub total_turns: u64,
    pub samples: u64,
}

impl Default for PlayoutAggregate {
    fn default() -> (agg: Self)
        ensures
            agg.samples == 0,
            agg.total_non_none == 0,
            agg.total_turns == 0,
            forall|p: int| 0 <= p < PLAYER_COUNT ==> #[trigger] agg.wins@[p] == 0 && agg.total_vps@[p] == 0,
    {
        PlayoutAggregate { wins: [0; PLAYER_COUNT], total_non_none: 0, total_vps: [0; PLAYER_COUNT], total_turns: 0, samples: 0 }
    }
}

/// Adding one result keeps every total within range.
pub open spec fn can_add(agg: PlayoutAggregate, result: PlayoutResult) -> bool {
    &&& agg.samples < u64::MAX
    &&& agg.total_turns + result.num_turns <= u64::MAX
    &&& (result.winner matches Some(w) ==> is_player(w) && agg.wins@[w as int] < u64::MAX && agg.total_non_none < u64::MAX)
    &&& forall|p: int| 0 <= p < PLAYER_COUNT ==> #[trigger] agg.total_vps@[p] + result.vps_by_player@[p] <= u64::MAX
}

/// Adding two aggregates keeps every total within range.
pub open spec fn can_join(a: PlayoutAggregate, b: PlayoutAggregate) -> bool {
    &&& a.samples + b.samples <= u64::MAX
    &&& a.total_turns + b.total_turns <= u64::MAX
    &&& a.total_non_none + b.total_non_none <= u64::MAX
    &&& forall|p: int| 0 <= p < PLAYER_COUNT ==> #[trigger] a.wins@[p] + b.wins@[p] <= u64::MAX
    &&& forall|p: int| 0 <= p < PLAYER_COUNT ==> #[trigger] a.total_vps@[p] + b.total_vps@[p] <= u64::MAX
}

/// The aggregate after one more result, as integers.
pub open spec fn added(agg: PlayoutAggregate, result: PlayoutResult, p: int) -> (int, int) {
    (
        agg.wins@[p] + if result.winner == Some(p as PlayerId) { 1int } else { 0 },
        agg.total_vps@[p] + result.vps_by_player@[p],
    )
}

/// The turns played over a run of results.
pub open spec fn run_turns(rs: Seq<PlayoutResult>) -> int
    decreases rs.len(),
{
    if rs.len() == 0 {
        0
    } else {
        run_turns(rs.drop_last()) + rs.last().num_turns
    }
}

/// The results of a run that have a winner.
pub open spec fn run_decided(rs: Seq<PlayoutResult>) -> int
    decreases rs.len(),
{
    if rs.len() == 0 {
        0
    } else {
        run_decided(rs.drop_last()) + if rs.last().winner is Some { 1int } else { 0 }
    }
}

/// The wins of player `p` over a run of results.
pub open spec fn run_wins(rs: Seq<PlayoutResult>, p: int) -> int
    decreases rs.len(),
{
    if rs.len() == 0 {
        0
    } else {
        run_wins(rs.drop_last(), p) + if rs.last().winner == Some(p as PlayerId) { 1int } else { 0 }
    }
}

/// The points of player `p` over a run of results.
pub open spec fn run_vps(rs: Seq<PlayoutResult>, p: int) -> int
    decreases rs.len(),
{
    if rs.len() == 0 {
        0
    } else {
        run_vps(rs.drop_last(), p) + rs.last().vps_by_player@[p]
    }
}

/// `agg` holds the totals of `base` with the results `rs` added.
pub open spec fn extends_by(agg: PlayoutAggregate, base: PlayoutAggregate, rs: Seq<PlayoutResult>) -> bool {
    &&& agg.samples == base.samples + rs.len()
    &&& agg.total_turns == base.total_turns + run_turns(rs)
    &&& agg.total_non_none == base.total_non_none + run_decided(rs)
    &&& forall|p: int| 0 <= p < PLAYER_COUNT ==> #[trigger] agg.wins@[p] == base.wins@[p] + run_wins(rs, p)
    &&& forall|p: int| 0 <= p < PLAYER_COUNT ==> #[trigger] agg.total_vps@[p] == base.total_vps@[p] + run_vps(rs, p)
}

/// Every total of `agg` is zero.
pub open spec fn is_empty_aggregate(agg: PlayoutAggregate) -> bool {
    &&& agg.samples == 0
    &&& agg.total_turns == 0
    &&& agg.total_non_none == 0
    &&& forall|p: int| 0 <= p < PLAYER_COUNT ==> #[trigger] agg.wins@[p] == 0 && agg.total_vps@[p] == 0
}

/// Every total of `merged` is the sum of those of `a` and `b`.
pub open spec fn sums(merged: PlayoutAggregate, a: PlayoutAggregate, b: PlayoutAggregate) -> bool {
    &&& merged.samples == a.samples + b.samples
    &&& merged.total_turns == a.total_turns + b.total_turns
    &&& merged.total_non_none == a.total_non_none + b.total_non_none
    &&& forall|p: int| 0 <= p < PLAYER_COUNT ==> #[trigger] merged.wins@[p] == a.wins@[p] + b.wins@[p]
    &&& forall|p: int| 0 <= p < PLAYER_COUNT ==> #[trigger] merged.total_vps@[p] == a.total_vps@[p] + b.total_vps@[p]
}

/// The totals of a run split in two are the sums of the totals of its parts.
pub proof fn lemma_run_totals_split(r1: Seq<PlayoutResult>, r2: Seq<PlayoutResult>)
    ensures
        run_turns(r1 + r2) == run_turns(r1) + run_turns(r2),
        run_decided(r1 + r2) == run_decided(r1) + run_decided(r2),
        forall|p: int| #[trigger] run_wins(r1 + r2, p) == run_wins(r1, p) + run_wins(r2, p),
        forall|p: int| #[trigger] run_vps(r1 + r2, p) == run_vps(r1, p) + run_vps(r2, p),
    decreases r2.len(),
{
    if r2.len() == 0 {
        assert(r1 + r2 =~= r1);
        assert forall|p: int| #[trigger] run_wins(r1 + r2, p) == run_wins(r1, p) + run_wins(r2, p) by {}
        assert forall|p: int| #[trigger] run_vps(r1 + r2, p) == run_vps(r1, p) + run_vps(r2, p) by {}
    } else {
        lemma_run_totals_split(r1, r2.drop_last());
        assert((r1 + r2).drop_last() =~= r1 + r2.drop_last());
        assert((r1 + r2).last() == r2.last());
        assert forall|p: int| #[trigger] run_wins(r1 + r2, p) == run_wins(r1, p) + run_wins(r2, p) by {
            assert(run_wins(r1 + r2.drop_last(), p) == run_wins(r1, p) + run_wins(r2.drop_last(), p));
        }
        assert forall|p: int| #[trigger] run_vps(r1 + r2, p) == run_vps(r1, p) + run_vps(r2, p) by {
            assert(run_vps(r1 + r2.drop_last(), p) == run_vps(r1, p) + run_vps(r2.drop_last(), p));
        }
    }
}

/// Adding a run and then another adds both runs, one after the other.
pub proof fn lemma_extends_by_chain(
    first: PlayoutAggregate,
    middle: PlayoutAggregate,
    last: PlayoutAggregate,
    r1: Seq<PlayoutResult>,
    r2: Seq<PlayoutResult>,
)
    requires
        extends_by(middle, first, r1),
        extends_by(last, middle, r2),
    ensures
        extends_by(last, first, r1 + r2),
{
    lemma_run_totals_split(r1, r2);
    assert forall|p: int| 0 <= p < PLAYER_COUNT implies #[trigger] last.wins@[p] == first.wins@[p] + run_wins(r1 + r2, p) by {
        assert(middle.wins@[p] == first.wins@[p] + run_wins(r1, p));
    }
    assert forall|p: int| 0 <= p < PLAYER_COUNT implies #[trigger] last.total_vps@[p] == first.total_vps@[p] + run_vps(r1 + r2, p) by {
        assert(middle.total_vps@[p] == first.total_vps@[p] + run_vps(r1, p));
    }
}

/// Merging the aggregates of two runs, each started from nothing, gives the aggregate of the two runs together:
/// splitting the playouts among workers does not change the totals.
pub proof fn lemma_merge_of_runs(
    a: PlayoutAggregate,
    b: PlayoutAggregate,
    merged: PlayoutAggregate,
    zero: PlayoutAggregate,
    r1: Seq<PlayoutResult>,
    r2: Seq<PlayoutResult>,
)
    requires
        is_empty_aggregate(zero),
        extends_by(a, zero, r1),
        extends_by(b, zero, r2),
        sums(merged, a, b),
    ensures
        extends_by(merged, zero, r1 + r2),
{
    lemma_run_totals_split(r1, r2);
    assert forall|p: int| 0 <= p < PLAYER_COUNT implies #[trigger] merged.wins@[p] == zero.wins@[p] + run_wins(r1 + r2, p) by {
        assert(a.wins@[p] == zero.wins@[p] + run_wins(r1, p));
        assert(b.wins@[p] == zero.wins@[p] + run_wins(r2, p));
    }
    assert forall|p: int| 0 <= p < PLAYER_COUNT implies #[trigger] merged.total_vps@[p] == zero.total_vps@[p] + run_vps(r1 + r2, p) by {
        assert(zero.wins@[p] == 0 && zero.total_vps@[p] == 0);
        assert(a.total_vps@[p] == zero.total_vps@[p] + run_vps(r1, p));
        assert(b.total_vps@[p] == zero.total_vps@[p] + run_vps(r2, p));
    }
}

impl PlayoutAggregate {
    pub fn update(&mut self, result: &PlayoutResult)
        requires
            can_add(*old(self), *result),
        ensures
            final(self).samples == old(self).samples + 1,
            final(self).total_turns == old(self).total_turns + result.num_turns,
            final(self).total_non_none == old(self).total_non_none + if result.winner is Some { 1int } else { 0 },
            forall|p: int|
                0 <= p < PLAYER_COUNT ==> (#[trigger] final(self).wins@[p] as int, final(self).total_vps@[p] as int) == added(
                    *old(self),
                    *result,
                    p,
                ),
            extends_by(*final(self), *old(self), seq![*result]),
    {
        self.samples = self.samples + 1;
        if let Some(winner) = result.winner {
            self.wins[winner as usize] = self.wins[winner as usize] + 1;
            self.total_non_none = self.total_non_none + 1;
        }
        let ghost counted = *self;
        let mut idx: usize = 0;
        while idx < PLAYER_COUNT
            invariant
                idx <= PLAYER_COUNT,
                self.samples == counted.samples,
                self.wins == counted.wins,
                self.total_non_none == counted.total_non_none,
                self.total_turns == counted.total_turns,
                forall|p: int| 0 <= p < PLAYER_COUNT ==> #[trigger] counted.total_vps@[p] + result.vps_by_player@[p] <= u64::MAX,
                forall|p: int| 0 <= p < PLAYER_COUNT ==> #[trigger] self.total_vps@[p] == counted.total_vps@[p] + if p < idx {
                    result.vps_by_player@[p] as int
                } else {
                    0
                },
            decreases PLAYER_COUNT - idx,
        {
            self.total_vps[idx] = self.total_vps[idx] + result.vps_by_player[idx] as u64;
            idx = idx + 1;
        }
        self.total_turns = self.total_turns + result.num_turns as u64;
        proof {
            let run = seq![*result];
            assert(run.drop_last() =~= Seq::<PlayoutResult>::empty());
            assert(run.last() == *result);
            assert(run.len() == 1);
            assert(run_turns(run.drop_last()) == 0);
            assert(run_turns(run) == result.num_turns);
            assert(run_decided(run.drop_last()) == 0);
            assert(run_decided(run) == if result.winner is Some { 1int } else { 0 });
            assert forall|p: int| 0 <= p < PLAYER_COUNT implies #[trigger] self.wins@[p] == old(self).wins@[p] + run_wins(run, p) by {
                assert(run_wins(run.drop_last(), p) == 0);
                assert(run_wins(run, p) == if result.winner == Some(p as PlayerId) { 1int } else { 0 });
            }
            assert forall|p: int| 0 <= p < PLAYER_COUNT implies #[trigger] self.total_vps@[p] == old(self).total_vps@[p] + run_vps(run, p) by {
                assert(run_vps(run.drop_last(), p) == 0);
                assert(run_vps(run, p) == result.vps_by_player@[p]);
            }
        }
    }

    pub fn merge(&mut self, other: &Self)
        requires
            can_join(*old(self), *other),
        ensures
            final(self).samples == old(self).samples + other.samples,
            final(self).total_turns == old(self).total_turns + other.total_turns,
            final(self).total_non_none == old(self).total_non_none + other.total_non_none,
            forall|p: int| 0 <= p < PLAYER_COUNT ==> #[trigger] final(self).wins@[p] == old(self).wins@[p] + other.wins@[p],
            forall|p: int| 0 <= p < PLAYER_COUNT ==> #[trigger] final(self).total_vps@[p] == old(self).total_vps@[p] + other.total_vps@[p],
            sums(*final(self), *old(self), *other),
    {
        self.total_non_none = self.total_non_none + other.total_non_none;
        self.total_turns = self.total_turns + other.total_turns;
        self.samples = self.samples + other.samples;
        let mut idx: usize = 0;
        while idx < PLAYER_COUNT
            invariant
                idx <= PLAYER_COUNT,
                self.total_non_none == old(self).total_non_none + other.total_non_none,
                self.total_turns == old(self).total_turns + other.total_turns,
                self.samples == old(self).samples + other.samples,
                forall|p: int| 0 <= p < PLAYER_COUNT ==> #[trigger] old(self).wins@[p] + other.wins@[p] <= u64::MAX,
                forall|p: int| 0 <= p < PLAYER_COUNT ==> #[trigger] old(self).total_vps@[p] + other.total_vps@[p] <= u64::MAX,
                forall|p: int| 0 <= p < PLAYER_COUNT ==> #[trigger] self.wins@[p] == old(self).wins@[p] + if p < idx {
                    other.wins@[p] as int
                } else {
                    0
                },
                forall|p: int| 0 <= p < PLAYER_COUNT ==> #[trigger] self.total_vps@[p] == old(self).total_vps@[p] + if p < idx {
                    other.total_vps@[p] as int
                } else {
                    0
                },
            decreases PLAYER_COUNT - idx,
        {
            self.wins[idx] = self.wins[idx] + other.wins[idx];
            self.total_vps[idx] = self.total_vps[idx] + other.total_vps[idx];
            idx = idx + 1;
        }
    }
}

/// The SplitMix64 finaliser of `x`.
pub open spec fn spec_splitmix64(x: u64) -> u64 {
    let x = x.wrapping_add(0x9E3779B97F4A7C15);
    let z = (x ^ (x >> 30u64)).wrapping_mul(0xBF58476D1CE4E5B9);
    let z = (z ^ (z >> 27u64)).wrapping_mul(0x94D049BB133111EB);
    z ^ (z >> 31u64)
}

pub fn splitmix64(x: u64) -> (out: u64)
    ensures
        out == spec_splitmix64(x),
{
    let x = x.wrapping_add(0x9E3779B97F4A7C15);
    let mut z = x;
    z = (z ^ (z >> 30)).wrapping_mul(0xBF58476D1CE4E5B9);
    z = (z ^ (z >> 27)).wrapping_mul(0x94D049BB133111EB);
    z ^ (z >> 31)
}

/// The seed of one pruning sample: the base seed mixed with both branch indices and the sample number.
pub open spec fn spec_stackelberg_seed(base_seed: u64, blue_idx: u64, red_idx: u64, t: u64) -> u64 {
    let x = base_seed ^ blue_idx.wrapping_mul(0x9E3779B97F4A7C15);
    let x = x ^ red_idx.wrapping_mul(0xBF58476D1CE4E5B9);
    let x = x ^ t.wrapping_mul(0x94D049BB133111EB);
    spec_splitmix64(x)
}

pub fn stackelberg_seed(base_seed: u64, blue_idx: usize, red_idx: usize, t: u64) -> (seed: u64)
    ensures
        seed == spec_stackelberg_seed(base_seed, blue_idx as u64, red_idx as u64, t),
{
    let mut x = base_seed ^ (blue_idx as u64).wrapping_mul(0x9E3779B97F4A7C15);
    x = x ^ (red_idx as u64).wrapping_mul(0xBF58476D1CE4E5B9);
    x = x ^ t.wrapping_mul(0x94D049BB133111EB);
    splitmix64(x)
}

/// The position of a resource in the listing order: lumber, brick, wool, grain, ore.
pub open spec fn spec_python_resource_index(resource: Resource) -> int {
    match resource {
        Resource::Lumber => 0,
        Resource::Brick => 1,
        Resource::Wool => 2,
        Resource::Grain => 3,
        Resource::Ore => 4,
    }
}

/// The position of a resource in the listing order: lumber, brick, wool, grain, ore.
pub fn python_resource_index(resource: Resource) -> (index: usize)
    ensures
        index == spec_python_resource_index(resource),
{
    match resource {
        Resource::Lumber => 0,
        Resource::Brick => 1,
        Resource::Wool => 2,
        Resource::Grain => 3,
        Resource::Ore => 4,
    }
}

/// The number of the 36 dice outcomes that roll `number`.
pub fn pip_count(number: u8) -> (pips: u8)
    ensures
        pips == spec_pip_value(number),
{
    pip_value(number)
}

/// The pips of listing index `i` that the tile in slot `k` of `node` gives.
pub open spec fn slot_pips(board: Board, node: int, k: int, i: int) -> int {
    let t = board.node_tiles@[node]@[k];
    if t == INVALID_TILE {
        0
    } else {
        match (board.tile_resources@[t as int], board.tile_numbers@[t as int]) {
            (Some(r), Some(n)) => if spec_python_resource_index(r) == i {
                spec_pip_value(n) as int
            } else {
                0
            },
            _ => 0,
        }
    }
}

/// The pips of listing index `i` that a settlement on `node` collects.
pub open spec fn spec_settlement_pips(board: Board, node: int, i: int) -> int {
    slot_pips(board, node, 0, i) + slot_pips(board, node, 1, i) + slot_pips(board, node, 2, i)
}

/// The pips of each resource, in listing order, that a settlement on `node` collects.
pub fn settlement_pips(board: &Board, node: NodeId) -> (pips: [u32; RESOURCE_COUNT])
    requires
        board.wf(),
        (node as int) < NODE_COUNT,
    ensures
        forall|i: int| 0 <= i < RESOURCE_COUNT ==> #[trigger] pips@[i] == spec_settlement_pips(*board, node as int, i),
{
    let mut pips = [0u32; RESOURCE_COUNT];
    let tiles = board.node_tiles[node as usize];
    let mut k: usize = 0;
    while k < 3
        invariant
            k <= 3,
            board.wf(),
            (node as int) < NODE_COUNT,
            tiles == board.node_tiles@[node as int],
            forall|i: int|
                0 <= i < RESOURCE_COUNT ==> #[trigger] pips@[i] == (if k > 0 { slot_pips(*board, node as int, 0, i) } else { 0 })
                    + (if k > 1 { slot_pips(*board, node as int, 1, i) } else { 0 }) + (if k > 2 {
                    slot_pips(*board, node as int, 2, i)
                } else {
                    0
                }),
        decreases 3 - k,
    {
        let tile = tiles[k];
        if tile != INVALID_TILE {
            if let Some(resource) = board.tile_resources[tile as usize] {
                if let Some(number) = board.tile_numbers[tile as usize] {
                    let pip = pip_count(number) as u32;
                    if pip != 0 {
                        let idx = python_resource_index(resource);
                        pips[idx] = pips[idx] + pip;
                    }
                }
            }
        }
        k = k + 1;
    }
    pips
}

/// The pips, of all resources together, that a settlement on `node` collects.
pub fn settlement_total_pips(board: &Board, node: NodeId) -> (total: u32)
    requires
        board.wf(),
        (node as int) < NODE_COUNT,
    ensures
        total == spec_settlement_pips(*board, node as int, 0) + spec_settlement_pips(*board, node as int, 1)
            + spec_settlement_pips(*board, node as int, 2) + spec_settlement_pips(*board, node as int, 3)
            + spec_settlement_pips(*board, node as int, 4),
{
    let pips = settlement_pips(board, node);
    pips[0] + pips[1] + pips[2] + pips[3] + pips[4]
}

/// The number of times a building counts: once for a settlement, twice for a city.
pub open spec fn level_multiplier(level: BuildingLevel) -> int {
    match level {
        BuildingLevel::Settlement => 1,
        BuildingLevel::City => 2,
        BuildingLevel::Empty => 0,
    }
}

/// The pips of listing index `i` that `player`'s buildings on the first `n` nodes collect.
pub open spec fn color_pips_upto(board: Board, s: State, player: PlayerId, n: int, i: int) -> int
    decreases n,
{
    if n <= 0 {
        0
    } else {
        color_pips_upto(board, s, player, n - 1, i) + if s.node_owner@[n - 1] == player {
            level_multiplier(s.node_level@[n - 1]) * spec_settlement_pips(board, n - 1, i)
        } else {
            0
        }
    }
}

proof fn lemma_settlement_pips_bound(board: Board, node: int, i: int)
    ensures
        0 <= spec_settlement_pips(board, node, i) <= 15,
{
}

proof fn lemma_color_pips_bound(board: Board, s: State, player: PlayerId, n: int, i: int)
    requires
        0 <= n,
    ensures
        0 <= color_pips_upto(board, s, player, n, i) <= 30 * n,
    decreases n,
{
    if n > 0 {
        lemma_color_pips_bound(board, s, player, n - 1, i);
        lemma_settlement_pips_bound(board, n - 1, i);
    }
}

/// The pips of each resource, in listing order, that `player`'s buildings collect; a city counts twice.
pub fn color_resource_pips(board: &Board, state: &State, player: PlayerId) -> (pips: [u32; RESOURCE_COUNT])
    requires
        board.wf(),
    ensures
        forall|i: int| 0 <= i < RESOURCE_COUNT ==> #[trigger] pips@[i] == color_pips_upto(*board, *state, player, NODE_COUNT as int, i),
{
    let mut pips = [0u32; RESOURCE_COUNT];
    let mut node: usize = 0;
    while node < NODE_COUNT
        invariant
            node <= NODE_COUNT,
            board.wf(),
            forall|i: int| 0 <= i < RESOURCE_COUNT ==> #[trigger] pips@[i] == color_pips_upto(*board, *state, player, node as int, i),
        decreases NODE_COUNT - node,
    {
        if state.node_owner[node] == player {
            let multiplier: u32 = match state.node_level[node] {
                BuildingLevel::Settlement => 1,
                BuildingLevel::City => 2,
                BuildingLevel::Empty => 0,
            };
            if multiplier != 0 {
                let node_pips = settlement_pips(board, node as NodeId);
                let mut idx: usize = 0;
                while idx < RESOURCE_COUNT
                    invariant
                        idx <= RESOURCE_COUNT,
                        node < NODE_COUNT,
                        state.node_owner@[node as int] == player,
                        multiplier == level_multiplier(state.node_level@[node as int]),
                        forall|i: int| 0 <= i < RESOURCE_COUNT ==> #[trigger] node_pips@[i] == spec_settlement_pips(*board, node as int, i),
                        forall|i: int|
                            0 <= i < RESOURCE_COUNT ==> #[trigger] pips@[i] == color_pips_upto(*board, *state, player, node as int, i)
                                + if i < idx { multiplier * node_pips@[i] } else { 0 },
                    decreases RESOURCE_COUNT - idx,
                {
                    proof {
                        lemma_color_pips_bound(*board, *state, player, node as int, idx as int);
                        lemma_settlement_pips_bound(*board, node as int, idx as int);
                    }
                    pips[idx] = pips[idx] + node_pips[idx] * multiplier;
                    idx = idx + 1;
                }
            }
        }
        proof {
            assert forall|i: int| 0 <= i < RESOURCE_COUNT implies #[trigger] pips@[i] == color_pips_upto(
                *board,
                *state,
                player,
                node + 1,
                i,
            ) by {
                assert(color_pips_upto(*board, *state, player, node + 1, i) == color_pips_upto(*board, *state, player, node as int, i)
                    + if state.node_owner@[node as int] == player {
                    level_multiplier(state.node_level@[node as int]) * spec_settlement_pips(*board, node as int, i)
                } else {
                    0
                });
            }
        }
        node = node + 1;
    }
    pips
}

/// Edge `e` joins nodes `a` and `b`, in either direction.
pub open spec fn joins(board: Board, e: int, a: NodeId, b: NodeId) -> bool {
    let n = board.edge_nodes@[e];
    (n@[0] == a && n@[1] == b) || (n@[0] == b && n@[1] == a)
}

/// The first edge that joins nodes `a` and `b`, if any.
pub fn edge_id_for_nodes(board: &Board, a: NodeId, b: NodeId) -> (edge: Option<EdgeId>)
    ensures
        match edge {
            Some(e) => (e as int) < EDGE_COUNT && joins(*board, e as int, a, b) && forall|f: int|
                0 <= f < e ==> !#[trigger] joins(*board, f, a, b),
            None => forall|f: int| 0 <= f < EDGE_COUNT ==> !#[trigger] joins(*board, f, a, b),
        },
{
    let mut idx: usize = 0;
    while idx < EDGE_COUNT
        invariant
            idx <= EDGE_COUNT,
            forall|f: int| 0 <= f < idx ==> !#[trigger] joins(*board, f, a, b),
        decreases EDGE_COUNT - idx,
    {
        let nodes = board.edge_nodes[idx];
        if (nodes[0] == a && nodes[1] == b) || (nodes[0] == b && nodes[1] == a) {
            return Some(idx as EdgeId);
        }
        idx = idx + 1;
    }
    None
}

/// The two nodes of `edge`, lower one first.
pub fn branch_edge(board: &Board, edge: EdgeId) -> (nodes: (NodeId, NodeId))
    requires
        (edge as int) < EDGE_COUNT,
    ensures
        nodes.0 <= nodes.1,
        joins(*board, edge as int, nodes.0, nodes.1),
{
    let nodes = board.edge_nodes[edge as usize];
    if nodes[0] <= nodes[1] {
        (nodes[0], nodes[1])
    } else {
        (nodes[1], nodes[0])
    }
}

/// The state with `player` to place an opening settlement.
pub open spec fn primed_for_settlement(s: State, player: PlayerId) -> State {
    State {
        active_player: player,
        turn_player: player,
        is_initial_build_phase: true,
        current_prompt: ActionPrompt::BuildInitialSettlement,
        ..s
    }
}

/// Puts `player` to place an opening settlement.
pub fn prime_initial_settlement_state(state: &mut State, player: PlayerId)
    ensures
        *final(state) == primed_for_settlement(*old(state), player),
{
    state.active_player = player;
    state.turn_player = player;
    state.is_initial_build_phase = true;
    state.current_prompt = ActionPrompt::BuildInitialSettlement;
}

/// The action builds a settlement.
pub open spec fn is_settlement_action(action: ValueAction) -> bool {
    action.kind is BuildSettlement
}

/// The settlements among the actions that `player` may take now, in the order they are offered.
pub fn list_settlement_actions(board: &Board, state: &State, player: PlayerId) -> (actions: Vec<ValueAction>)
    requires
        board.wf(),
        state.wf(),
        is_player(player),
    ensures
        actions@ == playable_actions(*board, *state, player).filter(|a: ValueAction| is_settlement_action(a)),
{
    let all = generate_playable_actions(board, state, player);
    let ghost pred = |a: ValueAction| is_settlement_action(a);
    let mut out: Vec<ValueAction> = Vec::new();
    let mut i: usize = 0;
    while i < all.len()
        invariant
            i <= all@.len(),
            pred == (|a: ValueAction| is_settlement_action(a)),
            out@ == all@.take(i as int).filter(pred),
        decreases all@.len() - i,
    {
        let action = all[i];
        if matches!(action.kind, ValueActionKind::BuildSettlement(_)) {
            out.push(action);
        }
        proof {
            assert(all@.take(i + 1).drop_last() =~= all@.take(i as int));
            assert(all@.take(i + 1).last() == action);
            reveal_with_fuel(Seq::filter, 1);
        }
        i = i + 1;
    }
    proof {
        assert(all@.take(all@.len() as int) =~= all@);
    }
    out
}

/// A sequence whose every entry satisfies `pred` is its own filter.
proof fn lemma_filter_all<A>(s: Seq<A>, pred: spec_fn(A) -> bool)
    requires
        forall|i: int| 0 <= i < s.len() ==> pred(#[trigger] s[i]),
    ensures
        s.filter(pred) == s,
    decreases s.len(),
{
    reveal_with_fuel(Seq::filter, 1);
    if s.len() > 0 {
        assert forall|i: int| 0 <= i < s.drop_last().len() implies pred(#[trigger] s.drop_last()[i]) by {
            assert(s.drop_last()[i] == s[i]);
        }
        lemma_filter_all(s.drop_last(), pred);
        assert(pred(s[s.len() - 1]));
        assert(s.drop_last().push(s.last()) =~= s);
    }
}

/// Every action of the list builds a settlement, and it builds one on a node `x` exactly when `x` is below `n`
/// and satisfies `pred`.
proof fn lemma_settlement_actions_where(player: PlayerId, n: int, pred: spec_fn(int) -> bool, x: NodeId)
    requires
        0 <= n <= NODE_COUNT,
    ensures
        forall|i: int|
            0 <= i < actions_where(player, n, pred, settlement_kind()).len() ==> is_settlement_action(
                #[trigger] actions_where(player, n, pred, settlement_kind())[i],
            ),
        (exists|i: int|
            0 <= i < actions_where(player, n, pred, settlement_kind()).len() && #[trigger] actions_where(
                player,
                n,
                pred,
                settlement_kind(),
            )[i].kind == ValueActionKind::BuildSettlement(x)) <==> ((x as int) < n && pred(x as int)),
    decreases n,
{
    let s = actions_where(player, n, pred, settlement_kind());
    if n > 0 {
        lemma_settlement_actions_where(player, n - 1, pred, x);
        let before = actions_where(player, n - 1, pred, settlement_kind());
        if pred(n - 1) {
            let last = ValueAction { player, kind: ValueActionKind::BuildSettlement((n - 1) as NodeId) };
            assert(s == before.push(last));
            assert forall|i: int| 0 <= i < s.len() implies is_settlement_action(#[trigger] s[i]) by {
                if i < before.len() {
                    assert(s[i] == before[i]);
                }
            }
            if (x as int) < n && pred(x as int) {
                if x as int == n - 1 {
                    assert(s[s.len() - 1].kind == ValueActionKind::BuildSettlement(x));
                } else {
                    let i = choose|i: int| 0 <= i < before.len() && #[trigger] before[i].kind == ValueActionKind::BuildSettlement(x);
                    assert(s[i] == before[i]);
                }
            }
            if exists|i: int| 0 <= i < s.len() && #[trigger] s[i].kind == ValueActionKind::BuildSettlement(x) {
                let i = choose|i: int| 0 <= i < s.len() && #[trigger] s[i].kind == ValueActionKind::BuildSettlement(x);
                if i < before.len() {
                    assert(s[i] == before[i]);
                    assert(before[i].kind == ValueActionKind::BuildSettlement(x));
                } else {
                    assert(s[i] == last);
                }
            }
        }
    }
}

/// Whether an opening settlement may go on a node reads only who owns each node.
proof fn lemma_settlement_allowed_reads_owners(board: Board, a: State, b: State, node: NodeId)
    requires
        a.node_owner == b.node_owner,
    ensures
        initial_settlement_allowed(board, a, node) == initial_settlement_allowed(board, b, node),
{
    assert(crate::rules::adjacent_occupied(board, a, node) == crate::rules::adjacent_occupied(board, b, node));
}

/// Whether `player` may place an opening settlement on `second` after placing one on `first`, starting from the
/// given position; the generator at `seed` supplies anything left to chance.
pub fn is_settlement_pair_legal(
    board: &Board,
    base_state: &State,
    base_road: RoadState,
    base_army: ArmyState,
    seed: u64,
    player: PlayerId,
    first: NodeId,
    second: NodeId,
) -> (legal: bool)
    requires
        board.wf(),
        step_ready(*base_state),
        base_road.wf(),
        base_army.wf(),
        is_player(player),
        (first as int) < NODE_COUNT,
    ensures
        legal == initial_settlement_allowed(
            *board,
            base_state.with_building(first as int, player, BuildingLevel::Settlement),
            second,
        ),
{
    let mut state = *base_state;
    let mut road_state = base_road;
    let mut army_state = base_army;
    prime_initial_settlement_state(&mut state, player);
    let ghost primed = state;
    proof {
        let b = *base_state;
        assert(primed.player_resources == b.player_resources);
        assert(primed.bank_resources == b.bank_resources);
        assert forall|r: int| 0 <= r < RESOURCE_COUNT implies #[trigger] crate::engine::resource_total(primed, r)
            == crate::engine::resource_total(b, r) by {}
        assert(crate::engine::resources_bounded(primed));
        assert(crate::game::hands_fit(primed));
        assert(crate::engine::dev_counts_below_max(primed));
        assert(crate::robber::dev_hands_small(primed));
        assert(crate::roads::components_have_room(primed));
        assert(crate::game::trade_ok(primed));
        assert(primed.wf());
    }
    let mut rng = crate::rng::rng_for_stream(seed, 0);
    let action = ValueAction { player, kind: ValueActionKind::BuildSettlement(first) };
    apply_value_action(board, &mut state, &mut road_state, &mut army_state, &action, &mut rng);
    let ghost placed_state = state;
    proof {
        assert(crate::building::opening_settlement_done(*board, placed_state, primed, first));
        let placed = choose|placed: State|
            crate::building::opening_settlement_placed(placed, primed, first) && placed_state
                == crate::building::opening_finish(*board, placed, primed, first);
        reveal(crate::building::opening_finish);
        assert(placed_state.node_owner == placed.node_owner);
        assert(placed.node_owner == base_state.with_building(first as int, player, BuildingLevel::Settlement).node_owner);
    }
    prime_initial_settlement_state(&mut state, player);
    let actions = list_settlement_actions(board, &state, player);
    proof {
        let pred = opening_settlement_pred(*board, state);
        lemma_settlement_actions_where(player, NODE_COUNT as int, pred, second);
        lemma_filter_all(actions_where(player, NODE_COUNT as int, pred, settlement_kind()), |a: ValueAction| is_settlement_action(a));
        assert(actions@ == actions_where(player, NODE_COUNT as int, pred, settlement_kind()));
    }
    proof {
        lemma_settlement_allowed_reads_owners(
            *board,
            state,
            base_state.with_building(first as int, player, BuildingLevel::Settlement),
            second,
        );
    }
    let mut i: usize = 0;
    while i < actions.len()
        invariant
            i <= actions@.len(),
            forall|j: int| 0 <= j < i ==> #[trigger] actions@[j].kind != ValueActionKind::BuildSettlement(second),
            (exists|j: int| 0 <= j < actions@.len() && #[trigger] actions@[j].kind == ValueActionKind::BuildSettlement(second))
                ==> initial_settlement_allowed(
                *board,
                base_state.with_building(first as int, player, BuildingLevel::Settlement),
                second,
            ),
        decreases actions@.len() - i,
    {
        match actions[i].kind {
            ValueActionKind::BuildSettlement(node) => {
                if node == second {
                    proof {
                        assert(actions@[i as int].kind == ValueActionKind::BuildSettlement(second));
                    }
                    return true;
                }
            },
            _ => {},
        }
        i = i + 1;
    }
    false
}

} // verus!
