use vstd::prelude::*;

use crate::board::Board;
use crate::building::{
    city_built, opening_draws, opening_road_done, opening_settlement_done, opening_settlement_placed, road_built,
    settlement_built, tile_draw,
};
use crate::engine::{bank_draw, cost_paid, hand_at, totals_kept, ArmyState, RoadState};
use crate::game::step_ready;
use crate::rules::{building_count, CITY_COST, ROAD_COST, SETTLEMENT_COST};
use crate::delta::Delta;
use crate::rng::Pcg64;
use crate::state::{
    is_player, records_in_range, undo_bank, undo_buildings, undo_hands, undo_roads, undone, DevDeck, RoadComponents,
    State,
};
use vstd::array::spec_array_update;
use crate::types::{
    resource_at, resource_index, ActionPrompt, Resource, BuildingLevel, EdgeId, NodeId, PlayerId, TileId, TurnPhase, DEV_CARD_COUNT,
    EDGE_COUNT, INVALID_NODE, INVALID_TILE, NODE_COUNT, NO_PLAYER, PLAYER_COUNT, RESOURCE_COUNT,
};
use crate::value_player::{
    action_is_non_structural, apply_value_action_kernel, free_road_tally, opening_road_turn, opening_settlement_turn, rng_after_action,
    value_action_applicable, value_action_done, ValueAction, ValueActionKind,
};

verus! {

/// The roads, buildings and road networks are as they were.
pub open spec fn board_pieces_kept(new: State, old: State) -> bool {
    &&& new.edge_owner == old.edge_owner
    &&& new.node_owner == old.node_owner
    &&& new.node_level == old.node_level
    &&& new.road_components == old.road_components
}

proof fn lemma_non_structural_keeps_pieces(
    board: Board,
    new: State,
    old: State,
    new_roads: RoadState,
    old_roads: RoadState,
    new_army: ArmyState,
    old_army: ArmyState,
    action: ValueAction,
    rng_state: u128,
    increment: u128,
)
    requires
        step_ready(old),
        value_action_done(board, new, old, new_roads, old_roads, new_army, old_army, action, rng_state, increment),
        !(action.kind is BuildSettlement || action.kind is BuildCity || action.kind is BuildRoad),
    ensures
        board_pieces_kept(new, old),
{
}

/// Only what a build records for its undo has changed: the buildings, the roads, the hands, the bank, the road
/// networks, the prompt, the turn and its flags, the free roads, the turn count and the opening settlements.
pub open spec fn build_frame(new: State, old: State) -> bool {
    new == (State {
        node_owner: new.node_owner,
        node_level: new.node_level,
        edge_owner: new.edge_owner,
        player_resources: new.player_resources,
        bank_resources: new.bank_resources,
        road_components: new.road_components,
        current_prompt: new.current_prompt,
        turn_phase: new.turn_phase,
        active_player: new.active_player,
        turn_player: new.turn_player,
        is_initial_build_phase: new.is_initial_build_phase,
        is_discarding: new.is_discarding,
        is_moving_robber: new.is_moving_robber,
        is_road_building: new.is_road_building,
        is_resolving_trade: new.is_resolving_trade,
        free_roads_available: new.free_roads_available,
        num_turns: new.num_turns,
        last_initial_settlement: new.last_initial_settlement,
        ..old
    })
}

/// Every hand but `player`'s is as it was.
pub open spec fn other_hands_kept(new: State, old: State, player: int) -> bool {
    forall|p: int| 0 <= p < PLAYER_COUNT && p != player ==> #[trigger] new.player_resources@[p] == old.player_resources@[p]
}

proof fn lemma_paid_keeps_other_hands(paid: State, old: State, player: int, cost: [u8; RESOURCE_COUNT])
    requires
        cost_paid(paid, old, player, cost),
    ensures
        other_hands_kept(paid, old, player),
{
    assert forall|p: int| 0 <= p < PLAYER_COUNT && p != player implies #[trigger] paid.player_resources@[p] == old.player_resources@[p] by {
        assert forall|r: int| 0 <= r < RESOURCE_COUNT implies paid.player_resources@[p]@[r] == old.player_resources@[p]@[r] by {
            assert(hand_at(paid, p, r) == hand_at(old, p, r));
        }
        assert(paid.player_resources@[p] =~= old.player_resources@[p]);
    }
}

proof fn lemma_city_frame(new: State, old: State, player: PlayerId, n: NodeId)
    requires
        city_built(new, old, player, n),
        (n as int) < NODE_COUNT,
    ensures
        build_frame(new, old),
        other_hands_kept(new, old, player as int),
        new.road_components == old.road_components,
        new.edge_owner == old.edge_owner,
        forall|i: int| 0 <= i < NODE_COUNT && i != n ==> #[trigger] new.node_owner@[i] == old.node_owner@[i] && new.node_level@[i] == old.node_level@[i],
{
    let paid = State { player_resources: new.player_resources, bank_resources: new.bank_resources, ..old };
    lemma_paid_keeps_other_hands(paid, old, player as int, CITY_COST);
}

/// Edges other than `e` keep their owners.
pub open spec fn other_edges_kept(new: State, old: State, e: int) -> bool {
    forall|i: int| 0 <= i < EDGE_COUNT && i != e ==> #[trigger] new.edge_owner@[i] == old.edge_owner@[i]
}

/// Nodes other than `n` keep their buildings.
pub open spec fn other_nodes_kept(new: State, old: State, n: int) -> bool {
    forall|i: int|
        #![trigger new.node_owner@[i]]
        #![trigger new.node_level@[i]]
        0 <= i < NODE_COUNT && i != n ==> new.node_owner@[i] == old.node_owner@[i] && new.node_level@[i] == old.node_level@[i]
}

proof fn lemma_settlement_frame(board: Board, new: State, old: State, nr: RoadState, or: RoadState, player: PlayerId, n: NodeId)
    requires
        settlement_built(board, new, old, nr, or, player, n),
        (n as int) < NODE_COUNT,
    ensures
        build_frame(new, old),
        other_hands_kept(new, old, player as int),
        new.edge_owner == old.edge_owner,
        other_nodes_kept(new, old, n as int),
{
    let paid = State { player_resources: new.player_resources, bank_resources: new.bank_resources, ..old };
    lemma_paid_keeps_other_hands(paid, old, player as int, SETTLEMENT_COST);
}

proof fn lemma_bank_draw_frame(s: State, player: int, r: int)
    requires
        0 <= player < PLAYER_COUNT,
        0 <= r < RESOURCE_COUNT,
    ensures
        bank_draw(s, player, r) == (State {
            player_resources: bank_draw(s, player, r).player_resources,
            bank_resources: bank_draw(s, player, r).bank_resources,
            ..s
        }),
        other_hands_kept(bank_draw(s, player, r), s, player),
{
}

proof fn lemma_tile_draw_frame(board: Board, s: State, player: int, node: NodeId, k: int)
    requires
        0 <= player < PLAYER_COUNT,
    ensures
        tile_draw(board, s, player, node, k) == (State {
            player_resources: tile_draw(board, s, player, node, k).player_resources,
            bank_resources: tile_draw(board, s, player, node, k).bank_resources,
            ..s
        }),
        other_hands_kept(tile_draw(board, s, player, node, k), s, player),
{
    let t = board.node_tiles@[node as int]@[k];
    if t != INVALID_TILE {
        if let Some(res) = board.tile_resources@[t as int] {
            lemma_bank_draw_frame(s, player, resource_index(res));
        }
    }
}

proof fn lemma_opening_settlement_frame(board: Board, new: State, old: State, n: NodeId)
    requires
        opening_settlement_done(board, new, old, n),
        (n as int) < NODE_COUNT,
        is_player(old.active_player),
    ensures
        build_frame(new, old),
        other_hands_kept(new, old, old.active_player as int),
        new.edge_owner == old.edge_owner,
        other_nodes_kept(new, old, n as int),
{
    let player = old.active_player as int;
    let placed = choose|placed: State|
        opening_settlement_placed(placed, old, n) && new == crate::building::opening_finish(board, placed, old, n);
    reveal(crate::building::opening_finish);
    let d0 = tile_draw(board, placed, player, n, 0);
    let d1 = tile_draw(board, d0, player, n, 1);
    let d2 = tile_draw(board, d1, player, n, 2);
    lemma_tile_draw_frame(board, placed, player, n, 0);
    lemma_tile_draw_frame(board, d0, player, n, 1);
    lemma_tile_draw_frame(board, d1, player, n, 2);
    assert(other_hands_kept(placed, old, player));
}

proof fn lemma_road_frame(board: Board, new: State, old: State, nr: RoadState, or: RoadState, player: PlayerId, e: EdgeId, free: bool)
    requires
        road_built(board, new, old, nr, or, player, e, free),
        (e as int) < EDGE_COUNT,
    ensures
        build_frame(new, old),
        other_hands_kept(new, old, player as int),
        new.node_owner == old.node_owner,
        new.node_level == old.node_level,
        other_edges_kept(new, old, e as int),
{
    let paid = State { player_resources: new.player_resources, bank_resources: new.bank_resources, ..old };
    if !free {
        lemma_paid_keeps_other_hands(paid, old, player as int, ROAD_COST);
    }
}

proof fn lemma_opening_road_frame(board: Board, new: State, old: State, nr: RoadState, or: RoadState, e: EdgeId)
    requires
        opening_road_done(board, new, old, nr, or, e),
        (e as int) < EDGE_COUNT,
    ensures
        build_frame(new, old),
        new.player_resources == old.player_resources,
        new.bank_resources == old.bank_resources,
        new.node_owner == old.node_owner,
        new.node_level == old.node_level,
        other_edges_kept(new, old, e as int),
{
}

/// The flags of the prompt that a decision can change.
#[derive(Copy, Clone, Debug)]
pub struct DecisionFlagsSnapshot {
    pub is_initial_build_phase: bool,
    pub is_discarding: bool,
    pub is_moving_robber: bool,
    pub is_road_building: bool,
    pub is_resolving_trade: bool,
}

/// The prompt flags of `s`.
pub open spec fn flags_of(s: State) -> DecisionFlagsSnapshot {
    DecisionFlagsSnapshot {
        is_initial_build_phase: s.is_initial_build_phase,
        is_discarding: s.is_discarding,
        is_moving_robber: s.is_moving_robber,
        is_road_building: s.is_road_building,
        is_resolving_trade: s.is_resolving_trade,
    }
}

/// `s` with its prompt flags taken from `f`.
pub open spec fn with_flags(s: State, f: DecisionFlagsSnapshot) -> State {
    State {
        is_initial_build_phase: f.is_initial_build_phase,
        is_discarding: f.is_discarding,
        is_moving_robber: f.is_moving_robber,
        is_road_building: f.is_road_building,
        is_resolving_trade: f.is_resolving_trade,
        ..s
    }
}

fn snapshot_flags(state: &State) -> (flags: DecisionFlagsSnapshot)
    ensures
        flags == flags_of(*state),
{
    DecisionFlagsSnapshot {
        is_initial_build_phase: state.is_initial_build_phase,
        is_discarding: state.is_discarding,
        is_moving_robber: state.is_moving_robber,
        is_road_building: state.is_road_building,
        is_resolving_trade: state.is_resolving_trade,
    }
}

fn restore_flags(state: &mut State, flags: DecisionFlagsSnapshot)
    ensures
        *final(state) == with_flags(*old(state), flags),
{
    state.is_initial_build_phase = flags.is_initial_build_phase;
    state.is_discarding = flags.is_discarding;
    state.is_moving_robber = flags.is_moving_robber;
    state.is_road_building = flags.is_road_building;
    state.is_resolving_trade = flags.is_resolving_trade;
}

/// The kinds of build that the lightweight record can undo.
#[derive(Copy, Clone, Debug, PartialEq, Eq, Structural)]
enum LightweightActionKind {
    BuildSettlement,
    BuildCity,
    BuildRoad,
}

/// What a build overwrites: the builder's hand, the bank, the built node or edge, the road networks and
/// standing, and the turn's prompt, flags and counters.
#[derive(Copy, Clone, Debug)]
struct LightweightDecisionDelta {
    player: PlayerId,
    prev_prompt: ActionPrompt,
    prev_turn_phase: TurnPhase,
    prev_active_player: PlayerId,
    prev_turn_player: PlayerId,
    prev_flags: DecisionFlagsSnapshot,
    prev_free_roads_available: u8,
    prev_num_turns: u32,
    prev_last_initial_settlement: [NodeId; PLAYER_COUNT],
    prev_player_resources: [u8; RESOURCE_COUNT],
    prev_bank_resources: [u8; RESOURCE_COUNT],
    prev_road_state: RoadState,
    prev_node: Option<(NodeId, PlayerId, BuildingLevel)>,
    prev_edge: Option<(EdgeId, PlayerId)>,
    restore_road_components: bool,
    prev_road_components: [RoadComponents; PLAYER_COUNT],
}

/// The action is a build of a settlement, a city or a road.
pub open spec fn is_build(action: ValueAction) -> bool {
    action.kind is BuildSettlement || action.kind is BuildCity || action.kind is BuildRoad
}

impl LightweightDecisionDelta {
    fn new() -> (delta: Self)
        ensures
            delta.in_range(),
    {
        let components = RoadComponents::new();
        Self {
            player: 0,
            prev_prompt: ActionPrompt::PlayTurn,
            prev_turn_phase: TurnPhase::Setup,
            prev_active_player: 0,
            prev_turn_player: 0,
            prev_flags: DecisionFlagsSnapshot {
                is_initial_build_phase: false,
                is_discarding: false,
                is_moving_robber: false,
                is_road_building: false,
                is_resolving_trade: false,
            },
            prev_free_roads_available: 0,
            prev_num_turns: 0,
            prev_last_initial_settlement: [INVALID_NODE; PLAYER_COUNT],
            prev_player_resources: [0; RESOURCE_COUNT],
            prev_bank_resources: [0; RESOURCE_COUNT],
            prev_road_state: RoadState::empty(),
            prev_node: None,
            prev_edge: None,
            restore_road_components: false,
            prev_road_components: [components; PLAYER_COUNT],
        }
    }

    /// The recorded player, node and edge exist.
    closed spec fn in_range(&self) -> bool {
        &&& is_player(self.player)
        &&& self.prev_node matches Some(n) ==> (n.0 as int) < NODE_COUNT
        &&& self.prev_edge matches Some(e) ==> (e.0 as int) < EDGE_COUNT
    }

    /// The record holds what building `action` on `s`, with the standing `roads`, overwrites.
    closed spec fn captures(&self, s: State, roads: RoadState, action: ValueAction) -> bool {
        &&& self.player == action.player
        &&& self.prev_prompt == s.current_prompt
        &&& self.prev_turn_phase == s.turn_phase
        &&& self.prev_active_player == s.active_player
        &&& self.prev_turn_player == s.turn_player
        &&& self.prev_flags == flags_of(s)
        &&& self.prev_free_roads_available == s.free_roads_available
        &&& self.prev_num_turns == s.num_turns
        &&& self.prev_last_initial_settlement == s.last_initial_settlement
        &&& self.prev_player_resources == s.player_resources@[action.player as int]
        &&& self.prev_bank_resources == s.bank_resources
        &&& self.prev_road_state == roads
        &&& self.prev_node == match action.kind {
            ValueActionKind::BuildSettlement(n) | ValueActionKind::BuildCity(n) => Some(
                (n, s.node_owner@[n as int], s.node_level@[n as int]),
            ),
            _ => None,
        }
        &&& self.prev_edge == match action.kind {
            ValueActionKind::BuildRoad(e) => Some((e, s.edge_owner@[e as int])),
            _ => None,
        }
        &&& self.restore_road_components == (action.kind is BuildSettlement || action.kind is BuildRoad)
        &&& self.restore_road_components ==> self.prev_road_components == s.road_components
    }

    /// `s` with what the record holds written back.
    closed spec fn restored(&self, s: State) -> State {
        let nodes = match self.prev_node {
            Some((n, owner, level)) => s.with_building(n as int, owner, level),
            None => s,
        };
        let edges = match self.prev_edge {
            Some((e, owner)) => nodes.with_edge_owner(e as int, owner),
            None => nodes,
        };
        with_flags(
            State {
                player_resources: spec_array_update(edges.player_resources, self.player as int, self.prev_player_resources),
                bank_resources: self.prev_bank_resources,
                road_components: if self.restore_road_components {
                    self.prev_road_components
                } else {
                    edges.road_components
                },
                current_prompt: self.prev_prompt,
                turn_phase: self.prev_turn_phase,
                active_player: self.prev_active_player,
                turn_player: self.prev_turn_player,
                free_roads_available: self.prev_free_roads_available,
                num_turns: self.prev_num_turns,
                last_initial_settlement: self.prev_last_initial_settlement,
                ..edges
            },
            self.prev_flags,
        )
    }

    /// Records what building `action` would overwrite, and says whether the action is a build.
    fn capture_for_action(&mut self, state: &State, road_state: &RoadState, action: &ValueAction) -> (captured: bool)
        requires
            is_player(action.player),
            action.kind matches ValueActionKind::BuildSettlement(n) ==> (n as int) < NODE_COUNT,
            action.kind matches ValueActionKind::BuildCity(n) ==> (n as int) < NODE_COUNT,
            action.kind matches ValueActionKind::BuildRoad(e) ==> (e as int) < EDGE_COUNT,
        ensures
            captured == is_build(*action),
            captured ==> final(self).captures(*state, *road_state, *action) && final(self).in_range(),
            !captured ==> *final(self) == *old(self),
    {
        let (kind, node, edge) = match action.kind {
            ValueActionKind::BuildSettlement(node) => (LightweightActionKind::BuildSettlement, Some(node), None),
            ValueActionKind::BuildCity(node) => (LightweightActionKind::BuildCity, Some(node), None),
            ValueActionKind::BuildRoad(edge) => (LightweightActionKind::BuildRoad, None, Some(edge)),
            _ => return false,
        };
        self.player = action.player;
        self.prev_prompt = state.current_prompt;
        self.prev_turn_phase = state.turn_phase;
        self.prev_active_player = state.active_player;
        self.prev_turn_player = state.turn_player;
        self.prev_flags = snapshot_flags(state);
        self.prev_free_roads_available = state.free_roads_available;
        self.prev_num_turns = state.num_turns;
        self.prev_last_initial_settlement = state.last_initial_settlement;
        self.prev_player_resources = state.player_resources[action.player as usize];
        self.prev_bank_resources = state.bank_resources;
        self.prev_road_state = *road_state;
        self.prev_node = match node {
            Some(node_id) => {
                let idx = node_id as usize;
                Some((node_id, state.node_owner[idx], state.node_level[idx]))
            },
            None => None,
        };
        self.prev_edge = match edge {
            Some(edge_id) => Some((edge_id, state.edge_owner[edge_id as usize])),
            None => None,
        };
        self.restore_road_components = kind == LightweightActionKind::BuildSettlement || kind == LightweightActionKind::BuildRoad;
        if self.restore_road_components {
            self.prev_road_components = state.road_components;
        }
        true
    }

    /// Writes back what the record holds.
    fn undo(&self, state: &mut State, road_state: &mut RoadState)
        requires
            self.in_range(),
        ensures
            *final(state) == self.restored(*old(state)),
            *final(road_state) == self.prev_road_state,
    {
        let ghost s0 = *old(state);
        if let Some((node, owner, level)) = self.prev_node {
            state.set_building_kernel(node, owner, level);
        }
        let ghost nodes = *state;
        proof {
            assert(nodes == match self.prev_node {
                Some((n, owner, level)) => s0.with_building(n as int, owner, level),
                None => s0,
            });
        }
        if let Some((edge, owner)) = self.prev_edge {
            state.set_road_owner_kernel(edge, owner);
        }
        let ghost edges = *state;
        proof {
            assert(edges == match self.prev_edge {
                Some((e, owner)) => nodes.with_edge_owner(e as int, owner),
                None => nodes,
            });
        }
        state.player_resources[self.player as usize] = self.prev_player_resources;
        state.bank_resources = self.prev_bank_resources;
        *road_state = self.prev_road_state;
        if self.restore_road_components {
            state.road_components = self.prev_road_components;
        }
        state.current_prompt = self.prev_prompt;
        state.turn_phase = self.prev_turn_phase;
        state.active_player = self.prev_active_player;
        state.turn_player = self.prev_turn_player;
        restore_flags(state, self.prev_flags);
        state.free_roads_available = self.prev_free_roads_available;
        state.num_turns = self.prev_num_turns;
        state.last_initial_settlement = self.prev_last_initial_settlement;
    }
}

/// What a build leaves alone, read off its outcome.
proof fn lemma_build_outcome_frame(
    board: Board,
    new: State,
    old: State,
    new_roads: RoadState,
    old_roads: RoadState,
    new_army: ArmyState,
    old_army: ArmyState,
    action: ValueAction,
    rng_state: u128,
    increment: u128,
)
    requires
        step_ready(old),
        value_action_applicable(old, action),
        is_build(action),
        opening_settlement_turn(old) && action.kind is BuildSettlement ==> action.player == old.active_player,
        value_action_done(board, new, old, new_roads, old_roads, new_army, old_army, action, rng_state, increment),
    ensures
        build_frame(new, old),
        other_hands_kept(new, old, action.player as int),
        new_army == old_army,
        action.kind matches ValueActionKind::BuildCity(_) ==> new.road_components == old.road_components,
        action.kind matches ValueActionKind::BuildRoad(e) ==> new.node_owner == old.node_owner && new.node_level
            == old.node_level && other_edges_kept(new, old, e as int),
        action.kind matches ValueActionKind::BuildSettlement(n) ==> new.edge_owner == old.edge_owner && other_nodes_kept(
            new,
            old,
            n as int,
        ),
        action.kind matches ValueActionKind::BuildCity(n) ==> new.edge_owner == old.edge_owner && other_nodes_kept(
            new,
            old,
            n as int,
        ),
{
    let player = action.player;
    match action.kind {
        ValueActionKind::BuildSettlement(n) => {
            if opening_settlement_turn(old) {
                lemma_opening_settlement_frame(board, new, old, n);
            } else {
                lemma_settlement_frame(board, new, old, new_roads, old_roads, player, n);
            }
        },
        ValueActionKind::BuildCity(n) => {
            lemma_city_frame(new, old, player, n);
        },
        ValueActionKind::BuildRoad(e) => {
            if opening_road_turn(old) {
                lemma_opening_road_frame(board, new, old, new_roads, old_roads, e);
            } else if old.is_road_building {
                let laid = choose|laid: State|
                    road_built(board, laid, old, new_roads, old_roads, player, e, true) && new == free_road_tally(
                        board,
                        laid,
                        player,
                    );
                lemma_road_frame(board, laid, old, new_roads, old_roads, player, e, true);
            } else {
                lemma_road_frame(board, new, old, new_roads, old_roads, player, e, false);
            }
        },
        _ => {},
    }
}

/// Undoing the lightweight record of a build, taken before the build, gives back the state from before it.
proof fn lemma_lightweight_rollback(
    board: Board,
    before: State,
    before_roads: RoadState,
    before_army: ArmyState,
    after: State,
    after_roads: RoadState,
    after_army: ArmyState,
    action: ValueAction,
    rng_state: u128,
    increment: u128,
    delta: LightweightDecisionDelta,
)
    requires
        step_ready(before),
        value_action_applicable(before, action),
        is_build(action),
        opening_settlement_turn(before) && action.kind is BuildSettlement ==> action.player == before.active_player,
        delta.captures(before, before_roads, action),
        value_action_done(board, after, before, after_roads, before_roads, after_army, before_army, action, rng_state, increment),
    ensures
        delta.restored(after) == before,
        delta.prev_road_state == before_roads,
        after_army == before_army,
{
    lemma_build_outcome_frame(board, after, before, after_roads, before_roads, after_army, before_army, action, rng_state, increment);
    let r = delta.restored(after);
    let player = action.player as int;
    assert(r.player_resources =~= before.player_resources) by {
        assert forall|p: int| 0 <= p < PLAYER_COUNT implies r.player_resources[p] == before.player_resources[p] by {
            if p != player {
                assert(after.player_resources@[p] == before.player_resources@[p]);
            }
        }
    }
    match action.kind {
        ValueActionKind::BuildSettlement(n) | ValueActionKind::BuildCity(n) => {
            assert(r.node_owner =~= before.node_owner);
            assert(r.node_level =~= before.node_level);
        },
        ValueActionKind::BuildRoad(e) => {
            assert(r.edge_owner =~= before.edge_owner);
        },
        _ => {},
    }
}

/// Everything a move that builds nothing can overwrite: the whole state but the roads, buildings and road
/// networks, with the road and army standings.
#[derive(Copy, Clone, Debug)]
struct NonStructuralDecisionDelta {
    prev_road_state: RoadState,
    prev_army_state: ArmyState,
    prev_prompt: ActionPrompt,
    prev_turn_phase: TurnPhase,
    prev_active_player: PlayerId,
    prev_turn_player: PlayerId,
    prev_robber_tile: TileId,
    prev_flags: DecisionFlagsSnapshot,
    prev_has_rolled: [bool; PLAYER_COUNT],
    prev_has_played_dev: [bool; PLAYER_COUNT],
    prev_dev_owned_at_start: [[bool; DEV_CARD_COUNT]; PLAYER_COUNT],
    prev_free_roads_available: u8,
    prev_trade: [u8; 10],
    prev_acceptees: [bool; PLAYER_COUNT],
    prev_trade_offering_player: PlayerId,
    prev_trade_offered_this_turn: bool,
    prev_dev_deck: DevDeck,
    prev_dev_cards_in_hand: [[u8; DEV_CARD_COUNT]; PLAYER_COUNT],
    prev_dev_cards_played: [[u8; DEV_CARD_COUNT]; PLAYER_COUNT],
    prev_num_turns: u32,
    prev_last_initial_settlement: [NodeId; PLAYER_COUNT],
    pre_player_resources: [[u8; RESOURCE_COUNT]; PLAYER_COUNT],
    pre_bank_resources: [u8; RESOURCE_COUNT],
}

impl NonStructuralDecisionDelta {
    fn new() -> (delta: Self) {
        Self {
            prev_road_state: RoadState::empty(),
            prev_army_state: ArmyState::empty(),
            prev_prompt: ActionPrompt::PlayTurn,
            prev_turn_phase: TurnPhase::Setup,
            prev_active_player: 0,
            prev_turn_player: 0,
            prev_robber_tile: INVALID_TILE,
            prev_flags: DecisionFlagsSnapshot {
                is_initial_build_phase: false,
                is_discarding: false,
                is_moving_robber: false,
                is_road_building: false,
                is_resolving_trade: false,
            },
            prev_has_rolled: [false; PLAYER_COUNT],
            prev_has_played_dev: [false; PLAYER_COUNT],
            prev_dev_owned_at_start: [[false; DEV_CARD_COUNT]; PLAYER_COUNT],
            prev_free_roads_available: 0,
            prev_trade: [0; 10],
            prev_acceptees: [false; PLAYER_COUNT],
            prev_trade_offering_player: 0,
            prev_trade_offered_this_turn: false,
            prev_dev_deck: DevDeck::default(),
            prev_dev_cards_in_hand: [[0; DEV_CARD_COUNT]; PLAYER_COUNT],
            prev_dev_cards_played: [[0; DEV_CARD_COUNT]; PLAYER_COUNT],
            prev_num_turns: 0,
            prev_last_initial_settlement: [INVALID_NODE; PLAYER_COUNT],
            pre_player_resources: [[0; RESOURCE_COUNT]; PLAYER_COUNT],
            pre_bank_resources: [0; RESOURCE_COUNT],
        }
    }

    /// The record holds `s` but its roads, buildings and road networks, and the standings `roads` and `army`.
    closed spec fn captures(&self, s: State, roads: RoadState, army: ArmyState) -> bool {
        &&& self.prev_road_state == roads
        &&& self.prev_army_state == army
        &&& self.restored(s) == s
    }

    /// `s` with everything the record holds written back.
    closed spec fn restored(&self, s: State) -> State {
        with_flags(
            State {
                player_resources: self.pre_player_resources,
                bank_resources: self.pre_bank_resources,
                current_prompt: self.prev_prompt,
                turn_phase: self.prev_turn_phase,
                active_player: self.prev_active_player,
                turn_player: self.prev_turn_player,
                robber_tile: self.prev_robber_tile,
                has_rolled: self.prev_has_rolled,
                has_played_dev: self.prev_has_played_dev,
                dev_owned_at_start: self.prev_dev_owned_at_start,
                free_roads_available: self.prev_free_roads_available,
                current_trade: self.prev_trade,
                acceptees: self.prev_acceptees,
                trade_offering_player: self.prev_trade_offering_player,
                trade_offered_this_turn: self.prev_trade_offered_this_turn,
                dev_deck: self.prev_dev_deck,
                dev_cards_in_hand: self.prev_dev_cards_in_hand,
                dev_cards_played: self.prev_dev_cards_played,
                num_turns: self.prev_num_turns,
                last_initial_settlement: self.prev_last_initial_settlement,
                ..s
            },
            self.prev_flags,
        )
    }

    /// Records the state and the standings.
    fn begin(&mut self, state: &State, road_state: &RoadState, army_state: &ArmyState)
        ensures
            final(self).captures(*state, *road_state, *army_state),
    {
        self.prev_road_state = *road_state;
        self.prev_army_state = *army_state;
        self.prev_prompt = state.current_prompt;
        self.prev_turn_phase = state.turn_phase;
        self.prev_active_player = state.active_player;
        self.prev_turn_player = state.turn_player;
        self.prev_robber_tile = state.robber_tile;
        self.prev_flags = snapshot_flags(state);
        self.prev_has_rolled = state.has_rolled;
        self.prev_has_played_dev = state.has_played_dev;
        self.prev_dev_owned_at_start = state.dev_owned_at_start;
        self.prev_free_roads_available = state.free_roads_available;
        self.prev_trade = state.current_trade;
        self.prev_acceptees = state.acceptees;
        self.prev_trade_offering_player = state.trade_offering_player;
        self.prev_trade_offered_this_turn = state.trade_offered_this_turn;
        self.prev_dev_deck = state.dev_deck;
        self.prev_dev_cards_in_hand = state.dev_cards_in_hand;
        self.prev_dev_cards_played = state.dev_cards_played;
        self.prev_num_turns = state.num_turns;
        self.prev_last_initial_settlement = state.last_initial_settlement;
        self.pre_player_resources = state.player_resources;
        self.pre_bank_resources = state.bank_resources;
    }

    /// Writes back what the record holds.
    fn undo(&self, state: &mut State, road_state: &mut RoadState, army_state: &mut ArmyState)
        ensures
            *final(state) == self.restored(*old(state)),
            *final(road_state) == self.prev_road_state,
            *final(army_state) == self.prev_army_state,
    {
        state.player_resources = self.pre_player_resources;
        state.bank_resources = self.pre_bank_resources;
        *road_state = self.prev_road_state;
        *army_state = self.prev_army_state;
        state.current_prompt = self.prev_prompt;
        state.turn_phase = self.prev_turn_phase;
        state.active_player = self.prev_active_player;
        state.turn_player = self.prev_turn_player;
        state.robber_tile = self.prev_robber_tile;
        restore_flags(state, self.prev_flags);
        state.has_rolled = self.prev_has_rolled;
        state.has_played_dev = self.prev_has_played_dev;
        state.dev_owned_at_start = self.prev_dev_owned_at_start;
        state.free_roads_available = self.prev_free_roads_available;
        state.current_trade = self.prev_trade;
        state.acceptees = self.prev_acceptees;
        state.trade_offering_player = self.prev_trade_offering_player;
        state.trade_offered_this_turn = self.prev_trade_offered_this_turn;
        state.dev_deck = self.prev_dev_deck;
        state.dev_cards_in_hand = self.prev_dev_cards_in_hand;
        state.dev_cards_played = self.prev_dev_cards_played;
        state.num_turns = self.prev_num_turns;
        state.last_initial_settlement = self.prev_last_initial_settlement;
    }
}

/// Undoing the record of a move that builds nothing, taken before the move, gives back the state from before it.
proof fn lemma_non_structural_rollback(
    board: Board,
    before: State,
    before_roads: RoadState,
    before_army: ArmyState,
    after: State,
    after_roads: RoadState,
    after_army: ArmyState,
    action: ValueAction,
    rng_state: u128,
    increment: u128,
    delta: NonStructuralDecisionDelta,
)
    requires
        step_ready(before),
        !is_build(action),
        delta.captures(before, before_roads, before_army),
        value_action_done(board, after, before, after_roads, before_roads, after_army, before_army, action, rng_state, increment),
    ensures
        delta.restored(after) == before,
        delta.prev_road_state == before_roads,
        delta.prev_army_state == before_army,
{
    lemma_non_structural_keeps_pieces(board, after, before, after_roads, before_roads, after_army, before_army, action, rng_state, increment);
}

/// Writing back a log of edges, no two alike, gives each logged edge its logged owner and leaves the others.
proof fn lemma_undo_roads_at(a: [PlayerId; EDGE_COUNT], log: Seq<(EdgeId, PlayerId)>, i: int)
    requires
        forall|j: int, k: int| 0 <= j < k < log.len() ==> #[trigger] log[j].0 != #[trigger] log[k].0,
        forall|j: int| 0 <= j < log.len() ==> (#[trigger] log[j].0 as int) < EDGE_COUNT,
        0 <= i < EDGE_COUNT,
    ensures
        forall|j: int| 0 <= j < log.len() && #[trigger] log[j].0 as int == i ==> undo_roads(a, log)@[i] == log[j].1,
        (forall|j: int| 0 <= j < log.len() ==> #[trigger] log[j].0 as int != i) ==> undo_roads(a, log)@[i] == a@[i],
    decreases log.len(),
{
    if log.len() > 0 {
        let rest = log.drop_first();
        assert forall|j: int, k: int| 0 <= j < k < rest.len() implies #[trigger] rest[j].0 != #[trigger] rest[k].0 by {
            assert(rest[j] == log[j + 1] && rest[k] == log[k + 1]);
        }
        assert forall|j: int| 0 <= j < rest.len() implies (#[trigger] rest[j].0 as int) < EDGE_COUNT by {
            assert(rest[j] == log[j + 1]);
        }
        lemma_undo_roads_at(a, rest, i);
        assert forall|j: int| 0 <= j < log.len() && #[trigger] log[j].0 as int == i implies undo_roads(a, log)@[i] == log[j].1 by {
            if j > 0 {
                assert(rest[j - 1] == log[j]);
            }
        }
        if forall|j: int| 0 <= j < log.len() ==> #[trigger] log[j].0 as int != i {
            assert forall|j: int| 0 <= j < rest.len() implies #[trigger] rest[j].0 as int != i by {
                assert(rest[j] == log[j + 1]);
            }
        }
    }
}

/// Writing back a log of nodes, no two alike, gives each logged node its logged building and leaves the others.
proof fn lemma_undo_buildings_at(
    owners: [PlayerId; NODE_COUNT],
    levels: [BuildingLevel; NODE_COUNT],
    log: Seq<(NodeId, PlayerId, BuildingLevel)>,
    i: int,
)
    requires
        forall|j: int, k: int| 0 <= j < k < log.len() ==> #[trigger] log[j].0 != #[trigger] log[k].0,
        forall|j: int| 0 <= j < log.len() ==> (#[trigger] log[j].0 as int) < NODE_COUNT,
        0 <= i < NODE_COUNT,
    ensures
        forall|j: int|
            0 <= j < log.len() && #[trigger] log[j].0 as int == i ==> undo_buildings(owners, levels, log).0@[i] == log[j].1
                && undo_buildings(owners, levels, log).1@[i] == log[j].2,
        (forall|j: int| 0 <= j < log.len() ==> #[trigger] log[j].0 as int != i) ==> undo_buildings(owners, levels, log).0@[i]
            == owners@[i] && undo_buildings(owners, levels, log).1@[i] == levels@[i],
    decreases log.len(),
{
    if log.len() > 0 {
        let rest = log.drop_first();
        assert forall|j: int, k: int| 0 <= j < k < rest.len() implies #[trigger] rest[j].0 != #[trigger] rest[k].0 by {
            assert(rest[j] == log[j + 1] && rest[k] == log[k + 1]);
        }
        assert forall|j: int| 0 <= j < rest.len() implies (#[trigger] rest[j].0 as int) < NODE_COUNT by {
            assert(rest[j] == log[j + 1]);
        }
        lemma_undo_buildings_at(owners, levels, rest, i);
        assert forall|j: int| 0 <= j < log.len() && #[trigger] log[j].0 as int == i implies undo_buildings(owners, levels, log).0@[i]
            == log[j].1 && undo_buildings(owners, levels, log).1@[i] == log[j].2 by {
            if j > 0 {
                assert(rest[j - 1] == log[j]);
            }
        }
        if forall|j: int| 0 <= j < log.len() ==> #[trigger] log[j].0 as int != i {
            assert forall|j: int| 0 <= j < rest.len() implies #[trigger] rest[j].0 as int != i by {
                assert(rest[j] == log[j + 1]);
            }
        }
    }
}

/// The place of a (player, resource) entry in a scan of the hands, player by player.
pub open spec fn hand_slot(entry: (PlayerId, Resource, u8)) -> int {
    entry.0 as int * RESOURCE_COUNT as int + resource_index(entry.1)
}

/// Writing back a log of hand entries, no two alike, gives each logged entry its logged count and leaves the
/// others.
proof fn lemma_undo_hands_at(hands: [[u8; RESOURCE_COUNT]; PLAYER_COUNT], log: Seq<(PlayerId, Resource, u8)>, p: int, r: int)
    requires
        forall|j: int, k: int| 0 <= j < k < log.len() ==> hand_slot(#[trigger] log[j]) != hand_slot(#[trigger] log[k]),
        forall|j: int| 0 <= j < log.len() ==> ((#[trigger] log[j]).0 as int) < PLAYER_COUNT,
        0 <= p < PLAYER_COUNT,
        0 <= r < RESOURCE_COUNT,
    ensures
        forall|j: int|
            0 <= j < log.len() && hand_slot(#[trigger] log[j]) == p * RESOURCE_COUNT + r ==> undo_hands(hands, log)@[p]@[r]
                == log[j].2,
        (forall|j: int| 0 <= j < log.len() ==> hand_slot(#[trigger] log[j]) != p * RESOURCE_COUNT + r) ==> undo_hands(
            hands,
            log,
        )@[p]@[r] == hands@[p]@[r],
    decreases log.len(),
{
    if log.len() > 0 {
        let rest = log.drop_first();
        assert forall|j: int, k: int| 0 <= j < k < rest.len() implies hand_slot(#[trigger] rest[j]) != hand_slot(#[trigger] rest[k]) by {
            assert(rest[j] == log[j + 1] && rest[k] == log[k + 1]);
        }
        assert forall|j: int| 0 <= j < rest.len() implies ((#[trigger] rest[j]).0 as int) < PLAYER_COUNT by {
            assert(rest[j] == log[j + 1]);
        }
        lemma_undo_hands_at(hands, rest, p, r);
        let q = log[0].0 as int;
        let k = resource_index(log[0].1);
        assert(0 <= k < RESOURCE_COUNT);
        assert((q == p && k == r) == (hand_slot(log[0]) == p * RESOURCE_COUNT + r));
        assert forall|j: int| 0 <= j < log.len() && hand_slot(#[trigger] log[j]) == p * RESOURCE_COUNT + r implies undo_hands(
            hands,
            log,
        )@[p]@[r] == log[j].2 by {
            if j > 0 {
                assert(rest[j - 1] == log[j]);
            }
        }
        if forall|j: int| 0 <= j < log.len() ==> hand_slot(#[trigger] log[j]) != p * RESOURCE_COUNT + r {
            assert forall|j: int| 0 <= j < rest.len() implies hand_slot(#[trigger] rest[j]) != p * RESOURCE_COUNT + r by {
                assert(rest[j] == log[j + 1]);
            }
            assert(hand_slot(log[0]) != p * RESOURCE_COUNT + r);
        }
    }
}

/// Writing back a log of bank entries, no two alike, gives each logged resource its logged count and leaves the
/// others.
proof fn lemma_undo_bank_at(bank: [u8; RESOURCE_COUNT], log: Seq<(Resource, u8)>, r: int)
    requires
        forall|j: int, k: int| 0 <= j < k < log.len() ==> resource_index(#[trigger] log[j].0) != resource_index(#[trigger] log[k].0),
        0 <= r < RESOURCE_COUNT,
    ensures
        forall|j: int| 0 <= j < log.len() && resource_index(#[trigger] log[j].0) == r ==> undo_bank(bank, log)@[r] == log[j].1,
        (forall|j: int| 0 <= j < log.len() ==> resource_index(#[trigger] log[j].0) != r) ==> undo_bank(bank, log)@[r]
            == bank@[r],
    decreases log.len(),
{
    if log.len() > 0 {
        let rest = log.drop_first();
        assert forall|j: int, k: int| 0 <= j < k < rest.len() implies resource_index(#[trigger] rest[j].0) != resource_index(
            #[trigger] rest[k].0,
        ) by {
            assert(rest[j] == log[j + 1] && rest[k] == log[k + 1]);
        }
        lemma_undo_bank_at(bank, rest, r);
        assert forall|j: int| 0 <= j < log.len() && resource_index(#[trigger] log[j].0) == r implies undo_bank(bank, log)@[r]
            == log[j].1 by {
            if j > 0 {
                assert(rest[j - 1] == log[j]);
            }
        }
        if forall|j: int| 0 <= j < log.len() ==> resource_index(#[trigger] log[j].0) != r {
            assert forall|j: int| 0 <= j < rest.len() implies resource_index(#[trigger] rest[j].0) != r by {
                assert(rest[j] == log[j + 1]);
            }
        }
    }
}

/// Logs each edge whose owner differs between `pre` and `now`, with its owner in `pre`, so that writing the log
/// back onto `now` gives `pre`. At most the edge `changed` may differ.
fn record_edge_diffs(delta: &mut Delta, pre: &[PlayerId; EDGE_COUNT], now: &[PlayerId; EDGE_COUNT], Ghost(changed): Ghost<int>)
    requires
        old(delta).wf(),
        old(delta).road_log().len() == 0,
        forall|i: int| 0 <= i < EDGE_COUNT && i != changed ==> #[trigger] now@[i] == pre@[i],
    ensures
        final(delta).wf(),
        undo_roads(*now, final(delta).road_log()) == *pre,
        forall|j: int| 0 <= j < final(delta).road_log().len() ==> (#[trigger] final(delta).road_log()[j].0 as int) < EDGE_COUNT,
        final(delta).building_log() == old(delta).building_log(),
        final(delta).resource_log() == old(delta).resource_log(),
        final(delta).bank_log() == old(delta).bank_log(),
        final(delta).turn_record() == old(delta).turn_record(),
        final(delta).robber_record() == old(delta).robber_record(),
{
    let mut edge: usize = 0;
    while edge < EDGE_COUNT
        invariant
            edge <= EDGE_COUNT,
            delta.wf(),
            forall|i: int| 0 <= i < EDGE_COUNT && i != changed ==> #[trigger] now@[i] == pre@[i],
            delta.road_log().len() <= if edge > changed { 1int } else { 0int },
            forall|j: int, k: int| 0 <= j < k < delta.road_log().len() ==> #[trigger] delta.road_log()[j].0 < #[trigger] delta.road_log()[k].0,
            forall|j: int| 0 <= j < delta.road_log().len() ==> (#[trigger] delta.road_log()[j].0 as int) < edge,
            forall|j: int| 0 <= j < delta.road_log().len() ==> #[trigger] delta.road_log()[j].1 == pre@[delta.road_log()[j].0 as int],
            forall|i: int| 0 <= i < edge && now@[i] != pre@[i] ==> exists|j: int| 0 <= j < delta.road_log().len() && #[trigger] delta.road_log()[j].0 as int == i,
            delta.building_log() == old(delta).building_log(),
            delta.resource_log() == old(delta).resource_log(),
            delta.bank_log() == old(delta).bank_log(),
            delta.turn_record() == old(delta).turn_record(),
            delta.robber_record() == old(delta).robber_record(),
        decreases EDGE_COUNT - edge,
    {
        let before = pre[edge];
        let after = now[edge];
        if before != after {
            let ghost log = delta.road_log();
            delta.record_road(edge as EdgeId, before);
            proof {
                assert(delta.road_log() == log.push((edge as EdgeId, before)));
                assert(delta.road_log()[log.len() as int].0 as int == edge);
            }
        }
        edge = edge + 1;
    }
    proof {
        let log = delta.road_log();
        assert forall|i: int| 0 <= i < EDGE_COUNT implies undo_roads(*now, log)@[i] == pre@[i] by {
            lemma_undo_roads_at(*now, log, i);
            if now@[i] != pre@[i] {
                let j = choose|j: int| 0 <= j < log.len() && #[trigger] log[j].0 as int == i;
                assert(log[j].0 as int == i);
            }
        }
        assert(undo_roads(*now, log) =~= *pre);
    }
}

/// Logs each node whose building differs between `pre` and `now`, with its building in `pre`, so that writing the
/// log back onto `now` gives `pre`. At most the node `changed` may differ.
fn record_node_diffs(
    delta: &mut Delta,
    pre_owner: &[PlayerId; NODE_COUNT],
    pre_level: &[BuildingLevel; NODE_COUNT],
    now_owner: &[PlayerId; NODE_COUNT],
    now_level: &[BuildingLevel; NODE_COUNT],
    Ghost(changed): Ghost<int>,
)
    requires
        old(delta).wf(),
        old(delta).building_log().len() == 0,
        forall|i: int| 0 <= i < NODE_COUNT && i != changed ==> #[trigger] now_owner@[i] == pre_owner@[i],
        forall|i: int| 0 <= i < NODE_COUNT && i != changed ==> #[trigger] now_level@[i] == pre_level@[i],
    ensures
        final(delta).wf(),
        undo_buildings(*now_owner, *now_level, final(delta).building_log()) == (*pre_owner, *pre_level),
        forall|j: int| 0 <= j < final(delta).building_log().len() ==> (#[trigger] final(delta).building_log()[j].0 as int) < NODE_COUNT,
        final(delta).road_log() == old(delta).road_log(),
        final(delta).resource_log() == old(delta).resource_log(),
        final(delta).bank_log() == old(delta).bank_log(),
        final(delta).turn_record() == old(delta).turn_record(),
        final(delta).robber_record() == old(delta).robber_record(),
{
    let mut node: usize = 0;
    while node < NODE_COUNT
        invariant
            node <= NODE_COUNT,
            delta.wf(),
            forall|i: int| 0 <= i < NODE_COUNT && i != changed ==> #[trigger] now_owner@[i] == pre_owner@[i],
            forall|i: int| 0 <= i < NODE_COUNT && i != changed ==> #[trigger] now_level@[i] == pre_level@[i],
            delta.building_log().len() <= if node > changed { 1int } else { 0int },
            forall|j: int, k: int| 0 <= j < k < delta.building_log().len() ==> #[trigger] delta.building_log()[j].0 < #[trigger] delta.building_log()[k].0,
            forall|j: int| 0 <= j < delta.building_log().len() ==> (#[trigger] delta.building_log()[j].0 as int) < node,
            forall|j: int| 0 <= j < delta.building_log().len() ==> #[trigger] delta.building_log()[j].1 == pre_owner@[delta.building_log()[j].0 as int]
                && delta.building_log()[j].2 == pre_level@[delta.building_log()[j].0 as int],
            forall|i: int| 0 <= i < node && (now_owner@[i] != pre_owner@[i] || now_level@[i] != pre_level@[i]) ==> exists|j: int|
                0 <= j < delta.building_log().len() && #[trigger] delta.building_log()[j].0 as int == i,
            delta.road_log() == old(delta).road_log(),
            delta.resource_log() == old(delta).resource_log(),
            delta.bank_log() == old(delta).bank_log(),
            delta.turn_record() == old(delta).turn_record(),
            delta.robber_record() == old(delta).robber_record(),
        decreases NODE_COUNT - node,
    {
        let owner_before = pre_owner[node];
        let level_before = pre_level[node];
        let owner_after = now_owner[node];
        let level_after = now_level[node];
        if owner_before != owner_after || level_before != level_after {
            let ghost log = delta.building_log();
            delta.record_building(node as NodeId, owner_before, level_before);
            proof {
                assert(delta.building_log() == log.push((node as NodeId, owner_before, level_before)));
                assert(delta.building_log()[log.len() as int].0 as int == node);
            }
        }
        node = node + 1;
    }
    proof {
        let log = delta.building_log();
        let undone = undo_buildings(*now_owner, *now_level, log);
        assert forall|i: int| 0 <= i < NODE_COUNT implies undone.0@[i] == pre_owner@[i] && undone.1@[i] == pre_level@[i] by {
            lemma_undo_buildings_at(*now_owner, *now_level, log, i);
            if now_owner@[i] != pre_owner@[i] || now_level@[i] != pre_level@[i] {
                let j = choose|j: int| 0 <= j < log.len() && #[trigger] log[j].0 as int == i;
                assert(log[j].0 as int == i);
            }
        }
        assert(undone.0 =~= *pre_owner);
        assert(undone.1 =~= *pre_level);
    }
}

/// Logs each hand entry that differs between `pre` and `now`, with its count in `pre`, so that writing the log
/// back onto `now` gives `pre`.
fn record_hand_diffs(delta: &mut Delta, pre: &[[u8; RESOURCE_COUNT]; PLAYER_COUNT], now: &[[u8; RESOURCE_COUNT]; PLAYER_COUNT])
    requires
        old(delta).wf(),
        old(delta).resource_log().len() == 0,
    ensures
        final(delta).wf(),
        undo_hands(*now, final(delta).resource_log()) == *pre,
        forall|j: int| 0 <= j < final(delta).resource_log().len() ==> ((#[trigger] final(delta).resource_log()[j]).0 as int) < PLAYER_COUNT,
        final(delta).road_log() == old(delta).road_log(),
        final(delta).building_log() == old(delta).building_log(),
        final(delta).bank_log() == old(delta).bank_log(),
        final(delta).turn_record() == old(delta).turn_record(),
        final(delta).robber_record() == old(delta).robber_record(),
{
    let mut player: usize = 0;
    while player < PLAYER_COUNT
        invariant
            player <= PLAYER_COUNT,
            delta.wf(),
            delta.resource_log().len() <= player * RESOURCE_COUNT,
            forall|j: int, k: int| 0 <= j < k < delta.resource_log().len() ==> hand_slot(#[trigger] delta.resource_log()[j]) < hand_slot(#[trigger] delta.resource_log()[k]),
            forall|j: int| 0 <= j < delta.resource_log().len() ==> hand_slot(#[trigger] delta.resource_log()[j]) < player * RESOURCE_COUNT,
            forall|j: int| 0 <= j < delta.resource_log().len() ==> ((#[trigger] delta.resource_log()[j]).0 as int) < PLAYER_COUNT
                && delta.resource_log()[j].2 == pre@[delta.resource_log()[j].0 as int]@[resource_index(delta.resource_log()[j].1)],
            forall|q: int, r: int| 0 <= q < player && 0 <= r < RESOURCE_COUNT && now@[q]@[r] != pre@[q]@[r] ==> exists|j: int|
                0 <= j < delta.resource_log().len() && #[trigger] hand_slot(delta.resource_log()[j]) == q * RESOURCE_COUNT + r,
            delta.road_log() == old(delta).road_log(),
            delta.building_log() == old(delta).building_log(),
            delta.bank_log() == old(delta).bank_log(),
            delta.turn_record() == old(delta).turn_record(),
            delta.robber_record() == old(delta).robber_record(),
        decreases PLAYER_COUNT - player,
    {
        let mut resource: usize = 0;
        while resource < RESOURCE_COUNT
            invariant
                player < PLAYER_COUNT,
                resource <= RESOURCE_COUNT,
                delta.wf(),
                delta.resource_log().len() <= player * RESOURCE_COUNT + resource,
                forall|j: int, k: int| 0 <= j < k < delta.resource_log().len() ==> hand_slot(#[trigger] delta.resource_log()[j]) < hand_slot(#[trigger] delta.resource_log()[k]),
                forall|j: int| 0 <= j < delta.resource_log().len() ==> hand_slot(#[trigger] delta.resource_log()[j]) < player * RESOURCE_COUNT + resource,
                forall|j: int| 0 <= j < delta.resource_log().len() ==> ((#[trigger] delta.resource_log()[j]).0 as int) < PLAYER_COUNT
                    && delta.resource_log()[j].2 == pre@[delta.resource_log()[j].0 as int]@[resource_index(delta.resource_log()[j].1)],
                forall|q: int, r: int|
                    0 <= r < RESOURCE_COUNT && (0 <= q < player || (q == player && r < resource)) && now@[q]@[r] != pre@[q]@[r] ==> exists|j: int|
                        0 <= j < delta.resource_log().len() && #[trigger] hand_slot(delta.resource_log()[j]) == q * RESOURCE_COUNT + r,
                delta.road_log() == old(delta).road_log(),
                delta.building_log() == old(delta).building_log(),
                delta.bank_log() == old(delta).bank_log(),
                delta.turn_record() == old(delta).turn_record(),
                delta.robber_record() == old(delta).robber_record(),
            decreases RESOURCE_COUNT - resource,
        {
            let before = pre[player][resource];
            let after = now[player][resource];
            proof {
                assert(resource_at(resource as int) is Some);
            }
            if before != after {
                if let Some(resource_id) = Resource::from_index(resource) {
                    let ghost log = delta.resource_log();
                    delta.record_resource(player as PlayerId, resource_id, before);
                    proof {
                        assert(delta.resource_log() == log.push((player as PlayerId, resource_id, before)));
                        assert(hand_slot(delta.resource_log()[log.len() as int]) == player * RESOURCE_COUNT + resource);
                        assert forall|q: int, r: int|
                            0 <= r < RESOURCE_COUNT && (0 <= q < player || (q == player && r < resource + 1)) && now@[q]@[r] != pre@[q]@[r] implies exists|j: int|
                                0 <= j < delta.resource_log().len() && #[trigger] hand_slot(delta.resource_log()[j]) == q * RESOURCE_COUNT + r by {
                            if !(q == player && r == resource) {
                                let j = choose|j: int| 0 <= j < log.len() && #[trigger] hand_slot(log[j]) == q * RESOURCE_COUNT + r;
                                assert(delta.resource_log()[j] == log[j]);
                            }
                        }
                    }
                }
            }
            resource = resource + 1;
        }
        player = player + 1;
    }
    proof {
        let log = delta.resource_log();
        assert forall|p: int, r: int| 0 <= p < PLAYER_COUNT && 0 <= r < RESOURCE_COUNT implies undo_hands(*now, log)@[p]@[r] == pre@[p]@[r] by {
            lemma_undo_hands_at(*now, log, p, r);
            if now@[p]@[r] != pre@[p]@[r] {
                let j = choose|j: int| 0 <= j < log.len() && #[trigger] hand_slot(log[j]) == p * RESOURCE_COUNT + r;
                assert(hand_slot(log[j]) == p * RESOURCE_COUNT + r);
                let q = log[j].0 as int;
                let k = resource_index(log[j].1);
                assert(0 <= k < RESOURCE_COUNT);
                assert(q == p && k == r) by (nonlinear_arith)
                    requires
                        q * 5 + k == p * 5 + r,
                        0 <= k < 5,
                        0 <= r < 5,
                ;
            } else {
                if exists|j: int| 0 <= j < log.len() && #[trigger] hand_slot(log[j]) == p * RESOURCE_COUNT + r {
                    let j = choose|j: int| 0 <= j < log.len() && #[trigger] hand_slot(log[j]) == p * RESOURCE_COUNT + r;
                    let q = log[j].0 as int;
                    let k = resource_index(log[j].1);
                    assert(0 <= k < RESOURCE_COUNT);
                    assert(q == p && k == r) by (nonlinear_arith)
                        requires
                            q * 5 + k == p * 5 + r,
                            0 <= k < 5,
                            0 <= r < 5,
                    ;
                }
            }
        }
        assert forall|p: int| 0 <= p < PLAYER_COUNT implies undo_hands(*now, log)@[p] == pre@[p] by {
            assert(undo_hands(*now, log)@[p] =~= pre@[p]);
        }
        assert(undo_hands(*now, log) =~= *pre);
    }
}

/// Logs each bank count that differs between `pre` and `now`, with its count in `pre`, so that writing the log
/// back onto `now` gives `pre`.
fn record_bank_diffs(delta: &mut Delta, pre: &[u8; RESOURCE_COUNT], now: &[u8; RESOURCE_COUNT])
    requires
        old(delta).wf(),
        old(delta).bank_log().len() == 0,
    ensures
        final(delta).wf(),
        undo_bank(*now, final(delta).bank_log()) == *pre,
        final(delta).road_log() == old(delta).road_log(),
        final(delta).building_log() == old(delta).building_log(),
        final(delta).resource_log() == old(delta).resource_log(),
        final(delta).turn_record() == old(delta).turn_record(),
        final(delta).robber_record() == old(delta).robber_record(),
{
    let mut resource: usize = 0;
    while resource < RESOURCE_COUNT
        invariant
            resource <= RESOURCE_COUNT,
            delta.wf(),
            delta.bank_log().len() <= resource,
            forall|j: int, k: int| 0 <= j < k < delta.bank_log().len() ==> resource_index(#[trigger] delta.bank_log()[j].0) < resource_index(#[trigger] delta.bank_log()[k].0),
            forall|j: int| 0 <= j < delta.bank_log().len() ==> resource_index(#[trigger] delta.bank_log()[j].0) < resource,
            forall|j: int| 0 <= j < delta.bank_log().len() ==> #[trigger] delta.bank_log()[j].1 == pre@[resource_index(delta.bank_log()[j].0)],
            forall|r: int| 0 <= r < resource && now@[r] != pre@[r] ==> exists|j: int|
                0 <= j < delta.bank_log().len() && #[trigger] resource_index(delta.bank_log()[j].0) == r,
            delta.road_log() == old(delta).road_log(),
            delta.building_log() == old(delta).building_log(),
            delta.resource_log() == old(delta).resource_log(),
            delta.turn_record() == old(delta).turn_record(),
            delta.robber_record() == old(delta).robber_record(),
        decreases RESOURCE_COUNT - resource,
    {
        let before = pre[resource];
        let after = now[resource];
        proof {
            assert(resource_at(resource as int) is Some);
        }
        if before != after {
            if let Some(resource_id) = Resource::from_index(resource) {
                let ghost log = delta.bank_log();
                delta.record_bank(resource_id, before);
                proof {
                    assert(delta.bank_log() == log.push((resource_id, before)));
                    assert(resource_index(delta.bank_log()[log.len() as int].0) == resource);
                    assert forall|r: int| 0 <= r < resource + 1 && now@[r] != pre@[r] implies exists|j: int|
                        0 <= j < delta.bank_log().len() && #[trigger] resource_index(delta.bank_log()[j].0) == r by {
                        if r != resource {
                            let j = choose|j: int| 0 <= j < log.len() && #[trigger] resource_index(log[j].0) == r;
                            assert(delta.bank_log()[j] == log[j]);
                        }
                    }
                }
            }
        }
        resource = resource + 1;
    }
    proof {
        let log = delta.bank_log();
        assert forall|r: int| 0 <= r < RESOURCE_COUNT implies undo_bank(*now, log)@[r] == pre@[r] by {
            lemma_undo_bank_at(*now, log, r);
            if now@[r] != pre@[r] {
                let j = choose|j: int| 0 <= j < log.len() && #[trigger] resource_index(log[j].0) == r;
                assert(resource_index(log[j].0) == r);
            }
        }
        assert(undo_bank(*now, log) =~= *pre);
    }
}

/// The edge that an action may change the owner of (none: -1).
pub open spec fn touched_edge(action: ValueAction) -> int {
    match action.kind {
        ValueActionKind::BuildRoad(e) => e as int,
        _ => -1,
    }
}

/// The node that an action may build on (none: -1).
pub open spec fn touched_node(action: ValueAction) -> int {
    match action.kind {
        ValueActionKind::BuildSettlement(n) | ValueActionKind::BuildCity(n) => n as int,
        _ => -1,
    }
}

/// An action changes at most the edge and the node that it names.
proof fn lemma_pieces_touched(
    board: Board,
    new: State,
    old: State,
    new_roads: RoadState,
    old_roads: RoadState,
    new_army: ArmyState,
    old_army: ArmyState,
    action: ValueAction,
    rng_state: u128,
    increment: u128,
)
    requires
        step_ready(old),
        value_action_applicable(old, action),
        value_action_done(board, new, old, new_roads, old_roads, new_army, old_army, action, rng_state, increment),
    ensures
        other_edges_kept(new, old, touched_edge(action)),
        other_nodes_kept(new, old, touched_node(action)),
{
    let player = action.player;
    match action.kind {
        ValueActionKind::BuildSettlement(n) => {
            if opening_settlement_turn(old) {
                lemma_opening_settlement_frame(board, new, old, n);
            } else {
                lemma_settlement_frame(board, new, old, new_roads, old_roads, player, n);
            }
        },
        ValueActionKind::BuildCity(n) => {
            lemma_city_frame(new, old, player, n);
        },
        ValueActionKind::BuildRoad(e) => {
            if opening_road_turn(old) {
                lemma_opening_road_frame(board, new, old, new_roads, old_roads, e);
            } else if old.is_road_building {
                let laid = choose|laid: State|
                    road_built(board, laid, old, new_roads, old_roads, player, e, true) && new == free_road_tally(
                        board,
                        laid,
                        player,
                    );
                lemma_road_frame(board, laid, old, new_roads, old_roads, player, e, true);
            } else {
                lemma_road_frame(board, new, old, new_roads, old_roads, player, e, false);
            }
        },
        _ => {
            lemma_non_structural_keeps_pieces(board, new, old, new_roads, old_roads, new_army, old_army, action, rng_state, increment);
        },
    }
}

/// The full record of a decision: the state and the standings from before it, with a log of the roads,
/// buildings, hands and bank counts that it changed.
#[derive(Clone, Debug)]
pub struct DecisionDelta {
    state_delta: Delta,
    prev_road_state: RoadState,
    prev_army_state: ArmyState,
    prev_prompt: ActionPrompt,
    prev_turn_phase: TurnPhase,
    prev_active_player: PlayerId,
    prev_turn_player: PlayerId,
    prev_robber_tile: TileId,
    prev_flags: DecisionFlagsSnapshot,
    prev_has_rolled: [bool; PLAYER_COUNT],
    prev_has_played_dev: [bool; PLAYER_COUNT],
    prev_dev_owned_at_start: [[bool; DEV_CARD_COUNT]; PLAYER_COUNT],
    prev_free_roads_available: u8,
    prev_trade: [u8; 10],
    prev_acceptees: [bool; PLAYER_COUNT],
    prev_trade_offering_player: PlayerId,
    prev_trade_offered_this_turn: bool,
    prev_road_components: [RoadComponents; PLAYER_COUNT],
    prev_dev_deck: DevDeck,
    prev_dev_cards_in_hand: [[u8; DEV_CARD_COUNT]; PLAYER_COUNT],
    prev_dev_cards_played: [[u8; DEV_CARD_COUNT]; PLAYER_COUNT],
    prev_num_turns: u32,
    prev_last_initial_settlement: [NodeId; PLAYER_COUNT],
    pre_edge_owner: [PlayerId; EDGE_COUNT],
    pre_node_owner: [PlayerId; NODE_COUNT],
    pre_node_level: [BuildingLevel; NODE_COUNT],
    pre_player_resources: [[u8; RESOURCE_COUNT]; PLAYER_COUNT],
    pre_bank_resources: [u8; RESOURCE_COUNT],
}

impl DecisionDelta {
    pub fn new() -> (delta: Self)
        ensures
            delta.log_ok(),
    {
        let components = RoadComponents::new();
        Self {
            state_delta: Delta::default(),
            prev_road_state: RoadState::empty(),
            prev_army_state: ArmyState::empty(),
            prev_prompt: ActionPrompt::PlayTurn,
            prev_turn_phase: TurnPhase::Setup,
            prev_active_player: 0,
            prev_turn_player: 0,
            prev_robber_tile: INVALID_TILE,
            prev_flags: DecisionFlagsSnapshot {
                is_initial_build_phase: false,
                is_discarding: false,
                is_moving_robber: false,
                is_road_building: false,
                is_resolving_trade: false,
            },
            prev_has_rolled: [false; PLAYER_COUNT],
            prev_has_played_dev: [false; PLAYER_COUNT],
            prev_dev_owned_at_start: [[false; DEV_CARD_COUNT]; PLAYER_COUNT],
            prev_free_roads_available: 0,
            prev_trade: [0; 10],
            prev_acceptees: [false; PLAYER_COUNT],
            prev_trade_offering_player: 0,
            prev_trade_offered_this_turn: false,
            prev_road_components: [components; PLAYER_COUNT],
            prev_dev_deck: DevDeck::default(),
            prev_dev_cards_in_hand: [[0; DEV_CARD_COUNT]; PLAYER_COUNT],
            prev_dev_cards_played: [[0; DEV_CARD_COUNT]; PLAYER_COUNT],
            prev_num_turns: 0,
            prev_last_initial_settlement: [INVALID_NODE; PLAYER_COUNT],
            pre_edge_owner: [NO_PLAYER; EDGE_COUNT],
            pre_node_owner: [NO_PLAYER; NODE_COUNT],
            pre_node_level: [BuildingLevel::Empty; NODE_COUNT],
            pre_player_resources: [[0; RESOURCE_COUNT]; PLAYER_COUNT],
            pre_bank_resources: [0; RESOURCE_COUNT],
        }
    }

    /// The log is within its capacities and names only edges, nodes and players that exist.
    pub closed spec fn log_ok(&self) -> bool {
        &&& self.state_delta.wf()
        &&& records_in_range(self.state_delta)
    }

    /// The state from before the decision.
    pub closed spec fn recorded_state(&self) -> State {
        State {
            turn_player: self.prev_turn_player,
            active_player: self.prev_active_player,
            turn_phase: self.prev_turn_phase,
            robber_tile: self.prev_robber_tile,
            bank_resources: self.pre_bank_resources,
            player_resources: self.pre_player_resources,
            dev_cards_in_hand: self.prev_dev_cards_in_hand,
            dev_cards_played: self.prev_dev_cards_played,
            dev_owned_at_start: self.prev_dev_owned_at_start,
            has_rolled: self.prev_has_rolled,
            has_played_dev: self.prev_has_played_dev,
            edge_owner: self.pre_edge_owner,
            node_owner: self.pre_node_owner,
            node_level: self.pre_node_level,
            road_components: self.prev_road_components,
            dev_deck: self.prev_dev_deck,
            current_prompt: self.prev_prompt,
            is_initial_build_phase: self.prev_flags.is_initial_build_phase,
            is_discarding: self.prev_flags.is_discarding,
            is_moving_robber: self.prev_flags.is_moving_robber,
            is_road_building: self.prev_flags.is_road_building,
            free_roads_available: self.prev_free_roads_available,
            is_resolving_trade: self.prev_flags.is_resolving_trade,
            current_trade: self.prev_trade,
            trade_offering_player: self.prev_trade_offering_player,
            acceptees: self.prev_acceptees,
            trade_offered_this_turn: self.prev_trade_offered_this_turn,
            num_turns: self.prev_num_turns,
            last_initial_settlement: self.prev_last_initial_settlement,
        }
    }

    /// The longest-road standing from before the decision.
    pub closed spec fn recorded_roads(&self) -> RoadState {
        self.prev_road_state
    }

    /// The largest-army standing from before the decision.
    pub closed spec fn recorded_army(&self) -> ArmyState {
        self.prev_army_state
    }

    /// Writing the log back onto `now` gives the recorded roads, buildings, hands and bank.
    pub closed spec fn undoes(&self, now: State) -> bool {
        &&& self.log_ok()
        &&& undo_roads(now.edge_owner, self.state_delta.road_log()) == self.pre_edge_owner
        &&& undo_buildings(now.node_owner, now.node_level, self.state_delta.building_log()) == (
            self.pre_node_owner,
            self.pre_node_level,
        )
        &&& undo_hands(now.player_resources, self.state_delta.resource_log()) == self.pre_player_resources
        &&& undo_bank(now.bank_resources, self.state_delta.bank_log()) == self.pre_bank_resources
    }

    /// The state that undoing the record on `now` gives: the logged pieces and counts written back onto `now`,
    /// and every other part of the state as recorded.
    pub closed spec fn reverted(&self, now: State) -> State {
        let written = undone(now, self.state_delta);
        State {
            edge_owner: written.edge_owner,
            node_owner: written.node_owner,
            node_level: written.node_level,
            player_resources: written.player_resources,
            bank_resources: written.bank_resources,
            ..self.recorded_state()
        }
    }

    /// Records the state and the standings, with an empty log.
    fn begin(&mut self, state: &State, road_state: &RoadState, army_state: &ArmyState)
        ensures
            final(self).recorded_state() == *state,
            final(self).recorded_roads() == *road_state,
            final(self).recorded_army() == *army_state,
            final(self).state_delta.wf(),
            final(self).state_delta.is_empty(),
    {
        self.state_delta.reset();
        self.prev_road_state = *road_state;
        self.prev_army_state = *army_state;
        self.prev_prompt = state.current_prompt;
        self.prev_turn_phase = state.turn_phase;
        self.prev_active_player = state.active_player;
        self.prev_turn_player = state.turn_player;
        self.prev_robber_tile = state.robber_tile;
        self.prev_flags = snapshot_flags(state);
        self.prev_has_rolled = state.has_rolled;
        self.prev_has_played_dev = state.has_played_dev;
        self.prev_dev_owned_at_start = state.dev_owned_at_start;
        self.prev_free_roads_available = state.free_roads_available;
        self.prev_trade = state.current_trade;
        self.prev_acceptees = state.acceptees;
        self.prev_trade_offering_player = state.trade_offering_player;
        self.prev_trade_offered_this_turn = state.trade_offered_this_turn;
        self.prev_road_components = state.road_components;
        self.prev_dev_deck = state.dev_deck;
        self.prev_dev_cards_in_hand = state.dev_cards_in_hand;
        self.prev_dev_cards_played = state.dev_cards_played;
        self.prev_num_turns = state.num_turns;
        self.prev_last_initial_settlement = state.last_initial_settlement;
        self.pre_edge_owner = state.edge_owner;
        self.pre_node_owner = state.node_owner;
        self.pre_node_level = state.node_level;
        self.pre_player_resources = state.player_resources;
        self.pre_bank_resources = state.bank_resources;
    }

    /// Logs what differs between the recorded state and `state`: roads, buildings, hands, bank, turn and robber.
    /// At most the edge `edge` and the node `node` may have changed.
    fn record_core_diffs(&mut self, state: &State, Ghost(edge): Ghost<int>, Ghost(node): Ghost<int>)
        requires
            old(self).state_delta.wf(),
            old(self).state_delta.is_empty(),
            other_edges_kept(*state, old(self).recorded_state(), edge),
            other_nodes_kept(*state, old(self).recorded_state(), node),
        ensures
            final(self).recorded_state() == old(self).recorded_state(),
            final(self).recorded_roads() == old(self).recorded_roads(),
            final(self).recorded_army() == old(self).recorded_army(),
            final(self).undoes(*state),
    {
        let pre_edges = self.pre_edge_owner;
        let pre_owners = self.pre_node_owner;
        let pre_levels = self.pre_node_level;
        let pre_hands = self.pre_player_resources;
        let pre_bank = self.pre_bank_resources;
        record_edge_diffs(&mut self.state_delta, &pre_edges, &state.edge_owner, Ghost(edge));
        record_node_diffs(&mut self.state_delta, &pre_owners, &pre_levels, &state.node_owner, &state.node_level, Ghost(node));
        record_hand_diffs(&mut self.state_delta, &pre_hands, &state.player_resources);
        record_bank_diffs(&mut self.state_delta, &pre_bank, &state.bank_resources);
        if self.prev_turn_player != state.turn_player || self.prev_turn_phase != state.turn_phase {
            self.state_delta.record_turn(self.prev_turn_player, self.prev_turn_phase);
        }
        if self.prev_robber_tile != state.robber_tile {
            self.state_delta.record_robber(self.prev_robber_tile);
        }
    }
}

/// Undoing a full record on the state it was taken for gives back the state from before the decision.
pub proof fn lemma_reversible_round_trip(delta: DecisionDelta, now: State)
    requires
        delta.undoes(now),
    ensures
        delta.reverted(now) == delta.recorded_state(),
{
}

/// Applies `action` as `apply_value_action_kernel` does, and records in `decision_delta` what undoes it.
pub fn apply_value_action_reversible(
    board: &Board,
    state: &mut State,
    road_state: &mut RoadState,
    army_state: &mut ArmyState,
    action: &ValueAction,
    rng: &mut Pcg64,
    decision_delta: &mut DecisionDelta,
)
    requires
        board.wf(),
        step_ready(*old(state)),
        old(road_state).wf(),
        old(army_state).wf(),
        value_action_applicable(*old(state), *action),
    ensures
        final(road_state).wf(),
        final(army_state).wf(),
        totals_kept(*final(state), *old(state)),
        value_action_done(
            *board,
            *final(state),
            *old(state),
            *final(road_state),
            *old(road_state),
            *final(army_state),
            *old(army_state),
            *action,
            old(rng).spec_state(),
            old(rng).spec_increment(),
        ),
        final(rng).spec_state() == rng_after_action(*old(state), *action, old(rng).spec_state(), old(rng).spec_increment()),
        final(rng).spec_increment() == old(rng).spec_increment(),
        final(decision_delta).recorded_state() == *old(state),
        final(decision_delta).recorded_roads() == *old(road_state),
        final(decision_delta).recorded_army() == *old(army_state),
        final(decision_delta).undoes(*final(state)),
        final(decision_delta).log_ok(),
{
    decision_delta.begin(state, road_state, army_state);
    let ghost before = *state;
    let ghost before_roads = *road_state;
    let ghost before_army = *army_state;
    let ghost rng_state = rng.spec_state();
    let ghost increment = rng.spec_increment();
    apply_value_action_kernel(board, state, road_state, army_state, action, rng);
    proof {
        lemma_pieces_touched(*board, *state, before, *road_state, before_roads, *army_state, before_army, *action, rng_state, increment);
    }
    decision_delta.record_core_diffs(state, Ghost(touched_edge(*action)), Ghost(touched_node(*action)));
}

/// Undoes `decision_delta` on the state and the standings: writes its log back and restores everything else it
/// recorded.
pub fn undo_value_action_reversible(
    state: &mut State,
    road_state: &mut RoadState,
    army_state: &mut ArmyState,
    decision_delta: &DecisionDelta,
)
    requires
        decision_delta.log_ok(),
    ensures
        *final(state) == decision_delta.reverted(*old(state)),
        decision_delta.undoes(*old(state)) ==> *final(state) == decision_delta.recorded_state(),
        *final(road_state) == decision_delta.recorded_roads(),
        *final(army_state) == decision_delta.recorded_army(),
{
    proof {
        if decision_delta.undoes(*state) {
            lemma_reversible_round_trip(*decision_delta, *state);
        }
    }
    state.undo(&decision_delta.state_delta);
    *road_state = decision_delta.prev_road_state;
    *army_state = decision_delta.prev_army_state;
    state.current_prompt = decision_delta.prev_prompt;
    state.turn_phase = decision_delta.prev_turn_phase;
    state.active_player = decision_delta.prev_active_player;
    state.turn_player = decision_delta.prev_turn_player;
    state.robber_tile = decision_delta.prev_robber_tile;
    restore_flags(state, decision_delta.prev_flags);
    state.has_rolled = decision_delta.prev_has_rolled;
    state.has_played_dev = decision_delta.prev_has_played_dev;
    state.dev_owned_at_start = decision_delta.prev_dev_owned_at_start;
    state.free_roads_available = decision_delta.prev_free_roads_available;
    state.current_trade = decision_delta.prev_trade;
    state.acceptees = decision_delta.prev_acceptees;
    state.trade_offering_player = decision_delta.prev_trade_offering_player;
    state.trade_offered_this_turn = decision_delta.prev_trade_offered_this_turn;
    state.road_components = decision_delta.prev_road_components;
    state.dev_deck = decision_delta.prev_dev_deck;
    state.dev_cards_in_hand = decision_delta.prev_dev_cards_in_hand;
    state.dev_cards_played = decision_delta.prev_dev_cards_played;
    state.num_turns = decision_delta.prev_num_turns;
    state.last_initial_settlement = decision_delta.prev_last_initial_settlement;
}

/// Which record undoes the last move tried.
#[derive(Copy, Clone, Debug, PartialEq, Eq, Structural)]
pub enum RollbackMode {
    Full,
    NonStructural,
    Lightweight,
}

/// A scratch copy of the state and standings on which a player tries its moves one after another, each undone
/// by the cheapest record that covers it.
pub struct DecideEvalContext {
    scratch_state: State,
    scratch_road_state: RoadState,
    scratch_army_state: ArmyState,
    lightweight_delta: LightweightDecisionDelta,
    non_structural_delta: NonStructuralDecisionDelta,
    decision_delta: DecisionDelta,
    rollback_mode: RollbackMode,
}

impl DecideEvalContext {
    pub fn new(state: &State, road_state: &RoadState, army_state: &ArmyState) -> (eval: Self)
        ensures
            eval.scratch().0 == *state,
            eval.scratch().1 == *road_state,
            eval.scratch().2 == *army_state,
            eval.rollback_ready(),
    {
        Self {
            scratch_state: *state,
            scratch_road_state: *road_state,
            scratch_army_state: *army_state,
            lightweight_delta: LightweightDecisionDelta::new(),
            non_structural_delta: NonStructuralDecisionDelta::new(),
            decision_delta: DecisionDelta::new(),
            rollback_mode: RollbackMode::Full,
        }
    }

    /// The scratch state and standings.
    pub closed spec fn scratch(&self) -> (State, RoadState, ArmyState) {
        (self.scratch_state, self.scratch_road_state, self.scratch_army_state)
    }

    /// The scratch state.
    pub fn scratch_state(&self) -> (state: &State)
        ensures
            *state == self.scratch().0,
    {
        &self.scratch_state
    }

    /// The scratch longest-road standing.
    pub fn scratch_road_state(&self) -> (road_state: &RoadState)
        ensures
            *road_state == self.scratch().1,
    {
        &self.scratch_road_state
    }

    /// The scratch largest-army standing.
    pub fn scratch_army_state(&self) -> (army_state: &ArmyState)
        ensures
            *army_state == self.scratch().2,
    {
        &self.scratch_army_state
    }

    /// The record in use can be written back.
    pub closed spec fn rollback_ready(&self) -> bool {
        match self.rollback_mode {
            RollbackMode::Lightweight => self.lightweight_delta.in_range(),
            RollbackMode::NonStructural => true,
            RollbackMode::Full => self.decision_delta.log_ok(),
        }
    }

    /// The state and standings that rolling back gives.
    pub closed spec fn rollback_target(&self) -> (State, RoadState, ArmyState) {
        match self.rollback_mode {
            RollbackMode::Lightweight => (
                self.lightweight_delta.restored(self.scratch_state),
                self.lightweight_delta.prev_road_state,
                self.scratch_army_state,
            ),
            RollbackMode::NonStructural => (
                self.non_structural_delta.restored(self.scratch_state),
                self.non_structural_delta.prev_road_state,
                self.non_structural_delta.prev_army_state,
            ),
            RollbackMode::Full => (
                self.decision_delta.reverted(self.scratch_state),
                self.decision_delta.recorded_roads(),
                self.decision_delta.recorded_army(),
            ),
        }
    }

    /// Tries `action` on the scratch state, recording what undoes it. Rolling back then gives the scratch state
    /// and standings from before, except after an opening settlement of a player other than the one to act,
    /// whose hand the cheap record of a build does not hold.
    pub fn apply(&mut self, board: &Board, action: &ValueAction, rng: &mut Pcg64)
        requires
            board.wf(),
            step_ready(old(self).scratch().0),
            old(self).scratch().1.wf(),
            old(self).scratch().2.wf(),
            value_action_applicable(old(self).scratch().0, *action),
        ensures
            final(self).scratch().1.wf(),
            final(self).scratch().2.wf(),
            value_action_done(
                *board,
                final(self).scratch().0,
                old(self).scratch().0,
                final(self).scratch().1,
                old(self).scratch().1,
                final(self).scratch().2,
                old(self).scratch().2,
                *action,
                old(rng).spec_state(),
                old(rng).spec_increment(),
            ),
            final(rng).spec_state() == rng_after_action(
                old(self).scratch().0,
                *action,
                old(rng).spec_state(),
                old(rng).spec_increment(),
            ),
            final(rng).spec_increment() == old(rng).spec_increment(),
            final(self).rollback_ready(),
            (opening_settlement_turn(old(self).scratch().0) && action.kind is BuildSettlement ==> action.player
                == old(self).scratch().0.active_player) ==> final(self).rollback_target() == old(self).scratch(),
    {
        let ghost before = self.scratch_state;
        let ghost before_roads = self.scratch_road_state;
        let ghost before_army = self.scratch_army_state;
        let ghost rng_state = rng.spec_state();
        let ghost increment = rng.spec_increment();
        if self.lightweight_delta.capture_for_action(&self.scratch_state, &self.scratch_road_state, action) {
            apply_value_action_kernel(
                board,
                &mut self.scratch_state,
                &mut self.scratch_road_state,
                &mut self.scratch_army_state,
                action,
                rng,
            );
            self.rollback_mode = RollbackMode::Lightweight;
            proof {
                if opening_settlement_turn(before) && action.kind is BuildSettlement ==> action.player == before.active_player {
                    lemma_lightweight_rollback(
                        *board,
                        before,
                        before_roads,
                        before_army,
                        self.scratch_state,
                        self.scratch_road_state,
                        self.scratch_army_state,
                        *action,
                        rng_state,
                        increment,
                        self.lightweight_delta,
                    );
                }
            }
            return;
        }
        if action_is_non_structural(&action.kind) {
            self.non_structural_delta.begin(&self.scratch_state, &self.scratch_road_state, &self.scratch_army_state);
            apply_value_action_kernel(
                board,
                &mut self.scratch_state,
                &mut self.scratch_road_state,
                &mut self.scratch_army_state,
                action,
                rng,
            );
            self.rollback_mode = RollbackMode::NonStructural;
            proof {
                lemma_non_structural_rollback(
                    *board,
                    before,
                    before_roads,
                    before_army,
                    self.scratch_state,
                    self.scratch_road_state,
                    self.scratch_army_state,
                    *action,
                    rng_state,
                    increment,
                    self.non_structural_delta,
                );
            }
            return;
        }
        apply_value_action_reversible(
            board,
            &mut self.scratch_state,
            &mut self.scratch_road_state,
            &mut self.scratch_army_state,
            action,
            rng,
            &mut self.decision_delta,
        );
        self.rollback_mode = RollbackMode::Full;
        proof {
            lemma_reversible_round_trip(self.decision_delta, self.scratch_state);
        }
    }

    /// Undoes the last move tried with the record it was tried with.
    pub fn rollback(&mut self)
        requires
            old(self).rollback_ready(),
        ensures
            final(self).scratch() == old(self).rollback_target(),
            final(self).rollback_ready(),
    {
        match self.rollback_mode {
            RollbackMode::Full => {
                undo_value_action_reversible(
                    &mut self.scratch_state,
                    &mut self.scratch_road_state,
                    &mut self.scratch_army_state,
                    &self.decision_delta,
                );
            },
            RollbackMode::Lightweight => {
                self.lightweight_delta.undo(&mut self.scratch_state, &mut self.scratch_road_state);
            },
            RollbackMode::NonStructural => {
                self.non_structural_delta.undo(
                    &mut self.scratch_state,
                    &mut self.scratch_road_state,
                    &mut self.scratch_army_state,
                );
            },
        }
    }
}

/// Trying a move and rolling it back leaves the scratch state and standings as they were (apart from an
/// opening settlement of a player other than the one to act).
pub proof fn lemma_apply_then_rollback(before: DecideEvalContext, applied: DecideEvalContext, rolled: DecideEvalContext)
    requires
        applied.rollback_target() == before.scratch(),
        rolled.scratch() == applied.rollback_target(),
    ensures
        rolled.scratch() == before.scratch(),
{
}

} // verus!
