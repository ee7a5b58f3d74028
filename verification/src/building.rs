use vstd::prelude::*;

use crate::board::Board;
use crate::engine::{
    advance_turn, advanced_turn, bank_draw, cost_paid, draw_from_bank, pay_cost, resource_total, resources_bounded, totals_kept,
    RoadState,
};
use crate::roads::{
    components_after_road, components_have_room, cut_players, lengths_after_plow, longest_road_owner, road_after_build,
    spec_longest_road, update_components_on_build_road, update_components_on_build_settlement,
    update_longest_road_after_build_road, update_longest_road_after_plow,
};
use crate::rules::{building_count, enemy_building_at, CITY_COST, ROAD_COST, SETTLEMENT_COST};
use crate::state::{is_player, spec_node_mask, State, MAX_ROAD_COMPONENTS};
use crate::types::{
    resource_index, ActionPrompt, BuildingLevel, EdgeId, NodeId, PlayerId, TurnPhase, EDGE_COUNT, INVALID_TILE,
    NODE_COUNT, PLAYER_COUNT, RESOURCE_COUNT,
};
use vstd::array::spec_array_update;

verus! {

/// The draw for the `k`-th tile around `node`: one card of its resource from the bank, when it has a resource.
pub open spec fn tile_draw(board: Board, s: State, player: int, node: NodeId, k: int) -> State {
    let t = board.node_tiles@[node as int]@[k];
    if t == INVALID_TILE {
        s
    } else {
        match board.tile_resources@[t as int] {
            Some(res) => bank_draw(s, player, resource_index(res)),
            None => s,
        }
    }
}

/// The draws for a second opening settlement: one card for each resource tile around `node`, in tile order.
pub open spec fn opening_draws(board: Board, s: State, player: int, node: NodeId) -> State {
    tile_draw(board, tile_draw(board, tile_draw(board, s, player, node, 0), player, node, 1), player, node, 2)
}

/// The state after the acting player places an opening settlement on `node`, before any draw: the building,
/// the node remembered for its road, and a new road network at the node.
pub open spec fn opening_settlement_placed(new: State, old: State, node: NodeId) -> bool {
    let player = old.active_player;
    let placed = old.with_building(node as int, player, BuildingLevel::Settlement);
    &&& new.road_components@[player as int]@ == old.road_components@[player as int]@.push(spec_node_mask(node))
    &&& old.road_components@[player as int].canonical() ==> new.road_components@[player as int].canonical()
    &&& forall|q: int| 0 <= q < PLAYER_COUNT && q != player ==> #[trigger] new.road_components@[q] == old.road_components@[q]
    &&& new == (State {
        last_initial_settlement: spec_array_update(old.last_initial_settlement, player as int, node),
        road_components: new.road_components,
        ..placed
    })
}

/// `new` is `old` after the acting player places an opening settlement on `node`, with the draws of a second one,
/// and is asked for its road.
pub open spec fn opening_settlement_done(board: Board, new: State, old: State, node: NodeId) -> bool {
    exists|placed: State|
        {
            &&& opening_settlement_placed(placed, old, node)
            &&& new == opening_finish(board, placed, old, node)
        }
}

/// The state after an opening settlement is placed on `placed`: the draws of a second one, and the prompt for its
/// road.
#[verifier::opaque]
pub open spec fn opening_finish(board: Board, placed: State, old: State, node: NodeId) -> State {
    State {
        current_prompt: ActionPrompt::BuildInitialRoad,
        ..if building_count(placed, old.active_player, BuildingLevel::Settlement) == 2 {
            opening_draws(board, placed, old.active_player as int, node)
        } else {
            placed
        }
    }
}

/// Finishing an opening settlement leaves the road networks and the deck as placed.
pub proof fn lemma_opening_finish_keeps(board: Board, placed: State, old: State, node: NodeId)
    ensures
        opening_finish(board, placed, old, node).road_components == placed.road_components,
        opening_finish(board, placed, old, node).dev_deck == placed.dev_deck,
{
    reveal(opening_finish);
}

#[verifier::spinoff_prover]
#[verifier::rlimit(80)]
pub(crate) fn apply_initial_settlement(board: &Board, state: &mut State, road_state: &mut RoadState, node: NodeId)
    requires
        board.wf(),
        old(state).wf(),
        (node as int) < NODE_COUNT,
        resources_bounded(*old(state)),
        components_have_room(*old(state)),
    ensures
        opening_settlement_done(*board, *final(state), *old(state), node),
        final(state).num_turns == old(state).num_turns,
        resources_bounded(*final(state)),
        final(state).wf(),
        *final(road_state) == *old(road_state),
        totals_kept(*final(state), *old(state)),
{
    let player = state.active_player;
    state.set_building_kernel(node, player, BuildingLevel::Settlement);
    state.last_initial_settlement[player as usize] = node;
    let mut comps = state.road_components[player as usize];
    proof {
        assert(comps@.len() + 2 <= MAX_ROAD_COMPONENTS);
    }
    comps.push_singleton(node);
    state.road_components[player as usize] = comps;
    let ghost placed = *state;
    proof {
        assert(forall|r: int| 0 <= r < RESOURCE_COUNT ==> #[trigger] resource_total(placed, r) == resource_total(*old(state), r));
        assert(opening_settlement_placed(placed, *old(state), node));
    }
    proof {
        assert forall|r: int| 0 <= r < RESOURCE_COUNT implies #[trigger] resource_total(placed, r) <= 127 by {
            assert(resource_total(placed, r) == resource_total(*old(state), r));
        }
    }
    let count = crate::rules::player_settlement_count(state, player);
    if count == 2 {
        let mut k: usize = 0;
        while k < 3
            invariant
                k <= 3,
                board.wf(),
                is_player(player),
                (node as int) < NODE_COUNT,
                resources_bounded(*state),
                totals_kept(*state, placed),
                *state == if k == 0 {
                    placed
                } else if k == 1 {
                    tile_draw(*board, placed, player as int, node, 0)
                } else if k == 2 {
                    tile_draw(*board, tile_draw(*board, placed, player as int, node, 0), player as int, node, 1)
                } else {
                    opening_draws(*board, placed, player as int, node)
                },
            decreases 3 - k,
        {
            let tile = board.node_tiles[node as usize][k];
            if tile != INVALID_TILE {
                if let Some(resource) = board.tile_resources[tile as usize] {
                    draw_from_bank(state, player, resource);
                }
            }
            k = k + 1;
        }
    }
    let ghost drawn = *state;
    state.current_prompt = ActionPrompt::BuildInitialRoad;
    proof {
        let finished = State {
            current_prompt: ActionPrompt::BuildInitialRoad,
            ..if building_count(placed, old(state).active_player, BuildingLevel::Settlement) == 2 {
                opening_draws(*board, placed, old(state).active_player as int, node)
            } else {
                placed
            }
        };
        assert(opening_finish(*board, placed, *old(state), node) == finished) by {
            reveal(opening_finish);
        }
        assert(*state == finished);
        assert(state.wf());
        assert forall|r: int| 0 <= r < RESOURCE_COUNT implies #[trigger] resource_total(*state, r) == resource_total(*old(state), r) by {
            assert(resource_total(*state, r) == resource_total(drawn, r));
            assert(resource_total(drawn, r) == resource_total(placed, r));
        }
    }
}


/// The number of settlements, of any player, on the first `n` nodes.
pub open spec fn settlements_upto(s: State, n: int) -> nat
    decreases n,
{
    if n <= 0 {
        0
    } else {
        settlements_upto(s, n - 1) + if s.node_level@[n - 1] == BuildingLevel::Settlement {
            1nat
        } else {
            0nat
        }
    }
}

proof fn lemma_settlements_upto_bound(s: State, n: int)
    requires
        0 <= n,
    ensures
        settlements_upto(s, n) <= n,
    decreases n,
{
    if n > 0 {
        lemma_settlements_upto_bound(s, n - 1);
    }
}

fn total_settlement_count(state: &State) -> (count: u8)
    ensures
        count == settlements_upto(*state, NODE_COUNT as int),
{
    let mut count: u8 = 0;
    let mut n: usize = 0;
    while n < NODE_COUNT
        invariant
            n <= NODE_COUNT,
            count == settlements_upto(*state, n as int),
        decreases NODE_COUNT - n,
    {
        proof {
            lemma_settlements_upto_bound(*state, n as int);
        }
        if state.node_level[n] == BuildingLevel::Settlement {
            count = count + 1;
        }
        n = n + 1;
    }
    count
}

/// The opening order after a road, with `n` settlements on the board: on to the next seat while fewer than
/// one each, the last seat again at one each, the game proper at two each, else back one seat.
pub open spec fn opening_next(s: State, n: nat) -> State {
    if n < PLAYER_COUNT {
        State { current_prompt: ActionPrompt::BuildInitialSettlement, ..advanced_turn(s, 1) }
    } else if n == PLAYER_COUNT {
        State { current_prompt: ActionPrompt::BuildInitialSettlement, ..s }
    } else if n == 2 * PLAYER_COUNT {
        State { is_initial_build_phase: false, current_prompt: ActionPrompt::PlayTurn, turn_phase: TurnPhase::Roll, ..s }
    } else {
        State { current_prompt: ActionPrompt::BuildInitialSettlement, ..advanced_turn(s, -1i8) }
    }
}

/// `new` is `old` with `player`'s road on `edge` and its networks updated for it.
pub open spec fn road_laid(board: Board, new: State, old: State, player: PlayerId, edge: EdgeId) -> bool {
    let a = board.edge_nodes@[edge as int]@[0];
    let b = board.edge_nodes@[edge as int]@[1];
    &&& new == (State { road_components: new.road_components, ..old.with_edge_owner(edge as int, player) })
    &&& forall|q: int| 0 <= q < PLAYER_COUNT && q != player ==> #[trigger] new.road_components@[q] == old.road_components@[q]
    &&& old.road_components@[player as int].canonical() ==> new.road_components@[player as int].canonical()
    &&& new.road_components@[player as int]@ == components_after_road(
        old.road_components@[player as int]@,
        a,
        b,
        enemy_building_at(old, a, player),
        enemy_building_at(old, b, player),
    )
}

/// Lays `player`'s road on `edge` and updates its networks and the longest-road standing.
fn lay_road(board: &Board, state: &mut State, road_state: &mut RoadState, player: PlayerId, edge: EdgeId)
    requires
        board.wf(),
        is_player(player),
        (edge as int) < EDGE_COUNT,
        old(road_state).wf(),
    ensures
        road_laid(*board, *final(state), *old(state), player, edge),
        final(road_state).wf(),
        (final(road_state).lengths_view(), final(road_state).owner_view(), final(road_state).length_view()) == road_after_build(
            *old(road_state),
            player,
            spec_longest_road(*board, *final(state), player) as u8,
        ),
{
    state.set_road_owner_kernel(edge, player);
    let ghost roaded = *state;
    update_components_on_build_road(board, state, player, edge);
    proof {
        assert(enemy_building_at(roaded, board.edge_nodes@[edge as int]@[0], player) == enemy_building_at(
            *old(state),
            board.edge_nodes@[edge as int]@[0],
            player,
        ));
    }
    update_longest_road_after_build_road(board, state, road_state, player);
}

/// `new` is `old` after the acting player lays its opening road on `edge` and the opening order moves on.
pub open spec fn opening_road_done(board: Board, new: State, old: State, new_roads: RoadState, old_roads: RoadState, edge: EdgeId) -> bool {
    exists|laid: State|
        {
            &&& road_laid(board, laid, old, old.active_player, edge)
            &&& new == opening_next(laid, settlements_upto(old, NODE_COUNT as int))
            &&& (new_roads.lengths_view(), new_roads.owner_view(), new_roads.length_view())
                == road_after_build(old_roads, old.active_player, spec_longest_road(board, laid, old.active_player) as u8)
        }
}

pub(crate) fn apply_initial_road(board: &Board, state: &mut State, road_state: &mut RoadState, edge: EdgeId)
    requires
        board.wf(),
        old(state).wf(),
        (edge as int) < EDGE_COUNT,
        old(state).num_turns < u32::MAX,
        old(road_state).wf(),
    ensures
        opening_road_done(*board, *final(state), *old(state), *final(road_state), *old(road_state), edge),
        final(state).wf(),
        final(road_state).wf(),
        totals_kept(*final(state), *old(state)),
{
    let player = state.active_player;
    lay_road(board, state, road_state, player, edge);
    let ghost laid = *state;
    let num_buildings = total_settlement_count(state);
    proof {
        assert(settlements_upto(laid, NODE_COUNT as int) == settlements_upto(*old(state), NODE_COUNT as int)) by {
            lemma_settlements_same(laid, *old(state), NODE_COUNT as int);
        }
    }
    let num_players = PLAYER_COUNT as u8;
    if num_buildings < num_players {
        advance_turn(state, 1);
        state.current_prompt = ActionPrompt::BuildInitialSettlement;
    } else if num_buildings == num_players {
        state.current_prompt = ActionPrompt::BuildInitialSettlement;
    } else if num_buildings == 2 * num_players {
        state.is_initial_build_phase = false;
        state.current_prompt = ActionPrompt::PlayTurn;
        state.turn_phase = TurnPhase::Roll;
    } else {
        advance_turn(state, -1);
        state.current_prompt = ActionPrompt::BuildInitialSettlement;
    }
    proof {
        assert(*state == opening_next(laid, settlements_upto(*old(state), NODE_COUNT as int)));
        assert(road_laid(*board, laid, *old(state), old(state).active_player, edge));
    }
}

proof fn lemma_settlements_same(a: State, b: State, n: int)
    requires
        a.node_level == b.node_level,
    ensures
        settlements_upto(a, n) == settlements_upto(b, n),
    decreases n,
{
    if n > 0 {
        lemma_settlements_same(a, b, n - 1);
    }
}

/// `new` is `old` after `player` pays for a city and builds it on `node`.
pub open spec fn city_built(new: State, old: State, player: PlayerId, node: NodeId) -> bool {
    let paid = State { player_resources: new.player_resources, bank_resources: new.bank_resources, ..old };
    &&& cost_paid(paid, old, player as int, CITY_COST)
    &&& new == paid.with_building(node as int, player, BuildingLevel::City)
    
}

pub(crate) fn apply_build_city(board: &Board, state: &mut State, player: PlayerId, node: NodeId)
    requires
        is_player(player),
        (node as int) < NODE_COUNT,
        resources_bounded(*old(state)),
        forall|r: int| 0 <= r < RESOURCE_COUNT ==> #[trigger] old(state).player_resources@[player as int]@[r] >= CITY_COST@[r],
    ensures
        city_built(*final(state), *old(state), player, node),
        resources_bounded(*final(state)),
        forall|r: int| 0 <= r < RESOURCE_COUNT ==> #[trigger] resource_total(*final(state), r) == resource_total(*old(state), r),
{
    let cost = CITY_COST;
    proof {
        assert forall|r: int| 0 <= r < RESOURCE_COUNT implies #[trigger] crate::engine::hand_at(*old(state), player as int, r) >= cost@[r] by {
            assert(old(state).player_resources@[player as int]@[r] >= CITY_COST@[r]);
        }
    }
    pay_cost(state, player, &cost);
    let ghost paid = *state;
    state.set_building_kernel(node, player, BuildingLevel::City);
    proof {
        assert forall|r: int| 0 <= r < RESOURCE_COUNT implies #[trigger] resource_total(*state, r) == resource_total(*old(state), r) by {
            assert(resource_total(*state, r) == resource_total(paid, r));
        }
    }
}


/// `new` is `old` after `player` pays for a settlement and builds it on `node`: the network of each player whose
/// road it cuts is split in two at the node, and the longest-road standing is recomputed.
pub open spec fn settlement_built(board: Board, new: State, old: State, new_roads: RoadState, old_roads: RoadState, player: PlayerId, node: NodeId) -> bool {
    let paid = State { player_resources: new.player_resources, bank_resources: new.bank_resources, ..old };
    let built = paid.with_building(node as int, player, BuildingLevel::Settlement);
    let cut = cut_players(board, built, node, player, PLAYER_COUNT as int);
    &&& cost_paid(paid, old, player as int, SETTLEMENT_COST)
    &&& new == (State { road_components: new.road_components, ..built })
    &&& forall|q: int|
        0 <= q < PLAYER_COUNT && old.road_components@[q].canonical() ==> #[trigger] new.road_components@[q].canonical()
    &&& forall|q: int|
        0 <= q < PLAYER_COUNT && !crate::roads::road_cut(board, built, node, player, q) ==> #[trigger] new.road_components@[q]
            == old.road_components@[q]
    &&& forall|q: int|
        0 <= q < PLAYER_COUNT && crate::roads::road_cut(board, built, node, player, q) ==> crate::roads::networks_split(
            board,
            built,
            q as PlayerId,
            node,
            crate::roads::road_ends_upto(board, built, node, q, 3)[0],
            crate::roads::road_ends_upto(board, built, node, q, 3)[1],
            old.road_components@[q]@,
            #[trigger] new.road_components@[q]@,
        )
    &&& cut.len() == 0 ==> new_roads == old_roads
    &&& cut.len() != 0 ==> {
        &&& new_roads.lengths_view() == lengths_after_plow(board, new, old_roads.lengths_view(), cut)
        &&& (new_roads.owner_view(), new_roads.length_view()) == longest_road_owner(
            new_roads.lengths_view(),
            old_roads.owner_view(),
        )
    }
    
}

pub(crate) fn apply_build_settlement(board: &Board, state: &mut State, road_state: &mut RoadState, player: PlayerId, node: NodeId)
    requires
        board.wf(),
        old(state).wf(),
        is_player(player),
        (node as int) < NODE_COUNT,
        resources_bounded(*old(state)),
        components_have_room(*old(state)),
        old(road_state).wf(),
        forall|r: int| 0 <= r < RESOURCE_COUNT ==> #[trigger] old(state).player_resources@[player as int]@[r] >= SETTLEMENT_COST@[r],
    ensures
        settlement_built(*board, *final(state), *old(state), *final(road_state), *old(road_state), player, node),
        final(state).wf(),
        final(road_state).wf(),
        resources_bounded(*final(state)),
        forall|r: int| 0 <= r < RESOURCE_COUNT ==> #[trigger] resource_total(*final(state), r) == resource_total(*old(state), r),
{
    let cost = SETTLEMENT_COST;
    proof {
        assert forall|r: int| 0 <= r < RESOURCE_COUNT implies #[trigger] crate::engine::hand_at(*old(state), player as int, r) >= cost@[r] by {
            assert(old(state).player_resources@[player as int]@[r] >= SETTLEMENT_COST@[r]);
        }
    }
    pay_cost(state, player, &cost);
    let ghost paid = *state;
    state.set_building_kernel(node, player, BuildingLevel::Settlement);
    let ghost built = *state;
    let previous_owner = road_state.owner;
    let plowed = update_components_on_build_settlement(board, state, player, node);
    proof {
        assert forall|i: int| 0 <= i < plowed@.len() implies is_player(#[trigger] plowed@[i]) by {
            lemma_cut_players_are_players(*board, built, node, player, PLAYER_COUNT as int, i);
        }
    }
    if plowed.len() != 0 {
        update_longest_road_after_plow(board, state, road_state, plowed.as_slice(), previous_owner);
    }
    proof {
        assert forall|r: int| 0 <= r < RESOURCE_COUNT implies #[trigger] resource_total(*state, r) == resource_total(*old(state), r) by {
            assert(resource_total(*state, r) == resource_total(paid, r));
        }
    }
}

proof fn lemma_cut_players_are_players(board: Board, s: State, node: NodeId, player: PlayerId, n: int, i: int)
    requires
        0 <= n <= PLAYER_COUNT,
        0 <= i < cut_players(board, s, node, player, n).len(),
    ensures
        is_player(cut_players(board, s, node, player, n)[i]),
    decreases n,
{
    if n > 0 {
        if crate::roads::road_cut(board, s, node, player, n - 1) {
            if i < cut_players(board, s, node, player, n - 1).len() {
                lemma_cut_players_are_players(board, s, node, player, n - 1, i);
            }
        } else {
            lemma_cut_players_are_players(board, s, node, player, n - 1, i);
        }
    }
}

/// `new` is `old` after `player` pays for a road, unless it is `free`, and lays it on `edge`; the longest-road
/// standing takes the player's new length.
pub open spec fn road_built(board: Board, new: State, old: State, new_roads: RoadState, old_roads: RoadState, player: PlayerId, edge: EdgeId, free: bool) -> bool {
    let paid = State { player_resources: new.player_resources, bank_resources: new.bank_resources, ..old };
    &&& free ==> paid == old
    &&& !free ==> cost_paid(paid, old, player as int, ROAD_COST)
    &&& road_laid(board, new, paid, player, edge)
    &&& (new_roads.lengths_view(), new_roads.owner_view(), new_roads.length_view()) == road_after_build(
        old_roads,
        player,
        spec_longest_road(board, new, player) as u8,
    )
    
}

pub(crate) fn apply_build_road(board: &Board, state: &mut State, road_state: &mut RoadState, player: PlayerId, edge: EdgeId, free: bool)
    requires
        board.wf(),
        is_player(player),
        (edge as int) < EDGE_COUNT,
        resources_bounded(*old(state)),
        old(road_state).wf(),
        !free ==> forall|r: int| 0 <= r < RESOURCE_COUNT ==> #[trigger] old(state).player_resources@[player as int]@[r] >= ROAD_COST@[r],
    ensures
        road_built(*board, *final(state), *old(state), *final(road_state), *old(road_state), player, edge, free),
        final(road_state).wf(),
        resources_bounded(*final(state)),
        forall|r: int| 0 <= r < RESOURCE_COUNT ==> #[trigger] resource_total(*final(state), r) == resource_total(*old(state), r),
{
    if !free {
        let cost = ROAD_COST;
        proof {
            assert forall|r: int| 0 <= r < RESOURCE_COUNT implies #[trigger] crate::engine::hand_at(*old(state), player as int, r) >= cost@[r] by {
                assert(old(state).player_resources@[player as int]@[r] >= ROAD_COST@[r]);
            }
        }
        pay_cost(state, player, &cost);
    }
    let ghost paid = *state;
    proof {
        assert(paid == (State { player_resources: paid.player_resources, bank_resources: paid.bank_resources, ..*old(state) }));
    }
    lay_road(board, state, road_state, player, edge);
    proof {
        assert forall|r: int| 0 <= r < RESOURCE_COUNT implies #[trigger] resource_total(*state, r) == resource_total(*old(state), r) by {
            assert(resource_total(*state, r) == resource_total(paid, r));
        }
    }
}

} // verus!
