use vstd::prelude::*;

use crate::board::Board;
use crate::state::{components_hold, is_player, State};
use crate::types::{
    resource_index, BuildingLevel, EdgeId, NodeId, PlayerId, PortType, Resource, TileId,
    EDGE_COUNT, INVALID_EDGE, INVALID_NODE, NODE_COUNT, NO_PLAYER, RESOURCE_COUNT, TILE_COUNT,
};

verus! {

pub const ROAD_COST: [u8; RESOURCE_COUNT] = [1, 1, 0, 0, 0];
pub const SETTLEMENT_COST: [u8; RESOURCE_COUNT] = [1, 1, 0, 1, 1];
pub const CITY_COST: [u8; RESOURCE_COUNT] = [0, 0, 3, 2, 0];
pub const DEV_CARD_COST: [u8; RESOURCE_COUNT] = [0, 0, 1, 1, 1];
pub const MAX_ROADS: u8 = 15;
pub const MAX_SETTLEMENTS: u8 = 5;
pub const MAX_CITIES: u8 = 4;

/// The player holds at least `cost` of every resource.
pub open spec fn can_afford(state: State, player: PlayerId, cost: [u8; RESOURCE_COUNT]) -> bool {
    forall|r: int| 0 <= r < RESOURCE_COUNT ==> #[trigger] state.player_resources@[player as int]@[r] >= cost@[r]
}

/// The end of `edge` that is not `node` (the first end if `node` is neither).
pub open spec fn other_end(board: Board, edge: EdgeId, node: NodeId) -> NodeId {
    let nodes = board.edge_nodes@[edge as int];
    if nodes@[0] == node {
        nodes@[1]
    } else {
        nodes@[0]
    }
}

/// The k-th edge slot of `node` holds an edge.
pub open spec fn edge_slot_used(board: Board, node: NodeId, k: int) -> bool {
    board.node_edges@[node as int]@[k] != INVALID_EDGE
}

/// The neighbours of `node` along its edge slots `0..k`, in slot order.
pub open spec fn neighbours_upto(board: Board, node: NodeId, k: int) -> Seq<NodeId>
    decreases k,
{
    if k <= 0 {
        Seq::empty()
    } else if edge_slot_used(board, node, k - 1) {
        neighbours_upto(board, node, k - 1).push(other_end(board, board.node_edges@[node as int]@[k - 1], node))
    } else {
        neighbours_upto(board, node, k - 1)
    }
}

/// Some neighbour of `node` holds a building.
pub open spec fn adjacent_occupied(board: Board, state: State, node: NodeId) -> bool {
    let neighbours = neighbours_upto(board, node, 3);
    exists|i: int| 0 <= i < neighbours.len() && state.node_owner@[#[trigger] neighbours[i] as int] != NO_PLAYER
}

proof fn lemma_neighbours_in_range(board: Board, node: NodeId, k: int)
    requires
        board.wf(),
        (node as int) < NODE_COUNT,
        0 <= k <= 3,
    ensures
        neighbours_upto(board, node, k).len() <= k,
        forall|i: int|
            0 <= i < neighbours_upto(board, node, k).len() ==> (#[trigger] neighbours_upto(board, node, k)[i] as int)
                < NODE_COUNT,
    decreases k,
{
    if k > 0 {
        lemma_neighbours_in_range(board, node, k - 1);
        if edge_slot_used(board, node, k - 1) {
            let e = board.node_edges@[node as int]@[k - 1];
            assert((board.edge_nodes@[e as int]@[0] as int) < NODE_COUNT);
            assert((board.edge_nodes@[e as int]@[1] as int) < NODE_COUNT);
        }
    }
}

/// Some edge at `node` is owned by `player`.
pub open spec fn has_friendly_road(board: Board, state: State, node: NodeId, player: PlayerId) -> bool {
    exists|k: int|
        0 <= k < 3 && edge_slot_used(board, node, k) && #[trigger] state.edge_owner@[
            board.node_edges@[node as int]@[k] as int
        ] == player
}

/// The number of edges among the first `n` that `player` owns.
pub open spec fn roads_upto(state: State, player: PlayerId, n: int) -> nat
    decreases n,
{
    if n <= 0 {
        0
    } else {
        roads_upto(state, player, n - 1) + if state.edge_owner@[n - 1] == player {
            1nat
        } else {
            0nat
        }
    }
}

/// The number of nodes among the first `n` where `player` has a building of `level`.
pub open spec fn buildings_upto(state: State, player: PlayerId, level: BuildingLevel, n: int) -> nat
    decreases n,
{
    if n <= 0 {
        0
    } else {
        buildings_upto(state, player, level, n - 1) + if state.node_owner@[n - 1] == player
            && state.node_level@[n - 1] == level {
            1nat
        } else {
            0nat
        }
    }
}

pub open spec fn road_count(state: State, player: PlayerId) -> nat {
    roads_upto(state, player, EDGE_COUNT as int)
}

pub open spec fn building_count(state: State, player: PlayerId, level: BuildingLevel) -> nat {
    buildings_upto(state, player, level, NODE_COUNT as int)
}

pub proof fn lemma_roads_upto_bound(state: State, player: PlayerId, n: int)
    requires
        0 <= n,
    ensures
        roads_upto(state, player, n) <= n,
    decreases n,
{
    if n > 0 {
        lemma_roads_upto_bound(state, player, n - 1);
    }
}

pub proof fn lemma_buildings_upto_bound(state: State, player: PlayerId, level: BuildingLevel, n: int)
    requires
        0 <= n,
    ensures
        buildings_upto(state, player, level, n) <= n,
    decreases n,
{
    if n > 0 {
        lemma_buildings_upto_bound(state, player, level, n - 1);
    }
}

/// A road on `edge` is legal for `player`: a road to spare, a free edge, the cost in hand,
/// and an end that one of the player's road networks reaches.
pub open spec fn build_road_allowed(board: Board, state: State, player: PlayerId, edge: EdgeId) -> bool {
    &&& road_count(state, player) < MAX_ROADS
    &&& (edge as int) < EDGE_COUNT
    &&& state.edge_owner@[edge as int] == NO_PLAYER
    &&& can_afford(state, player, ROAD_COST)
    &&& exists|k: int|
        0 <= k < 2 && {
            let n = #[trigger] board.edge_nodes@[edge as int]@[k];
            (n as int) < NODE_COUNT && components_hold(state.road_components@[player as int]@, n as int)
        }
}

/// A settlement on `node` is legal for `player`: a settlement to spare, a free node, the cost in hand,
/// no building next to it, and one of the player's roads at it.
pub open spec fn build_settlement_allowed(board: Board, state: State, player: PlayerId, node: NodeId) -> bool {
    &&& building_count(state, player, BuildingLevel::Settlement) < MAX_SETTLEMENTS
    &&& (node as int) < NODE_COUNT
    &&& state.node_owner@[node as int] == NO_PLAYER
    &&& can_afford(state, player, SETTLEMENT_COST)
    &&& !adjacent_occupied(board, state, node)
    &&& has_friendly_road(board, state, node, player)
}

/// A city on `node` is legal for `player`: a city to spare, the cost in hand, and the player's settlement there.
pub open spec fn build_city_allowed(state: State, player: PlayerId, node: NodeId) -> bool {
    &&& building_count(state, player, BuildingLevel::City) < MAX_CITIES
    &&& (node as int) < NODE_COUNT
    &&& can_afford(state, player, CITY_COST)
    &&& state.node_owner@[node as int] == player
    &&& state.node_level@[node as int] == BuildingLevel::Settlement
}

/// The port type that gives a two-for-one trade on `resource`.
pub open spec fn two_for_one_port(resource: Resource) -> PortType {
    match resource {
        Resource::Brick => PortType::Brick,
        Resource::Lumber => PortType::Lumber,
        Resource::Ore => PortType::Ore,
        Resource::Grain => PortType::Grain,
        Resource::Wool => PortType::Wool,
    }
}

/// `player` has a building on a node with port `port`.
pub open spec fn owns_port(board: Board, state: State, player: PlayerId, port: PortType) -> bool {
    exists|n: int| 0 <= n < NODE_COUNT && #[trigger] board.node_ports@[n] == port && state.node_owner@[n] == player
}

/// How many of `offer` the player gives the bank for one card: 2 with its resource's port, else 3 with a
/// three-for-one port, else 4.
pub open spec fn maritime_rate(board: Board, state: State, player: PlayerId, offer: Resource) -> u8 {
    if owns_port(board, state, player, two_for_one_port(offer)) {
        2
    } else if owns_port(board, state, player, PortType::ThreeToOne) {
        3
    } else {
        4
    }
}

/// A maritime trade of `offer` for `ask` is legal: two different resources, the rate in hand,
/// and the bank holding one `ask`.
pub open spec fn maritime_trade_allowed(board: Board, state: State, player: PlayerId, offer: Resource, ask: Resource) -> bool {
    &&& offer != ask
    &&& state.hand(player, offer) >= maritime_rate(board, state, player, offer)
    &&& state.bank(ask) > 0
}

/// A first settlement on `node` is legal: a free node with no building next to it.
pub open spec fn initial_settlement_allowed(board: Board, state: State, node: NodeId) -> bool {
    &&& (node as int) < NODE_COUNT
    &&& state.node_owner@[node as int] == NO_PLAYER
    &&& !adjacent_occupied(board, state, node)
}

/// A first road on `edge` is legal: a free edge at `anchor`, where no other player has a building.
pub open spec fn initial_road_allowed(board: Board, state: State, player: PlayerId, edge: EdgeId, anchor: NodeId) -> bool {
    &&& (edge as int) < EDGE_COUNT
    &&& state.edge_owner@[edge as int] == NO_PLAYER
    &&& (board.edge_nodes@[edge as int]@[0] == anchor || board.edge_nodes@[edge as int]@[1] == anchor)
    &&& !enemy_building_at(state, anchor, player)
}

/// Another player has a building on `node`.
pub open spec fn enemy_building_at(state: State, node: NodeId, player: PlayerId) -> bool {
    let owner = state.node_owner@[node as int];
    owner != NO_PLAYER && owner != player
}

pub(crate) fn has_resources(state: &State, player: PlayerId, cost: &[u8; RESOURCE_COUNT]) -> (ok: bool)
    requires
        is_player(player),
    ensures
        ok == can_afford(*state, player, *cost),
{
    let hand = &state.player_resources[player as usize];
    let mut r: usize = 0;
    while r < RESOURCE_COUNT
        invariant
            r <= RESOURCE_COUNT,
            *hand == state.player_resources@[player as int],
            forall|j: int| 0 <= j < r ==> #[trigger] state.player_resources@[player as int]@[j] >= cost@[j],
        decreases RESOURCE_COUNT - r,
    {
        if hand[r] < cost[r] {
            return false;
        }
        r = r + 1;
    }
    true
}

pub(crate) fn edge_other_end(board: &Board, edge: EdgeId, node: NodeId) -> (other: NodeId)
    requires
        board.wf(),
        (edge as int) < EDGE_COUNT,
    ensures
        other == other_end(*board, edge, node),
        (other as int) < NODE_COUNT,
{
    let nodes = board.edge_nodes[edge as usize];
    if nodes[0] == node {
        nodes[1]
    } else {
        nodes[0]
    }
}

pub(crate) fn node_adjacent_nodes(board: &Board, node: NodeId) -> (out: [NodeId; 3])
    requires
        board.wf(),
        (node as int) < NODE_COUNT,
    ensures
        forall|i: int|
            0 <= i < 3 ==> #[trigger] out@[i] == if i < neighbours_upto(*board, node, 3).len() {
                neighbours_upto(*board, node, 3)[i]
            } else {
                INVALID_NODE
            },
{
    let mut out = [INVALID_NODE; 3];
    let mut idx: usize = 0;
    let mut k: usize = 0;
    while k < 3
        invariant
            board.wf(),
            (node as int) < NODE_COUNT,
            k <= 3,
            idx == neighbours_upto(*board, node, k as int).len(),
            idx <= k,
            forall|i: int|
                0 <= i < 3 ==> #[trigger] out@[i] == if i < idx {
                    neighbours_upto(*board, node, k as int)[i]
                } else {
                    INVALID_NODE
                },
        decreases 3 - k,
    {
        let edge = board.node_edges[node as usize][k];
        if edge != INVALID_EDGE {
            let other = edge_other_end(board, edge, node);
            out[idx] = other;
            idx = idx + 1;
        }
        k = k + 1;
    }
    out
}

pub(crate) fn node_has_enemy_building(state: &State, node: NodeId, player: PlayerId) -> (enemy: bool)
    requires
        (node as int) < NODE_COUNT,
    ensures
        enemy == enemy_building_at(*state, node, player),
{
    let owner = state.node_owner[node as usize];
    owner != NO_PLAYER && owner != player
}

pub(crate) fn node_has_friendly_road(board: &Board, state: &State, node: NodeId, player: PlayerId) -> (found: bool)
    requires
        board.wf(),
        (node as int) < NODE_COUNT,
    ensures
        found == has_friendly_road(*board, *state, node, player),
{
    let mut k: usize = 0;
    while k < 3
        invariant
            board.wf(),
            (node as int) < NODE_COUNT,
            k <= 3,
            forall|j: int|
                0 <= j < k ==> !(edge_slot_used(*board, node, j) && #[trigger] state.edge_owner@[
                    board.node_edges@[node as int]@[j] as int
                ] == player),
        decreases 3 - k,
    {
        let edge = board.node_edges[node as usize][k];
        if edge != INVALID_EDGE {
            if state.edge_owner[edge as usize] == player {
                return true;
            }
        }
        k = k + 1;
    }
    false
}

pub(crate) fn node_in_component(state: &State, player: PlayerId, node: NodeId) -> (found: bool)
    requires
        is_player(player),
    ensures
        found == ((node as int) < NODE_COUNT && components_hold(state.road_components@[player as int]@, node as int)),
{
    state.road_components[player as usize].contains_node(node)
}

pub(crate) fn node_is_adjacent_occupied(board: &Board, state: &State, node: NodeId) -> (occupied: bool)
    requires
        board.wf(),
        (node as int) < NODE_COUNT,
    ensures
        occupied == adjacent_occupied(*board, *state, node),
{
    let neighbours = node_adjacent_nodes(board, node);
    let ghost list = neighbours_upto(*board, node, 3);
    proof {
        lemma_neighbours_in_range(*board, node, 3);
    }
    let mut i: usize = 0;
    while i < 3
        invariant
            i <= 3,
            list == neighbours_upto(*board, node, 3),
            list.len() <= 3,
            forall|j: int| 0 <= j < list.len() ==> (#[trigger] list[j] as int) < NODE_COUNT,
            forall|j: int| 0 <= j < 3 ==> #[trigger] neighbours@[j] == if j < list.len() { list[j] } else { INVALID_NODE },
            forall|j: int| 0 <= j < i && j < list.len() ==> state.node_owner@[#[trigger] list[j] as int] == NO_PLAYER,
        decreases 3 - i,
    {
        let neighbour = neighbours[i];
        if neighbour != INVALID_NODE {
            proof {
                if (i as int) >= list.len() {
                    assert(neighbours@[i as int] == INVALID_NODE);
                }
                assert(neighbours@[i as int] == list[i as int]);
            }
            if state.node_owner[neighbour as usize] != NO_PLAYER {
                return true;
            }
        } else {
            proof {
                if (i as int) < list.len() {
                    assert(neighbours@[i as int] == list[i as int]);
                    assert((list[i as int] as int) < NODE_COUNT);
                }
            }
        }
        i = i + 1;
    }
    false
}

pub fn is_legal_build_road(board: &Board, state: &State, player: PlayerId, edge: EdgeId) -> (legal: bool)
    requires
        board.wf(),
        is_player(player),
    ensures
        legal == build_road_allowed(*board, *state, player, edge),
{
    if player_road_count(state, player) >= MAX_ROADS {
        return false;
    }
    if edge as usize >= EDGE_COUNT {
        return false;
    }
    if state.edge_owner[edge as usize] != NO_PLAYER {
        return false;
    }
    if !has_resources(state, player, &ROAD_COST) {
        return false;
    }
    let nodes = board.edge_nodes[edge as usize];
    let first = node_in_component(state, player, nodes[0]);
    let second = node_in_component(state, player, nodes[1]);
    proof {
        if !first && !second {
            assert forall|k: int| 0 <= k < 2 implies !({
                let n = #[trigger] board.edge_nodes@[edge as int]@[k];
                (n as int) < NODE_COUNT && components_hold(state.road_components@[player as int]@, n as int)
            }) by {
                if k == 0 {
                } else {
                }
            }
        } else if first {
            assert(board.edge_nodes@[edge as int]@[0] == nodes[0]);
        } else {
            assert(board.edge_nodes@[edge as int]@[1] == nodes[1]);
        }
    }
    first || second
}

pub fn is_legal_build_settlement(board: &Board, state: &State, player: PlayerId, node: NodeId) -> (legal: bool)
    requires
        board.wf(),
        is_player(player),
    ensures
        legal == build_settlement_allowed(*board, *state, player, node),
        legal ==> exists|k: int|
            0 <= k < 3 && board.node_edges@[node as int]@[k] != INVALID_EDGE && #[trigger] state.edge_owner@[
                board.node_edges@[node as int]@[k] as int
            ] == player,
{
    if player_settlement_count(state, player) >= MAX_SETTLEMENTS {
        return false;
    }
    if node as usize >= NODE_COUNT {
        return false;
    }
    if state.node_owner[node as usize] != NO_PLAYER {
        return false;
    }
    if !has_resources(state, player, &SETTLEMENT_COST) {
        return false;
    }
    if node_is_adjacent_occupied(board, state, node) {
        return false;
    }
    node_has_friendly_road(board, state, node, player)
}

pub fn is_legal_build_city(board: &Board, state: &State, player: PlayerId, node: NodeId) -> (legal: bool)
    requires
        is_player(player),
    ensures
        legal == build_city_allowed(*state, player, node),
{
    if player_city_count(state, player) >= MAX_CITIES {
        return false;
    }
    if node as usize >= NODE_COUNT {
        return false;
    }
    if !has_resources(state, player, &CITY_COST) {
        return false;
    }
    if state.node_owner[node as usize] != player {
        return false;
    }
    state.node_level[node as usize] == BuildingLevel::Settlement
}

pub fn is_legal_move_robber(board: &Board, state: &State, tile: TileId) -> (legal: bool)
    ensures
        legal == ((tile as int) < TILE_COUNT && tile != state.robber_tile),
{
    if tile as usize >= TILE_COUNT {
        return false;
    }
    if tile == state.robber_tile {
        return false;
    }
    true
}

pub fn is_legal_maritime_trade(board: &Board, state: &State, player: PlayerId, offer: Resource, ask: Resource) -> (legal: bool)
    requires
        is_player(player),
    ensures
        legal == maritime_trade_allowed(*board, *state, player, offer, ask),
        !builds_on_port(*board, *state, player, two_for_one_port(offer)) && builds_on_port(
            *board,
            *state,
            player,
            PortType::ThreeToOne,
        ) ==> (legal <==> offer != ask && state.hand(player, offer) >= 3 && state.bank(ask) > 0),
{
    if offer == ask {
        return false;
    }
    let rate = port_rate(board, state, player, offer);
    let hand = &state.player_resources[player as usize];
    if hand[offer.as_index()] < rate {
        return false;
    }
    state.bank_resources[ask.as_index()] > 0
}

/// The maritime rate for `player` offering `offer`, from the ports where the player has a building.
pub(crate) fn port_rate(board: &Board, state: &State, player: PlayerId, offer: Resource) -> (rate: u8)
    ensures
        rate == maritime_rate(*board, *state, player, offer),
{
    let mut has_three_to_one = false;
    let mut has_two_to_one = false;
    let mut node: usize = 0;
    while node < NODE_COUNT
        invariant
            node <= NODE_COUNT,
            has_two_to_one == exists|n: int|
                0 <= n < node && #[trigger] board.node_ports@[n] == two_for_one_port(offer) && state.node_owner@[n] == player,
            has_three_to_one == exists|n: int|
                0 <= n < node && #[trigger] board.node_ports@[n] == PortType::ThreeToOne && state.node_owner@[n] == player,
        decreases NODE_COUNT - node,
    {
        let port = board.node_ports[node];
        if port != PortType::NoPort && state.node_owner[node] == player {
            match port {
                PortType::ThreeToOne => has_three_to_one = true,
                PortType::Brick => has_two_to_one = has_two_to_one || offer == Resource::Brick,
                PortType::Lumber => has_two_to_one = has_two_to_one || offer == Resource::Lumber,
                PortType::Ore => has_two_to_one = has_two_to_one || offer == Resource::Ore,
                PortType::Grain => has_two_to_one = has_two_to_one || offer == Resource::Grain,
                PortType::Wool => has_two_to_one = has_two_to_one || offer == Resource::Wool,
                PortType::NoPort => {},
            }
        }
        proof {
            assert(board.node_ports@[node as int] == port);
        }
        node = node + 1;
    }
    if has_two_to_one {
        2
    } else if has_three_to_one {
        3
    } else {
        4
    }
}

pub(crate) fn is_legal_initial_settlement(board: &Board, state: &State, node: NodeId) -> (legal: bool)
    requires
        board.wf(),
    ensures
        legal == initial_settlement_allowed(*board, *state, node),
{
    if node as usize >= NODE_COUNT {
        return false;
    }
    if state.node_owner[node as usize] != NO_PLAYER {
        return false;
    }
    if node_is_adjacent_occupied(board, state, node) {
        return false;
    }
    true
}

pub(crate) fn is_legal_initial_road(board: &Board, state: &State, player: PlayerId, edge: EdgeId, anchor: NodeId) -> (legal: bool)
    requires
        (anchor as int) < NODE_COUNT,
    ensures
        legal == initial_road_allowed(*board, *state, player, edge, anchor),
{
    if edge as usize >= EDGE_COUNT {
        return false;
    }
    if state.edge_owner[edge as usize] != NO_PLAYER {
        return false;
    }
    let nodes = board.edge_nodes[edge as usize];
    if nodes[0] != anchor && nodes[1] != anchor {
        return false;
    }
    !node_has_enemy_building(state, anchor, player)
}

pub(crate) fn player_road_count(state: &State, player: PlayerId) -> (count: u8)
    ensures
        count == road_count(*state, player),
{
    let mut count: u8 = 0;
    let mut e: usize = 0;
    while e < EDGE_COUNT
        invariant
            e <= EDGE_COUNT,
            count == roads_upto(*state, player, e as int),
        decreases EDGE_COUNT - e,
    {
        proof {
            lemma_roads_upto_bound(*state, player, e as int);
        }
        if state.edge_owner[e] == player {
            count = count + 1;
        }
        e = e + 1;
    }
    count
}

pub(crate) fn player_building_count(state: &State, player: PlayerId, level: BuildingLevel) -> (count: u8)
    ensures
        count == building_count(*state, player, level),
{
    let mut count: u8 = 0;
    let mut n: usize = 0;
    while n < NODE_COUNT
        invariant
            n <= NODE_COUNT,
            count == buildings_upto(*state, player, level, n as int),
        decreases NODE_COUNT - n,
    {
        proof {
            lemma_buildings_upto_bound(*state, player, level, n as int);
        }
        if state.node_owner[n] == player && state.node_level[n] == level {
            count = count + 1;
        }
        n = n + 1;
    }
    count
}

pub(crate) fn player_settlement_count(state: &State, player: PlayerId) -> (count: u8)
    ensures
        count == building_count(*state, player, BuildingLevel::Settlement),
{
    player_building_count(state, player, BuildingLevel::Settlement)
}

pub(crate) fn player_city_count(state: &State, player: PlayerId) -> (count: u8)
    ensures
        count == building_count(*state, player, BuildingLevel::City),
{
    player_building_count(state, player, BuildingLevel::City)
}

/// A player owns a port of type `port` when one of its buildings stands on a node of that port.
pub open spec fn builds_on_port(board: Board, state: State, player: PlayerId, port: PortType) -> bool {
    exists|n: int| 0 <= n < NODE_COUNT && #[trigger] board.node_ports@[n] == port && state.node_owner@[n] == player
}

/// The maritime rate follows the ports the player builds on: two for one with the offered resource's own port,
/// else three for one with a three-for-one port, else four for one.
pub proof fn lemma_maritime_rate_by_ports(board: Board, state: State, player: PlayerId, offer: Resource)
    ensures
        builds_on_port(board, state, player, two_for_one_port(offer)) ==> maritime_rate(board, state, player, offer) == 2,
        !builds_on_port(board, state, player, two_for_one_port(offer)) && builds_on_port(board, state, player, PortType::ThreeToOne)
            ==> maritime_rate(board, state, player, offer) == 3,
        !builds_on_port(board, state, player, two_for_one_port(offer)) && !builds_on_port(board, state, player, PortType::ThreeToOne)
            ==> maritime_rate(board, state, player, offer) == 4,
        2 <= maritime_rate(board, state, player, offer) <= 4,
{
}

/// With a building on a three-for-one port node and none on the offered resource's port, three cards of the
/// offered resource buy one card of another resource the bank holds.
pub proof fn lemma_three_for_one_trade(board: Board, state: State, player: PlayerId, offer: Resource, ask: Resource, n: int)
    requires
        0 <= n < NODE_COUNT,
        board.node_ports@[n] == PortType::ThreeToOne,
        state.node_owner@[n] == player,
        forall|m: int| 0 <= m < NODE_COUNT && #[trigger] board.node_ports@[m] == two_for_one_port(offer) ==> state.node_owner@[m]
            != player,
        offer != ask,
        state.hand(player, offer) >= 3,
        state.bank(ask) > 0,
    ensures
        maritime_rate(board, state, player, offer) == 3,
        maritime_trade_allowed(board, state, player, offer, ask),
{
    assert(builds_on_port(board, state, player, PortType::ThreeToOne));
    lemma_maritime_rate_by_ports(board, state, player, offer);
}

/// A settlement outside the opening is legal only where the player already has a road: some edge at the node
/// is the player's.
pub proof fn lemma_settlement_needs_own_road(board: Board, state: State, player: PlayerId, node: NodeId)
    requires
        build_settlement_allowed(board, state, player, node),
    ensures
        exists|k: int|
            0 <= k < 3 && board.node_edges@[node as int]@[k] != INVALID_EDGE && #[trigger] state.edge_owner@[
                board.node_edges@[node as int]@[k] as int
            ] == player,
        state.node_owner@[node as int] == NO_PLAYER,
{
}

proof fn lemma_neighbour_listed(board: Board, node: NodeId, j: int, k: int)
    requires
        0 <= j < k,
        edge_slot_used(board, node, j),
    ensures
        exists|i: int|
            0 <= i < neighbours_upto(board, node, k).len() && #[trigger] neighbours_upto(board, node, k)[i] == other_end(
                board,
                board.node_edges@[node as int]@[j],
                node,
            ),
    decreases k,
{
    let before = neighbours_upto(board, node, k - 1);
    let x = other_end(board, board.node_edges@[node as int]@[j], node);
    if j == k - 1 {
        let all = neighbours_upto(board, node, k);
        assert(all == before.push(x));
        assert(all[before.len() as int] == x);
        assert(0 <= before.len() < all.len());
    } else {
        lemma_neighbour_listed(board, node, j, k - 1);
        let i = choose|i: int|
            0 <= i < before.len() && #[trigger] before[i] == other_end(board, board.node_edges@[node as int]@[j], node);
        let all = neighbours_upto(board, node, k);
        if edge_slot_used(board, node, k - 1) {
            assert(all == before.push(other_end(board, board.node_edges@[node as int]@[k - 1], node)));
            assert(all[i] == before[i]);
        } else {
            assert(all == before);
        }
        assert(0 <= i < all.len() && all[i] == x);
    }
}

/// A legal settlement keeps the distance rule and is paid for: every node one edge away is empty, and the
/// player holds a brick, a lumber, a grain and a wool.
pub proof fn lemma_settlement_distance_and_cost(board: Board, state: State, player: PlayerId, node: NodeId)
    requires
        build_settlement_allowed(board, state, player, node),
    ensures
        forall|k: int|
            0 <= k < 3 && board.node_edges@[node as int]@[k] != INVALID_EDGE ==> state.node_owner@[other_end(
                board,
                #[trigger] board.node_edges@[node as int]@[k],
                node,
            ) as int] == NO_PLAYER,
        state.hand(player, Resource::Brick) >= 1,
        state.hand(player, Resource::Lumber) >= 1,
        state.hand(player, Resource::Grain) >= 1,
        state.hand(player, Resource::Wool) >= 1,
{
    assert forall|k: int|
        0 <= k < 3 && board.node_edges@[node as int]@[k] != INVALID_EDGE implies state.node_owner@[other_end(
            board,
            #[trigger] board.node_edges@[node as int]@[k],
            node,
        ) as int] == NO_PLAYER by {
        lemma_neighbour_listed(board, node, k, 3);
    }
    assert(state.player_resources@[player as int]@[0] >= SETTLEMENT_COST@[0]);
    assert(state.player_resources@[player as int]@[1] >= SETTLEMENT_COST@[1]);
    assert(state.player_resources@[player as int]@[3] >= SETTLEMENT_COST@[3]);
    assert(state.player_resources@[player as int]@[4] >= SETTLEMENT_COST@[4]);
}

} // verus!
