use vstd::prelude::*;

use crate::bits::has_bit;
use crate::board::Board;
use crate::rules::{adjacent_occupied, node_is_adjacent_occupied, other_end, owns_port, two_for_one_port};
use crate::state::{is_player, State};
use crate::types::{
    resource_index, EdgeId, NodeId, PlayerId, PortType, Resource, EDGE_COUNT, INVALID_EDGE, INVALID_TILE, NODE_COUNT,
    NO_PLAYER, RESOURCE_COUNT, TILE_COUNT,
};

verus! {

/// Node `n` holds a building of a player other than `player`.
pub open spec fn enemy_node(s: State, player: PlayerId, n: int) -> bool {
    s.node_owner@[n] != NO_PLAYER && s.node_owner@[n] != player
}

/// Edge `e` holds a road of a player other than `player`.
pub open spec fn enemy_road(s: State, player: PlayerId, e: int) -> bool {
    s.edge_owner@[e] != NO_PLAYER && s.edge_owner@[e] != player
}

/// The nodes that hold another player's building.
pub fn enemy_nodes_mask(state: &State, player: PlayerId) -> (mask: [bool; NODE_COUNT])
    ensures
        forall|n: int| 0 <= n < NODE_COUNT ==> #[trigger] mask@[n] == enemy_node(*state, player, n),
{
    let mut mask = [false; NODE_COUNT];
    let mut node: usize = 0;
    while node < NODE_COUNT
        invariant
            node <= NODE_COUNT,
            forall|n: int| 0 <= n < NODE_COUNT ==> #[trigger] mask@[n] == (n < node && enemy_node(*state, player, n)),
        decreases NODE_COUNT - node,
    {
        let owner = state.node_owner[node];
        if owner != NO_PLAYER && owner != player {
            mask[node] = true;
        }
        node = node + 1;
    }
    mask
}

/// The edges that hold another player's road.
pub fn enemy_roads_mask(state: &State, player: PlayerId) -> (mask: [bool; EDGE_COUNT])
    ensures
        forall|e: int| 0 <= e < EDGE_COUNT ==> #[trigger] mask@[e] == enemy_road(*state, player, e),
{
    let mut mask = [false; EDGE_COUNT];
    let mut edge: usize = 0;
    while edge < EDGE_COUNT
        invariant
            edge <= EDGE_COUNT,
            forall|e: int| 0 <= e < EDGE_COUNT ==> #[trigger] mask@[e] == (e < edge && enemy_road(*state, player, e)),
        decreases EDGE_COUNT - edge,
    {
        let owner = state.edge_owner[edge];
        if owner != NO_PLAYER && owner != player {
            mask[edge] = true;
        }
        edge = edge + 1;
    }
    mask
}

/// Node `n` is free and has no building next to it: anyone may settle there.
pub open spec fn buildable_node(board: Board, s: State, n: int) -> bool {
    s.node_owner@[n] == NO_PLAYER && !adjacent_occupied(board, s, n as NodeId)
}

/// The nodes where anyone may settle.
pub fn global_buildable_nodes(board: &Board, state: &State) -> (mask: [bool; NODE_COUNT])
    requires
        board.wf(),
    ensures
        forall|n: int| 0 <= n < NODE_COUNT ==> #[trigger] mask@[n] == buildable_node(*board, *state, n),
{
    let mut mask = [false; NODE_COUNT];
    let mut node: usize = 0;
    while node < NODE_COUNT
        invariant
            node <= NODE_COUNT,
            board.wf(),
            forall|n: int| 0 <= n < NODE_COUNT ==> #[trigger] mask@[n] == (n < node && buildable_node(*board, *state, n)),
        decreases NODE_COUNT - node,
    {
        if state.node_owner[node] == NO_PLAYER && !node_is_adjacent_occupied(board, state, node as NodeId) {
            mask[node] = true;
        }
        node = node + 1;
    }
    mask
}

/// The nodes that `player` owns or where anyone may settle.
pub fn owned_or_buildable_nodes(state: &State, player: PlayerId, buildable: &[bool; NODE_COUNT]) -> (mask: [bool; NODE_COUNT])
    ensures
        forall|n: int| 0 <= n < NODE_COUNT ==> #[trigger] mask@[n] == (buildable@[n] || state.node_owner@[n] == player),
{
    let mut mask = [false; NODE_COUNT];
    let mut node: usize = 0;
    while node < NODE_COUNT
        invariant
            node <= NODE_COUNT,
            forall|n: int| 0 <= n < NODE_COUNT ==> #[trigger] mask@[n] == (n < node && (buildable@[n] || state.node_owner@[n]
                == player)),
        decreases NODE_COUNT - node,
    {
        if buildable[node] || state.node_owner[node] == player {
            mask[node] = true;
        }
        node = node + 1;
    }
    mask
}

/// The `k`-th edge at node `m` is an edge without an enemy road, and leads to node `n`.
pub open spec fn edge_leads(board: Board, enemy_roads: Seq<bool>, m: int, k: int, n: int) -> bool {
    let e = board.node_edges@[m]@[k];
    &&& e != INVALID_EDGE
    &&& !enemy_roads[e as int]
    &&& other_end(board, e, m as NodeId) as int == n
}

/// Node `m` of the layer, free of enemy buildings, spreads along an edge without an enemy road to node `n`.
pub open spec fn spreads_to(
    board: Board,
    layer: Seq<bool>,
    enemy_nodes: Seq<bool>,
    enemy_roads: Seq<bool>,
    m: int,
    n: int,
) -> bool {
    &&& layer[m]
    &&& !enemy_nodes[m]
    &&& exists|k: int| 0 <= k < 3 && #[trigger] edge_leads(board, enemy_roads, m, k, n)
}

/// The layer with every node that one of its nodes spreads to.
pub open spec fn grown(board: Board, layer: Seq<bool>, enemy_nodes: Seq<bool>, enemy_roads: Seq<bool>) -> Seq<bool> {
    Seq::new(
        NODE_COUNT as nat,
        |n: int|
            layer[n] || exists|m: int| 0 <= m < NODE_COUNT && #[trigger] spreads_to(board, layer, enemy_nodes, enemy_roads, m, n),
    )
}

/// The layer grown by one step.
fn grow_layer(
    board: &Board,
    layer: &[bool; NODE_COUNT],
    enemy_nodes: &[bool; NODE_COUNT],
    enemy_roads: &[bool; EDGE_COUNT],
) -> (next: [bool; NODE_COUNT])
    requires
        board.wf(),
    ensures
        next@ == grown(*board, layer@, enemy_nodes@, enemy_roads@),
{
    let ghost g = grown(*board, layer@, enemy_nodes@, enemy_roads@);
    let mut next = *layer;
    let mut node: usize = 0;
    while node < NODE_COUNT
        invariant
            node <= NODE_COUNT,
            board.wf(),
            forall|n: int|
                0 <= n < NODE_COUNT ==> #[trigger] next@[n] == (layer@[n] || exists|m: int|
                    0 <= m < node && #[trigger] spreads_to(*board, layer@, enemy_nodes@, enemy_roads@, m, n)),
        decreases NODE_COUNT - node,
    {
        if layer[node] && !enemy_nodes[node] {
            let edges = board.node_edges[node];
            let mut k: usize = 0;
            while k < 3
                invariant
                    k <= 3,
                    node < NODE_COUNT,
                    board.wf(),
                    layer@[node as int],
                    !enemy_nodes@[node as int],
                    edges == board.node_edges@[node as int],
                    forall|n: int|
                        0 <= n < NODE_COUNT ==> #[trigger] next@[n] == (layer@[n] || (exists|m: int|
                            0 <= m < node && #[trigger] spreads_to(*board, layer@, enemy_nodes@, enemy_roads@, m, n)) || (
                        exists|j: int| 0 <= j < k && #[trigger] edge_leads(*board, enemy_roads@, node as int, j, n))),
                decreases 3 - k,
            {
                let edge = edges[k];
                if edge != INVALID_EDGE && !enemy_roads[edge as usize] {
                    let nodes = board.edge_nodes[edge as usize];
                    let other = if nodes[0] == node as u8 {
                        nodes[1]
                    } else {
                        nodes[0]
                    };
                    proof {
                        assert(edge_leads(*board, enemy_roads@, node as int, k as int, other as int));
                    }
                    next[other as usize] = true;
                }
                proof {
                    assert forall|n: int| 0 <= n < NODE_COUNT implies #[trigger] next@[n] == (layer@[n] || (exists|m: int|
                        0 <= m < node && #[trigger] spreads_to(*board, layer@, enemy_nodes@, enemy_roads@, m, n)) || (exists|j: int|
                        0 <= j < k + 1 && #[trigger] edge_leads(*board, enemy_roads@, node as int, j, n))) by {
                        if edge_leads(*board, enemy_roads@, node as int, k as int, n) {
                            assert(edge == board.node_edges@[node as int]@[k as int]);
                        }
                    }
                }
                k = k + 1;
            }
            proof {
                assert forall|n: int| 0 <= n < NODE_COUNT implies #[trigger] next@[n] == (layer@[n] || exists|m: int|
                    0 <= m < node + 1 && #[trigger] spreads_to(*board, layer@, enemy_nodes@, enemy_roads@, m, n)) by {
                    if exists|j: int| 0 <= j < 3 && #[trigger] edge_leads(*board, enemy_roads@, node as int, j, n) {
                        assert(spreads_to(*board, layer@, enemy_nodes@, enemy_roads@, node as int, n));
                    }
                    if spreads_to(*board, layer@, enemy_nodes@, enemy_roads@, node as int, n) {
                        let j = choose|j: int| 0 <= j < 3 && #[trigger] edge_leads(*board, enemy_roads@, node as int, j, n);
                        assert(edge_leads(*board, enemy_roads@, node as int, j, n));
                    }
                }
            }
        } else {
            proof {
                assert forall|n: int| 0 <= n < NODE_COUNT implies #[trigger] next@[n] == (layer@[n] || exists|m: int|
                    0 <= m < node + 1 && #[trigger] spreads_to(*board, layer@, enemy_nodes@, enemy_roads@, m, n)) by {
                    if exists|m: int| 0 <= m < node + 1 && #[trigger] spreads_to(*board, layer@, enemy_nodes@, enemy_roads@, m, n) {
                        let m = choose|m: int| 0 <= m < node + 1 && #[trigger] spreads_to(*board, layer@, enemy_nodes@, enemy_roads@, m, n);
                        assert(m != node);
                    }
                }
            }
        }
        node = node + 1;
    }
    proof {
        assert(next@ =~= g);
    }
    next
}

/// The nodes within one, two and three steps of the start: each step spreads from a node without an enemy
/// building along an edge without an enemy road.
pub fn reachable_nodes_by_level(
    board: &Board,
    zero_nodes: &[bool; NODE_COUNT],
    enemy_nodes: &[bool; NODE_COUNT],
    enemy_roads: &[bool; EDGE_COUNT],
) -> (levels: [[bool; NODE_COUNT]; 3])
    requires
        board.wf(),
    ensures
        levels@[0]@ == grown(*board, zero_nodes@, enemy_nodes@, enemy_roads@),
        levels@[1]@ == grown(*board, levels@[0]@, enemy_nodes@, enemy_roads@),
        levels@[2]@ == grown(*board, levels@[1]@, enemy_nodes@, enemy_roads@),
{
    let first = grow_layer(board, zero_nodes, enemy_nodes, enemy_roads);
    let second = grow_layer(board, &first, enemy_nodes, enemy_roads);
    let third = grow_layer(board, &second, enemy_nodes, enemy_roads);
    [first, second, third]
}

/// Tile `t` has a corner where `player` has a building.
pub open spec fn touches_tile(board: Board, s: State, player: PlayerId, t: int) -> bool {
    exists|n: int, k: int|
        0 <= n < NODE_COUNT && 0 <= k < 3 && s.node_owner@[n] == player && #[trigger] board.node_tiles@[n]@[k] as int == t
}

/// The number of tiles below `t` that `player` touches.
pub open spec fn touched_tiles_upto(board: Board, s: State, player: PlayerId, t: int) -> nat
    decreases t,
{
    if t <= 0 {
        0
    } else {
        touched_tiles_upto(board, s, player, t - 1) + if touches_tile(board, s, player, t - 1) {
            1nat
        } else {
            0nat
        }
    }
}

proof fn lemma_touched_tiles_bound(board: Board, s: State, player: PlayerId, t: int)
    requires
        0 <= t,
    ensures
        touched_tiles_upto(board, s, player, t) <= t,
    decreases t,
{
    if t > 0 {
        lemma_touched_tiles_bound(board, s, player, t - 1);
    }
}

/// What `player`'s buildings give: the number of tiles they touch, the two-for-one harbours by resource index,
/// and whether one of them is on a three-for-one harbour.
pub fn player_node_features(board: &Board, state: &State, player: PlayerId) -> (features: (usize, [bool; RESOURCE_COUNT], bool))
    requires
        board.wf(),
    ensures
        features.0 == touched_tiles_upto(*board, *state, player, TILE_COUNT as int),
        forall|r: Resource| #[trigger] features.1@[resource_index(r)] == owns_port(*board, *state, player, two_for_one_port(r)),
        features.2 == owns_port(*board, *state, player, PortType::ThreeToOne),
{
    let mut owned = [false; TILE_COUNT];
    let mut ports = [false; RESOURCE_COUNT];
    let mut has_three_to_one = false;
    let mut node: usize = 0;
    while node < NODE_COUNT
        invariant
            node <= NODE_COUNT,
            board.wf(),
            forall|t: int|
                0 <= t < TILE_COUNT ==> #[trigger] owned@[t] == exists|n: int, k: int|
                    0 <= n < node && 0 <= k < 3 && state.node_owner@[n] == player && #[trigger] board.node_tiles@[n]@[k] as int
                        == t,
            forall|r: Resource|
                #[trigger] ports@[resource_index(r)] == exists|n: int|
                    0 <= n < node && #[trigger] board.node_ports@[n] == two_for_one_port(r) && state.node_owner@[n] == player,
            has_three_to_one == exists|n: int|
                0 <= n < node && #[trigger] board.node_ports@[n] == PortType::ThreeToOne && state.node_owner@[n] == player,
        decreases NODE_COUNT - node,
    {
        if state.node_owner[node] == player {
            let tiles = board.node_tiles[node];
            let mut k: usize = 0;
            while k < 3
                invariant
                    k <= 3,
                    node < NODE_COUNT,
                    board.wf(),
                    state.node_owner@[node as int] == player,
                    tiles == board.node_tiles@[node as int],
                    forall|t: int|
                        0 <= t < TILE_COUNT ==> #[trigger] owned@[t] == ((exists|n: int, j: int|
                            0 <= n < node && 0 <= j < 3 && state.node_owner@[n] == player && #[trigger] board.node_tiles@[n]@[j] as int
                                == t) || exists|j: int| 0 <= j < k && #[trigger] board.node_tiles@[node as int]@[j] as int == t),
                decreases 3 - k,
            {
                let tile = tiles[k];
                if tile != INVALID_TILE {
                    owned[tile as usize] = true;
                }
                proof {
                    assert(board.node_tiles@[node as int]@[k as int] == tile);
                }
                k = k + 1;
            }
            match board.node_ports[node] {
                PortType::NoPort => {},
                PortType::ThreeToOne => has_three_to_one = true,
                PortType::Brick => ports[Resource::Brick.as_index()] = true,
                PortType::Lumber => ports[Resource::Lumber.as_index()] = true,
                PortType::Ore => ports[Resource::Ore.as_index()] = true,
                PortType::Grain => ports[Resource::Grain.as_index()] = true,
                PortType::Wool => ports[Resource::Wool.as_index()] = true,
            }
            proof {
                assert forall|t: int|
                    0 <= t < TILE_COUNT implies #[trigger] owned@[t] == exists|n: int, k: int|
                        0 <= n < node + 1 && 0 <= k < 3 && state.node_owner@[n] == player && #[trigger] board.node_tiles@[n]@[k] as int
                            == t by {
                    if exists|j: int| 0 <= j < 3 && #[trigger] board.node_tiles@[node as int]@[j] as int == t {
                        let j = choose|j: int| 0 <= j < 3 && #[trigger] board.node_tiles@[node as int]@[j] as int == t;
                        assert(board.node_tiles@[node as int]@[j] as int == t);
                    }
                    if exists|n: int, k: int|
                        0 <= n < node + 1 && 0 <= k < 3 && state.node_owner@[n] == player && #[trigger] board.node_tiles@[n]@[k] as int
                            == t {
                        let (n, k) = choose|n: int, k: int|
                            0 <= n < node + 1 && 0 <= k < 3 && state.node_owner@[n] == player && #[trigger] board.node_tiles@[n]@[k] as int
                                == t;
                        if n == node {
                            assert(board.node_tiles@[node as int]@[k] as int == t);
                        }
                    }
                }
                assert forall|r: Resource|
                    #[trigger] ports@[resource_index(r)] == exists|n: int|
                        0 <= n < node + 1 && #[trigger] board.node_ports@[n] == two_for_one_port(r) && state.node_owner@[n] == player by {
                    if board.node_ports@[node as int] == two_for_one_port(r) {
                        assert(board.node_ports@[node as int] == two_for_one_port(r));
                    }
                }
                assert(has_three_to_one == exists|n: int|
                    0 <= n < node + 1 && #[trigger] board.node_ports@[n] == PortType::ThreeToOne && state.node_owner@[n] == player) by {
                    if board.node_ports@[node as int] == PortType::ThreeToOne {
                        assert(board.node_ports@[node as int] == PortType::ThreeToOne);
                    }
                }
            }
        } else {
            proof {
                assert forall|t: int|
                    0 <= t < TILE_COUNT implies #[trigger] owned@[t] == exists|n: int, k: int|
                        0 <= n < node + 1 && 0 <= k < 3 && state.node_owner@[n] == player && #[trigger] board.node_tiles@[n]@[k] as int
                            == t by {
                    if exists|n: int, k: int|
                        0 <= n < node + 1 && 0 <= k < 3 && state.node_owner@[n] == player && #[trigger] board.node_tiles@[n]@[k] as int
                            == t {
                        let (n, k) = choose|n: int, k: int|
                            0 <= n < node + 1 && 0 <= k < 3 && state.node_owner@[n] == player && #[trigger] board.node_tiles@[n]@[k] as int
                                == t;
                        assert(n != node);
                    }
                }
            }
        }
        node = node + 1;
    }
    let mut count: usize = 0;
    let mut t: usize = 0;
    while t < TILE_COUNT
        invariant
            t <= TILE_COUNT,
            count == touched_tiles_upto(*board, *state, player, t as int),
            forall|u: int| 0 <= u < TILE_COUNT ==> #[trigger] owned@[u] == touches_tile(*board, *state, player, u),
        decreases TILE_COUNT - t,
    {
        proof {
            lemma_touched_tiles_bound(*board, *state, player, t as int);
        }
        if owned[t] {
            count = count + 1;
        }
        t = t + 1;
    }
    (count, ports, has_three_to_one)
}

/// Node `n` starts `player`'s network: the player has a building there, or one of the player's roads ends there.
pub open spec fn network_start(board: Board, s: State, player: PlayerId, n: int) -> bool {
    ||| s.node_owner@[n] == player
    ||| exists|e: int, k: int|
        0 <= e < EDGE_COUNT && 0 <= k < 2 && s.edge_owner@[e] == player && #[trigger] board.edge_nodes@[e]@[k] as int == n
}

/// From node `m`, which holds no other player's building, `player`'s road in edge slot `k` leads to node `n`.
pub open spec fn road_leads(board: Board, s: State, player: PlayerId, m: int, k: int, n: int) -> bool {
    let e = board.node_edges@[m]@[k];
    &&& !enemy_node(s, player, m)
    &&& e != INVALID_EDGE
    &&& s.edge_owner@[e as int] == player
    &&& other_end(board, e, m as NodeId) as int == n
}

/// One of `player`'s roads leads from node `m` to node `n`, and `m` holds no other player's building.
pub open spec fn road_step(board: Board, s: State, player: PlayerId, m: int, n: int) -> bool {
    exists|k: int| 0 <= k < 3 && #[trigger] road_leads(board, s, player, m, k, n)
}

/// Step `i` of the walk follows one of `player`'s roads.
pub open spec fn walk_step(board: Board, s: State, player: PlayerId, path: Seq<int>, i: int) -> bool {
    road_step(board, s, player, path[i], path[i + 1])
}

/// `path` walks `player`'s network: it begins where the network starts and each step follows one of the
/// player's roads out of a node that holds no other player's building.
pub open spec fn network_walk(board: Board, s: State, player: PlayerId, path: Seq<int>) -> bool {
    &&& path.len() > 0
    &&& 0 <= path[0] < NODE_COUNT
    &&& network_start(board, s, player, path[0])
    &&& forall|i: int| 0 <= i < path.len() - 1 ==> #[trigger] walk_step(board, s, player, path, i)
}

/// Some walk of `player`'s network ends at node `n`.
pub open spec fn in_network(board: Board, s: State, player: PlayerId, n: int) -> bool {
    exists|path: Seq<int>| #[trigger] network_walk(board, s, player, path) && path.last() == n
}

/// The number of `false` entries among the first `n`.
pub open spec fn count_false(s: Seq<bool>, n: int) -> nat
    decreases n,
{
    if n <= 0 {
        0
    } else {
        count_false(s, n - 1) + if s[n - 1] { 0nat } else { 1nat }
    }
}

proof fn lemma_count_false_set(s: Seq<bool>, i: int, n: int)
    requires
        0 <= i < n <= s.len(),
        !s[i],
    ensures
        count_false(s.update(i, true), n) + 1 == count_false(s, n),
    decreases n,
{
    if n - 1 > i {
        lemma_count_false_set(s, i, n - 1);
    } else {
        lemma_count_false_same(s, s.update(i, true), i);
    }
}

proof fn lemma_count_false_same(a: Seq<bool>, b: Seq<bool>, n: int)
    requires
        forall|j: int| 0 <= j < n ==> a[j] == b[j],
    ensures
        count_false(a, n) == count_false(b, n),
    decreases n,
{
    if n > 0 {
        lemma_count_false_same(a, b, n - 1);
    }
}

proof fn lemma_walk_extend(board: Board, s: State, player: PlayerId, path: Seq<int>, n: int)
    requires
        network_walk(board, s, player, path),
        road_step(board, s, player, path.last(), n),
    ensures
        network_walk(board, s, player, path.push(n)),
        path.push(n).last() == n,
{
    let p = path.push(n);
    assert forall|i: int| 0 <= i < p.len() - 1 implies #[trigger] walk_step(board, s, player, p, i) by {
        assert(p[i] == path[i]);
        if i < path.len() - 1 {
            assert(walk_step(board, s, player, path, i));
            assert(p[i + 1] == path[i + 1]);
        } else {
            assert(p[i + 1] == n);
        }
    }
}

proof fn lemma_walk_closed(board: Board, s: State, player: PlayerId, path: Seq<int>, visited: Seq<bool>)
    requires
        network_walk(board, s, player, path),
        visited.len() == NODE_COUNT,
        forall|n: int| 0 <= n < NODE_COUNT && network_start(board, s, player, n) ==> #[trigger] visited[n],
        forall|m: int, n: int| 0 <= m < NODE_COUNT && 0 <= n < NODE_COUNT && visited[m] && #[trigger] road_step(board, s, player, m, n) ==> visited[n],
        forall|m: int, n: int| 0 <= m < NODE_COUNT && #[trigger] road_step(board, s, player, m, n) ==> 0 <= n < NODE_COUNT,
    ensures
        0 <= path.last() < NODE_COUNT,
        visited[path.last()],
    decreases path.len(),
{
    if path.len() > 1 {
        let prefix = path.drop_last();
        assert forall|i: int| 0 <= i < prefix.len() - 1 implies #[trigger] walk_step(board, s, player, prefix, i) by {
            assert(walk_step(board, s, player, path, i));
        }
        lemma_walk_closed(board, s, player, prefix, visited);
        assert(walk_step(board, s, player, path, path.len() - 2));
    }
}

/// Every road step leads to a node of the board.
pub(crate) proof fn lemma_road_step_in_range(board: Board, s: State, player: PlayerId)
    requires
        board.wf(),
    ensures
        forall|m: int, n: int| 0 <= m < NODE_COUNT && #[trigger] road_step(board, s, player, m, n) ==> 0 <= n < NODE_COUNT,
{
    assert forall|m: int, n: int| 0 <= m < NODE_COUNT && #[trigger] road_step(board, s, player, m, n) implies 0 <= n < NODE_COUNT by {
        let k = choose|k: int| 0 <= k < 3 && #[trigger] road_leads(board, s, player, m, k, n);
        let e = board.node_edges@[m]@[k];
        assert((board.edge_nodes@[e as int]@[0] as int) < NODE_COUNT);
        assert((board.edge_nodes@[e as int]@[1] as int) < NODE_COUNT);
    }
}

/// `path` walks `player`'s roads from `start`: each step follows one of the player's roads out of a node that
/// holds no other player's building.
pub open spec fn walk_from(board: Board, s: State, player: PlayerId, start: int, path: Seq<int>) -> bool {
    &&& path.len() > 0
    &&& path[0] == start
    &&& forall|i: int| 0 <= i < path.len() - 1 ==> #[trigger] walk_step(board, s, player, path, i)
}

/// Some walk of `player`'s roads from `start` ends at node `n`.
pub open spec fn reaches_from(board: Board, s: State, player: PlayerId, start: int, n: int) -> bool {
    exists|path: Seq<int>| #[trigger] walk_from(board, s, player, start, path) && path.last() == n
}

/// `m` holds exactly the nodes that `player`'s roads reach from `start`.
pub open spec fn reach_mask(board: Board, s: State, player: PlayerId, start: int, m: u64) -> bool {
    forall|n: int| #[trigger] has_bit(m, n) == (0 <= n < NODE_COUNT && reaches_from(board, s, player, start, n))
}

pub(crate) proof fn lemma_walk_from_extend(board: Board, s: State, player: PlayerId, start: int, path: Seq<int>, n: int)
    requires
        walk_from(board, s, player, start, path),
        road_step(board, s, player, path.last(), n),
    ensures
        walk_from(board, s, player, start, path.push(n)),
        path.push(n).last() == n,
{
    let p = path.push(n);
    assert forall|i: int| 0 <= i < p.len() - 1 implies #[trigger] walk_step(board, s, player, p, i) by {
        assert(p[i] == path[i]);
        if i < path.len() - 1 {
            assert(walk_step(board, s, player, path, i));
            assert(p[i + 1] == path[i + 1]);
        } else {
            assert(p[i + 1] == n);
        }
    }
}

pub(crate) proof fn lemma_walk_from_closed(board: Board, s: State, player: PlayerId, start: int, path: Seq<int>, visited: Seq<bool>)
    requires
        walk_from(board, s, player, start, path),
        0 <= start < NODE_COUNT,
        visited.len() == NODE_COUNT,
        visited[start],
        forall|m: int, n: int| 0 <= m < NODE_COUNT && 0 <= n < NODE_COUNT && visited[m] && #[trigger] road_step(board, s, player, m, n) ==> visited[n],
        forall|m: int, n: int| 0 <= m < NODE_COUNT && #[trigger] road_step(board, s, player, m, n) ==> 0 <= n < NODE_COUNT,
    ensures
        0 <= path.last() < NODE_COUNT,
        visited[path.last()],
    decreases path.len(),
{
    if path.len() > 1 {
        let prefix = path.drop_last();
        assert forall|i: int| 0 <= i < prefix.len() - 1 implies #[trigger] walk_step(board, s, player, prefix, i) by {
            assert(walk_step(board, s, player, path, i));
        }
        lemma_walk_from_closed(board, s, player, start, prefix, visited);
        assert(walk_step(board, s, player, path, path.len() - 2));
    }
}

/// Where two states agree on buildings and roads, the same nodes are reached.
pub(crate) proof fn lemma_reaches_same_owners(board: Board, s1: State, s2: State, player: PlayerId, start: int, n: int)
    requires
        s1.node_owner == s2.node_owner,
        s1.edge_owner == s2.edge_owner,
    ensures
        reaches_from(board, s1, player, start, n) == reaches_from(board, s2, player, start, n),
{
    assert forall|m: int, x: int| #[trigger] road_step(board, s1, player, m, x) == road_step(board, s2, player, m, x) by {
        if road_step(board, s1, player, m, x) {
            let k = choose|k: int| 0 <= k < 3 && #[trigger] road_leads(board, s1, player, m, k, x);
            assert(road_leads(board, s2, player, m, k, x));
        }
        if road_step(board, s2, player, m, x) {
            let k = choose|k: int| 0 <= k < 3 && #[trigger] road_leads(board, s2, player, m, k, x);
            assert(road_leads(board, s1, player, m, k, x));
        }
    }
    if reaches_from(board, s1, player, start, n) {
        let path = choose|path: Seq<int>| #[trigger] walk_from(board, s1, player, start, path) && path.last() == n;
        assert forall|i: int| 0 <= i < path.len() - 1 implies #[trigger] walk_step(board, s2, player, path, i) by {
            assert(walk_step(board, s1, player, path, i));
        }
        assert(walk_from(board, s2, player, start, path));
    }
    if reaches_from(board, s2, player, start, n) {
        let path = choose|path: Seq<int>| #[trigger] walk_from(board, s2, player, start, path) && path.last() == n;
        assert forall|i: int| 0 <= i < path.len() - 1 implies #[trigger] walk_step(board, s1, player, path, i) by {
            assert(walk_step(board, s2, player, path, i));
        }
        assert(walk_from(board, s1, player, start, path));
    }
}

/// The nodes of `player`'s network: those reached from the player's buildings and road ends along the player's
/// roads, never leaving a node that holds another player's building.
pub fn player_zero_nodes(board: &Board, state: &State, player: PlayerId) -> (visited: [bool; NODE_COUNT])
    requires
        board.wf(),
    ensures
        forall|n: int| 0 <= n < NODE_COUNT ==> #[trigger] visited@[n] == in_network(*board, *state, player, n),
{
    proof {
        lemma_road_step_in_range(*board, *state, player);
    }
    let mut visited = [false; NODE_COUNT];
    let mut stack: Vec<NodeId> = Vec::new();
    let mut node: usize = 0;
    while node < NODE_COUNT
        invariant
            node <= NODE_COUNT,
            forall|i: int| 0 <= i < stack@.len() ==> (#[trigger] stack@[i] as int) < NODE_COUNT,
            forall|i: int| 0 <= i < stack@.len() ==> in_network(*board, *state, player, #[trigger] stack@[i] as int),
            forall|n: int| 0 <= n < node && state.node_owner@[n] == player ==> #[trigger] stack@.contains(n as NodeId),
        decreases NODE_COUNT - node,
    {
        if state.node_owner[node] == player {
            proof {
                let path = seq![node as int];
                assert(network_walk(*board, *state, player, path));
            }
            let ghost before = stack@;
            stack.push(node as NodeId);
            proof {
                assert forall|x: NodeId| before.contains(x) implies #[trigger] stack@.contains(x) by {
                    let i = choose|i: int| 0 <= i < before.len() && before[i] == x;
                    assert(stack@[i] == x);
                }
                assert(stack@[stack@.len() - 1] == node as NodeId);
                assert forall|n: int| 0 <= n < node + 1 && state.node_owner@[n] == player implies #[trigger] stack@.contains(n as NodeId) by {
                    if n != node {
                        assert(before.contains(n as NodeId));
                    }
                }
            }
        }
        node = node + 1;
    }
    let mut edge: usize = 0;
    while edge < EDGE_COUNT
        invariant
            edge <= EDGE_COUNT,
            board.wf(),
            forall|i: int| 0 <= i < stack@.len() ==> (#[trigger] stack@[i] as int) < NODE_COUNT,
            forall|i: int| 0 <= i < stack@.len() ==> in_network(*board, *state, player, #[trigger] stack@[i] as int),
            forall|n: int| 0 <= n < NODE_COUNT && state.node_owner@[n] == player ==> #[trigger] stack@.contains(n as NodeId),
            forall|e: int, k: int|
                0 <= e < edge && 0 <= k < 2 && state.edge_owner@[e] == player ==> #[trigger] stack@.contains(board.edge_nodes@[e]@[k]),
        decreases EDGE_COUNT - edge,
    {
        if state.edge_owner[edge] == player {
            let nodes = board.edge_nodes[edge];
            proof {
                assert(network_walk(*board, *state, player, seq![nodes[0] as int]));
                assert(network_walk(*board, *state, player, seq![nodes[1] as int]));
            }
            let ghost before = stack@;
            stack.push(nodes[0]);
            stack.push(nodes[1]);
            proof {
                assert(stack@ == before.push(nodes[0]).push(nodes[1]));
                assert forall|x: NodeId| before.contains(x) implies #[trigger] stack@.contains(x) by {
                    let i = choose|i: int| 0 <= i < before.len() && before[i] == x;
                    assert(stack@[i] == x);
                }
                assert(stack@[stack@.len() - 2] == nodes[0]);
                assert(stack@[stack@.len() - 1] == nodes[1]);
                assert forall|e: int, k: int|
                    0 <= e < edge + 1 && 0 <= k < 2 && state.edge_owner@[e] == player implies #[trigger] stack@.contains(
                        board.edge_nodes@[e]@[k],
                    ) by {
                    if e == edge {
                        if k == 0 {
                            assert(stack@.contains(nodes[0]));
                        } else {
                            assert(stack@.contains(nodes[1]));
                        }
                    } else {
                        assert(before.contains(board.edge_nodes@[e]@[k]));
                    }
                }
            }
        }
        edge = edge + 1;
    }
    proof {
        assert forall|n: int| 0 <= n < NODE_COUNT && network_start(*board, *state, player, n) implies #[trigger] visited@[n]
            || stack@.contains(n as NodeId) by {
            if state.node_owner@[n] != player {
                let (e, k) = choose|e: int, k: int|
                    0 <= e < EDGE_COUNT && 0 <= k < 2 && state.edge_owner@[e] == player && #[trigger] board.edge_nodes@[e]@[k] as int
                        == n;
                assert(stack@.contains(board.edge_nodes@[e]@[k]));
            }
        }
    }
    while stack.len() > 0
        invariant
            board.wf(),
            forall|m: int, n: int| 0 <= m < NODE_COUNT && #[trigger] road_step(*board, *state, player, m, n) ==> 0 <= n < NODE_COUNT,
            forall|i: int| 0 <= i < stack@.len() ==> (#[trigger] stack@[i] as int) < NODE_COUNT,
            forall|i: int| 0 <= i < stack@.len() ==> in_network(*board, *state, player, #[trigger] stack@[i] as int),
            forall|n: int| 0 <= n < NODE_COUNT && #[trigger] visited@[n] ==> in_network(*board, *state, player, n),
            forall|n: int| 0 <= n < NODE_COUNT && network_start(*board, *state, player, n) ==> #[trigger] visited@[n]
                || stack@.contains(n as NodeId),
            forall|m: int, n: int|
                0 <= m < NODE_COUNT && 0 <= n < NODE_COUNT && visited@[m] && #[trigger] road_step(*board, *state, player, m, n)
                    ==> visited@[n] || stack@.contains(n as NodeId),
        decreases count_false(visited@, NODE_COUNT as int), stack@.len(),
    {
        let ghost before_stack = stack@;
        let ghost before_visited = visited@;
        let node = stack.pop().unwrap();
        proof {
            assert(before_stack == stack@.push(node));
            assert(node == before_stack[before_stack.len() - 1]);
            assert forall|x: NodeId| before_stack.contains(x) && x != node implies #[trigger] stack@.contains(x) by {
                let i = choose|i: int| 0 <= i < before_stack.len() && before_stack[i] == x;
                assert(i < stack@.len());
                assert(stack@[i] == x);
            }
        }
        let idx = node as usize;
        if !visited[idx] {
            visited[idx] = true;
            proof {
                lemma_count_false_set(before_visited, idx as int, NODE_COUNT as int);
                assert(visited@ == before_visited.update(idx as int, true));
            }
            let owner = state.node_owner[idx];
            if owner == NO_PLAYER || owner == player {
                let edges = board.node_edges[idx];
                let ghost mid_stack = stack@;
                let mut k: usize = 0;
                while k < 3
                    invariant
                        k <= 3,
                        board.wf(),
                        idx < NODE_COUNT,
                        node as int == idx,
                        !enemy_node(*state, player, idx as int),
                        edges == board.node_edges@[idx as int],
                        visited@[idx as int],
                        in_network(*board, *state, player, idx as int),
                        forall|m: int, n: int| 0 <= m < NODE_COUNT && #[trigger] road_step(*board, *state, player, m, n) ==> 0 <= n < NODE_COUNT,
                        forall|i: int| 0 <= i < stack@.len() ==> (#[trigger] stack@[i] as int) < NODE_COUNT,
                        forall|i: int| 0 <= i < stack@.len() ==> in_network(*board, *state, player, #[trigger] stack@[i] as int),
                        forall|x: NodeId| mid_stack.contains(x) ==> #[trigger] stack@.contains(x),
                        forall|j: int, n: int|
                            0 <= j < k && 0 <= n < NODE_COUNT && #[trigger] road_leads(*board, *state, player, idx as int, j, n)
                                ==> visited@[n] || stack@.contains(n as NodeId),
                    decreases 3 - k,
                {
                    let edge = edges[k];
                    if edge != INVALID_EDGE && state.edge_owner[edge as usize] == player {
                        let nodes = board.edge_nodes[edge as usize];
                        let other = if nodes[0] == node {
                            nodes[1]
                        } else {
                            nodes[0]
                        };
                        proof {
                            assert(road_leads(*board, *state, player, idx as int, k as int, other as int));
                        }
                        if !visited[other as usize] {
                            proof {
                                assert(road_step(*board, *state, player, idx as int, other as int));
                                let path = choose|path: Seq<int>| #[trigger] network_walk(*board, *state, player, path) && path.last() == idx as int;
                                lemma_walk_extend(*board, *state, player, path, other as int);
                            }
                            let ghost pre = stack@;
                            stack.push(other);
                            proof {
                                assert forall|x: NodeId| pre.contains(x) implies #[trigger] stack@.contains(x) by {
                                    let i = choose|i: int| 0 <= i < pre.len() && pre[i] == x;
                                    assert(stack@[i] == x);
                                }
                                assert(stack@[stack@.len() - 1] == other);
                            }
                        }
                    }
                    proof {
                        assert forall|j: int, n: int|
                            0 <= j < k + 1 && 0 <= n < NODE_COUNT && #[trigger] road_leads(*board, *state, player, idx as int, j, n)
                                implies visited@[n] || stack@.contains(n as NodeId) by {
                            if j == k {
                                assert(board.node_edges@[idx as int]@[k as int] == edge);
                            }
                        }
                    }
                    k = k + 1;
                }
            }
        }
        proof {
            assert forall|n: int| 0 <= n < NODE_COUNT && network_start(*board, *state, player, n) implies #[trigger] visited@[n]
                || stack@.contains(n as NodeId) by {
                if n != node as int && !before_visited[n] {
                    assert(before_stack.contains(n as NodeId));
                }
            }
            assert forall|m: int, n: int|
                0 <= m < NODE_COUNT && 0 <= n < NODE_COUNT && visited@[m] && #[trigger] road_step(*board, *state, player, m, n)
                    implies visited@[n] || stack@.contains(n as NodeId) by {
                if m == node as int && !before_visited[m] {
                    let k = choose|k: int| 0 <= k < 3 && #[trigger] road_leads(*board, *state, player, m, k, n);
                    assert(road_leads(*board, *state, player, m, k, n));
                } else {
                    assert(before_visited[m]);
                    if !visited@[n] && n != node as int {
                        assert(before_stack.contains(n as NodeId));
                    }
                }
            }
        }
    }
    proof {
        assert forall|n: int| 0 <= n < NODE_COUNT implies #[trigger] visited@[n] == in_network(*board, *state, player, n) by {
            if in_network(*board, *state, player, n) {
                let path = choose|path: Seq<int>| #[trigger] network_walk(*board, *state, player, path) && path.last() == n;
                lemma_walk_closed(*board, *state, player, path, visited@);
            }
        }
    }
    visited
}

} // verus!
