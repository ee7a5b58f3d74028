use vstd::prelude::*;

use crate::board::Board;
use crate::engine::RoadState;
use crate::reach::{
    enemy_node, lemma_road_step_in_range, lemma_walk_from_closed, lemma_walk_from_extend, reach_mask, reaches_from,
    road_leads, road_step, walk_from,
};
use crate::rules::{edge_other_end, enemy_building_at, other_end};
use crate::bits::{has_bit, lemma_zero_bits};
use crate::state::{
    components_hold, first_component_with, is_player, lemma_nodes_mask_bits, nodes_mask, removed_component,
    spec_node_mask, RoadComponents, State, MAX_ROAD_COMPONENTS,
};
use crate::types::{EdgeId, NodeId, PlayerId, EDGE_COUNT, INVALID_EDGE, NODE_COUNT, NO_PLAYER, PLAYER_COUNT};

verus! {

fn is_enemy_node(state: &State, player: PlayerId, node: NodeId) -> (enemy: bool)
    requires
        (node as int) < NODE_COUNT,
    ensures
        enemy == enemy_building_at(*state, node, player),
{
    let owner = state.node_owner[node as usize];
    owner != NO_PLAYER && owner != player
}

/// The components after joining `i` and `j`: the lower keeps the union, the higher is removed.
pub open spec fn merged(comps: Seq<u64>, i: int, j: int) -> Seq<u64> {
    let keep = if i < j { i } else { j };
    let gone = if i < j { j } else { i };
    comps.update(keep, comps[keep] | comps[gone]).remove(gone)
}

/// The road networks of a player after it lays a road between `a` and `b`: an end that no network
/// reaches, and where no other player has built, joins the network at the other end; two different networks
/// at the two ends merge.
pub open spec fn components_after_road(comps: Seq<u64>, a: NodeId, b: NodeId, enemy_a: bool, enemy_b: bool) -> Seq<u64> {
    let ai = first_component_with(comps, a);
    let bi = first_component_with(comps, b);
    if ai is None && !enemy_a {
        match bi {
            Some(i) => comps.update(i, comps[i] | spec_node_mask(a)),
            None => comps,
        }
    } else if bi is None && !enemy_b {
        match ai {
            Some(i) => comps.update(i, comps[i] | spec_node_mask(b)),
            None => comps,
        }
    } else {
        match (ai, bi) {
            (Some(i), Some(j)) => if i != j {
                merged(comps, i, j)
            } else {
                comps
            },
            _ => comps,
        }
    }
}

proof fn lemma_first_component_witness(comps: Seq<u64>, node: NodeId, k: int)
    requires
        0 <= k < comps.len(),
        crate::bits::has_bit(comps[k], node as int),
    ensures
        exists|i: int|
            0 <= i <= k && crate::bits::has_bit(#[trigger] comps[i], node as int) && forall|j: int|
                0 <= j < i ==> !crate::bits::has_bit(#[trigger] comps[j], node as int),
    decreases k,
{
    if exists|j: int| 0 <= j < k && crate::bits::has_bit(#[trigger] comps[j], node as int) {
        let j = choose|j: int| 0 <= j < k && crate::bits::has_bit(#[trigger] comps[j], node as int);
        lemma_first_component_witness(comps, node, j);
    } else {
        assert(0 <= k <= k && crate::bits::has_bit(comps[k], node as int));
    }
}

proof fn lemma_first_component_in_range(comps: Seq<u64>, node: NodeId)
    ensures
        first_component_with(comps, node) matches Some(i) ==> 0 <= i < comps.len() && crate::bits::has_bit(comps[i], node as int),
{
    if exists|i: int| 0 <= i < comps.len() && crate::bits::has_bit(#[trigger] comps[i], node as int) {
        let k = choose|i: int| 0 <= i < comps.len() && crate::bits::has_bit(#[trigger] comps[i], node as int);
        lemma_first_component_witness(comps, node, k);
    }
}

proof fn lemma_removed_view(slots: Seq<u64>, len: int, idx: int)
    requires
        0 <= idx < len <= slots.len(),
    ensures
        removed_component(slots, len, idx).0 =~= slots.subrange(0, len).remove(idx),
{
}

/// Keeps `player`'s road networks up to date after it lays a road on `edge`.
#[verifier::spinoff_prover]
#[verifier::rlimit(40)]
pub(crate) fn update_components_on_build_road(board: &Board, state: &mut State, player: PlayerId, edge: EdgeId)
    requires
        board.wf(),
        is_player(player),
        (edge as int) < EDGE_COUNT,
    ensures
        *final(state) == (State { road_components: final(state).road_components, ..*old(state) }),
        forall|q: int| 0 <= q < PLAYER_COUNT && q != player ==> #[trigger] final(state).road_components@[q] == old(state).road_components@[q],
        final(state).road_components@[player as int]@ == components_after_road(
            old(state).road_components@[player as int]@,
            board.edge_nodes@[edge as int]@[0],
            board.edge_nodes@[edge as int]@[1],
            enemy_building_at(*old(state), board.edge_nodes@[edge as int]@[0], player),
            enemy_building_at(*old(state), board.edge_nodes@[edge as int]@[1], player),
        ),
        old(state).road_components@[player as int].canonical() ==> final(state).road_components@[player as int].canonical(),
{
    let nodes = board.edge_nodes[edge as usize];
    let a = nodes[0];
    let b = nodes[1];
    let enemy_a = is_enemy_node(state, player, a);
    let enemy_b = is_enemy_node(state, player, b);
    let mut comps = state.road_components[player as usize];
    comps.check_wf();
    proof {
        comps.lemma_view();
        lemma_first_component_in_range(comps@, a);
        lemma_first_component_in_range(comps@, b);
    }
    let ghost before = comps;
    let a_idx = comps.component_index(a);
    let b_idx = comps.component_index(b);
    if a_idx.is_none() && !enemy_a {
        if let Some(idx) = b_idx {
            comps.add_node_to_component(idx, a);
        }
    } else if b_idx.is_none() && !enemy_b {
        if let Some(idx) = a_idx {
            comps.add_node_to_component(idx, b);
        }
    } else if let (Some(ai), Some(bi)) = (a_idx, b_idx) {
        if ai != bi {
            comps.merge_components(ai, bi);
            proof {
                let keep = if ai < bi { ai } else { bi };
                let gone = if ai < bi { bi } else { ai };
                let joined = before.slots().update(keep as int, before.slots()[keep as int] | before.slots()[gone as int]);
                lemma_removed_view(joined, before@.len() as int, gone as int);
                assert(joined.subrange(0, before@.len() as int) =~= before@.update(
                    keep as int,
                    before@[keep as int] | before@[gone as int],
                ));
            }
        }
    }
    state.road_components[player as usize] = comps;
}


/// The number of `false` entries among the first `n`.
pub open spec fn count_unvisited(visited: Seq<bool>, n: int) -> nat
    decreases n,
{
    if n <= 0 {
        0
    } else {
        count_unvisited(visited, n - 1) + if visited[n - 1] {
            0nat
        } else {
            1nat
        }
    }
}

proof fn lemma_count_unvisited_mark(visited: Seq<bool>, n: int, i: int)
    requires
        0 <= i < n <= visited.len(),
        !visited[i],
    ensures
        count_unvisited(visited.update(i, true), n) + 1 == count_unvisited(visited, n),
    decreases n,
{
    if n - 1 > i {
        lemma_count_unvisited_mark(visited, n - 1, i);
    } else {
        assert(visited.update(i, true).subrange(0, n - 1) =~= visited.subrange(0, n - 1));
        lemma_count_unvisited_same(visited.update(i, true), visited, n - 1);
    }
}

proof fn lemma_count_unvisited_same(a: Seq<bool>, b: Seq<bool>, n: int)
    requires
        0 <= n <= a.len(),
        n <= b.len(),
        forall|k: int| 0 <= k < n ==> a[k] == b[k],
    ensures
        count_unvisited(a, n) == count_unvisited(b, n),
    decreases n,
{
    if n > 0 {
        lemma_count_unvisited_same(a, b, n - 1);
    }
}

/// The nodes that `player`'s roads reach from `start`, in the order a depth-first walk visits them; the walk
/// does not go past a node where another player has built.
fn dfs_walk(board: &Board, state: &State, player: PlayerId, start: NodeId) -> (nodes: Vec<NodeId>)
    requires
        board.wf(),
        (start as int) < NODE_COUNT,
    ensures
        forall|i: int| 0 <= i < nodes@.len() ==> (#[trigger] nodes@[i] as int) < NODE_COUNT,
        forall|n: int| 0 <= n < NODE_COUNT ==> (#[trigger] nodes@.contains(n as NodeId) <==> reaches_from(*board, *state, player, start as int, n)),
{
    proof {
        lemma_road_step_in_range(*board, *state, player);
        assert(walk_from(*board, *state, player, start as int, seq![start as int]));
    }
    let mut visited = [false; NODE_COUNT];
    let mut agenda: Vec<NodeId> = Vec::new();
    agenda.push(start);
    let mut nodes: Vec<NodeId> = Vec::new();
    proof {
        assert(agenda@[0] == start);
    }
    while agenda.len() > 0
        invariant
            board.wf(),
            (start as int) < NODE_COUNT,
            forall|m: int, n: int| 0 <= m < NODE_COUNT && #[trigger] road_step(*board, *state, player, m, n) ==> 0 <= n < NODE_COUNT,
            forall|i: int| 0 <= i < agenda@.len() ==> (#[trigger] agenda@[i] as int) < NODE_COUNT,
            forall|i: int| 0 <= i < agenda@.len() ==> reaches_from(*board, *state, player, start as int, #[trigger] agenda@[i] as int),
            forall|i: int| 0 <= i < nodes@.len() ==> (#[trigger] nodes@[i] as int) < NODE_COUNT,
            forall|n: int| 0 <= n < NODE_COUNT ==> (#[trigger] visited@[n] <==> nodes@.contains(n as NodeId)),
            forall|n: int| 0 <= n < NODE_COUNT && #[trigger] visited@[n] ==> reaches_from(*board, *state, player, start as int, n),
            visited@[start as int] || agenda@.contains(start),
            forall|m: int, n: int|
                0 <= m < NODE_COUNT && 0 <= n < NODE_COUNT && visited@[m] && #[trigger] road_step(*board, *state, player, m, n)
                    ==> visited@[n] || agenda@.contains(n as NodeId),
        decreases count_unvisited(visited@, NODE_COUNT as int), agenda@.len(),
    {
        let ghost before_agenda = agenda@;
        let ghost before_visited = visited@;
        let ghost before_nodes = nodes@;
        let node = agenda.pop().unwrap();
        proof {
            assert(before_agenda == agenda@.push(node));
            assert(node == before_agenda[before_agenda.len() - 1]);
            assert forall|x: NodeId| before_agenda.contains(x) && x != node implies #[trigger] agenda@.contains(x) by {
                let i = choose|i: int| 0 <= i < before_agenda.len() && before_agenda[i] == x;
                assert(i < agenda@.len());
                assert(agenda@[i] == x);
            }
            assert forall|i: int| 0 <= i < agenda@.len() implies reaches_from(*board, *state, player, start as int, #[trigger] agenda@[i] as int) by {
                assert(agenda@[i] == before_agenda[i]);
            }
        }
        let idx = node as usize;
        if !visited[idx] {
            proof {
                lemma_count_unvisited_mark(visited@, NODE_COUNT as int, idx as int);
            }
            visited[idx] = true;
            nodes.push(node);
            proof {
                assert(visited@ == before_visited.update(idx as int, true));
                assert(nodes@ == before_nodes.push(node));
                assert(nodes@[nodes@.len() - 1] == node);
                assert forall|n: int| 0 <= n < NODE_COUNT implies (#[trigger] visited@[n] <==> nodes@.contains(n as NodeId)) by {
                    if n != idx as int {
                        if before_nodes.contains(n as NodeId) {
                            let i = choose|i: int| 0 <= i < before_nodes.len() && before_nodes[i] == n as NodeId;
                            assert(nodes@[i] == n as NodeId);
                        }
                        if nodes@.contains(n as NodeId) {
                            let i = choose|i: int| 0 <= i < nodes@.len() && nodes@[i] == n as NodeId;
                            assert(i < before_nodes.len());
                            assert(before_nodes[i] == n as NodeId);
                        }
                    }
                }
                assert(reaches_from(*board, *state, player, start as int, idx as int));
            }
            if !is_enemy_node(state, player, node) {
                let ghost mid_agenda = agenda@;
                let mut k: usize = 0;
                while k < 3
                    invariant
                        k <= 3,
                        board.wf(),
                        (node as int) < NODE_COUNT,
                        idx == node as usize,
                        (start as int) < NODE_COUNT,
                        !enemy_node(*state, player, idx as int),
                        visited@[idx as int],
                        reaches_from(*board, *state, player, start as int, idx as int),
                        forall|i: int| 0 <= i < agenda@.len() ==> (#[trigger] agenda@[i] as int) < NODE_COUNT,
                        forall|i: int| 0 <= i < agenda@.len() ==> reaches_from(*board, *state, player, start as int, #[trigger] agenda@[i] as int),
                        forall|x: NodeId| mid_agenda.contains(x) ==> #[trigger] agenda@.contains(x),
                        forall|j: int, n: int|
                            0 <= j < k && 0 <= n < NODE_COUNT && #[trigger] road_leads(*board, *state, player, idx as int, j, n)
                                ==> visited@[n] || agenda@.contains(n as NodeId),
                    decreases 3 - k,
                {
                    let edge = board.node_edges[idx][k];
                    if edge != INVALID_EDGE {
                        if state.edge_owner[edge as usize] == player {
                            let neighbor = edge_other_end(board, edge, node);
                            proof {
                                assert(road_leads(*board, *state, player, idx as int, k as int, neighbor as int));
                            }
                            if !visited[neighbor as usize] {
                                proof {
                                    assert(road_step(*board, *state, player, idx as int, neighbor as int));
                                    let path = choose|path: Seq<int>| #[trigger] walk_from(*board, *state, player, start as int, path) && path.last() == idx as int;
                                    lemma_walk_from_extend(*board, *state, player, start as int, path, neighbor as int);
                                }
                                let ghost pre = agenda@;
                                agenda.push(neighbor);
                                proof {
                                    assert forall|x: NodeId| pre.contains(x) implies #[trigger] agenda@.contains(x) by {
                                        let i = choose|i: int| 0 <= i < pre.len() && pre[i] == x;
                                        assert(agenda@[i] == x);
                                    }
                                    assert(agenda@[agenda@.len() - 1] == neighbor);
                                    assert forall|i: int| 0 <= i < agenda@.len() implies reaches_from(*board, *state, player, start as int, #[trigger] agenda@[i] as int) by {
                                        if i < pre.len() {
                                            assert(agenda@[i] == pre[i]);
                                        }
                                    }
                                }
                            }
                        }
                    }
                    proof {
                        assert forall|j: int, n: int|
                            0 <= j < k + 1 && 0 <= n < NODE_COUNT && #[trigger] road_leads(*board, *state, player, idx as int, j, n)
                                implies visited@[n] || agenda@.contains(n as NodeId) by {
                            if j == k {
                                assert(board.node_edges@[idx as int]@[k as int] == edge);
                            }
                        }
                    }
                    k = k + 1;
                }
            }
        }
        proof {
            assert(visited@[start as int] || agenda@.contains(start)) by {
                if !visited@[start as int] && start != node {
                    assert(before_agenda.contains(start));
                }
            }
            assert forall|m: int, n: int|
                0 <= m < NODE_COUNT && 0 <= n < NODE_COUNT && visited@[m] && #[trigger] road_step(*board, *state, player, m, n)
                    implies visited@[n] || agenda@.contains(n as NodeId) by {
                if m == node as int && !before_visited[m] {
                    if !enemy_node(*state, player, m) {
                        let k = choose|k: int| 0 <= k < 3 && #[trigger] road_leads(*board, *state, player, m, k, n);
                        assert(road_leads(*board, *state, player, m, k, n));
                    }
                } else {
                    assert(before_visited[m]);
                    if !visited@[n] && n != node as int {
                        assert(before_agenda.contains(n as NodeId));
                    }
                }
            }
        }
    }
    proof {
        assert forall|n: int| 0 <= n < NODE_COUNT implies (#[trigger] nodes@.contains(n as NodeId) <==> reaches_from(*board, *state, player, start as int, n)) by {
            assert(visited@[n] <==> nodes@.contains(n as NodeId));
            if reaches_from(*board, *state, player, start as int, n) {
                let path = choose|path: Seq<int>| #[trigger] walk_from(*board, *state, player, start as int, path) && path.last() == n;
                lemma_walk_from_closed(*board, *state, player, start as int, path, visited@);
            }
        }
    }
    nodes
}

/// The number of `q`'s roads among the first `k` edge slots of `node`.
pub open spec fn roads_at_upto(board: Board, s: State, node: NodeId, q: int, k: int) -> int
    decreases k,
{
    if k <= 0 {
        0
    } else {
        let e = board.node_edges@[node as int]@[k - 1];
        roads_at_upto(board, s, node, q, k - 1) + if e != INVALID_EDGE && s.edge_owner@[e as int] as int == q {
            1int
        } else {
            0
        }
    }
}

/// A settlement of `player` on `node` cuts `q`'s road there: `q` is another player with exactly two roads
/// at the node.
pub open spec fn road_cut(board: Board, s: State, node: NodeId, player: PlayerId, q: int) -> bool {
    q != player as int && roads_at_upto(board, s, node, q, 3) == 2
}

/// The players, lowest seat first, among the first `n` whose road a settlement of `player` on `node` cuts.
pub open spec fn cut_players(board: Board, s: State, node: NodeId, player: PlayerId, n: int) -> Seq<PlayerId>
    decreases n,
{
    if n <= 0 {
        Seq::empty()
    } else if road_cut(board, s, node, player, n - 1) {
        cut_players(board, s, node, player, n - 1).push((n - 1) as PlayerId)
    } else {
        cut_players(board, s, node, player, n - 1)
    }
}

/// The far ends of `q`'s roads among the first `k` edge slots of `node`, in slot order.
pub open spec fn road_ends_upto(board: Board, s: State, node: NodeId, q: int, k: int) -> Seq<NodeId>
    decreases k,
{
    if k <= 0 {
        Seq::empty()
    } else {
        let e = board.node_edges@[node as int]@[k - 1];
        let before = road_ends_upto(board, s, node, q, k - 1);
        if e != INVALID_EDGE && s.edge_owner@[e as int] as int == q {
            before.push(other_end(board, e, node))
        } else {
            before
        }
    }
}

proof fn lemma_road_ends_len(board: Board, s: State, node: NodeId, q: int, k: int)
    ensures
        road_ends_upto(board, s, node, q, k).len() == roads_at_upto(board, s, node, q, k),
    decreases k,
{
    if k > 0 {
        lemma_road_ends_len(board, s, node, q, k - 1);
    }
}

/// `comps` without the first network that holds `node`.
pub open spec fn without_network(comps: Seq<u64>, node: NodeId) -> Seq<u64> {
    match first_component_with(comps, node) {
        Some(i) => comps.remove(i),
        None => comps,
    }
}

/// `after` is `before` with the network through `node` dropped and, in this order, the networks that `q`'s
/// roads reach from `a` and from `c` added.
pub open spec fn networks_split(board: Board, s: State, q: PlayerId, node: NodeId, a: NodeId, c: NodeId, before: Seq<u64>, after: Seq<u64>) -> bool {
    exists|ma: u64, mc: u64|
        #![trigger reach_mask(board, s, q, a as int, ma), reach_mask(board, s, q, c as int, mc)]
        reach_mask(board, s, q, a as int, ma) && reach_mask(board, s, q, c as int, mc) && after == without_network(
            before,
            node,
        ).push(ma).push(mc)
}

/// `networks_split` reads only the buildings and roads of the state.
proof fn lemma_networks_split_same_owners(
    board: Board,
    s1: State,
    s2: State,
    q: PlayerId,
    node: NodeId,
    a: NodeId,
    c: NodeId,
    before: Seq<u64>,
    after: Seq<u64>,
)
    requires
        s1.node_owner == s2.node_owner,
        s1.edge_owner == s2.edge_owner,
        networks_split(board, s1, q, node, a, c, before, after),
    ensures
        networks_split(board, s2, q, node, a, c, before, after),
{
    let (ma, mc) = choose|ma: u64, mc: u64|
        #![trigger reach_mask(board, s1, q, a as int, ma), reach_mask(board, s1, q, c as int, mc)]
        reach_mask(board, s1, q, a as int, ma) && reach_mask(board, s1, q, c as int, mc) && after == without_network(
            before,
            node,
        ).push(ma).push(mc);
    assert forall|n: int| #[trigger] has_bit(ma, n) == (0 <= n < NODE_COUNT && reaches_from(board, s2, q, a as int, n)) by {
        crate::reach::lemma_reaches_same_owners(board, s1, s2, q, a as int, n);
        assert(has_bit(ma, n) == (0 <= n < NODE_COUNT && reaches_from(board, s1, q, a as int, n)));
    }
    assert forall|n: int| #[trigger] has_bit(mc, n) == (0 <= n < NODE_COUNT && reaches_from(board, s2, q, c as int, n)) by {
        crate::reach::lemma_reaches_same_owners(board, s1, s2, q, c as int, n);
        assert(has_bit(mc, n) == (0 <= n < NODE_COUNT && reaches_from(board, s1, q, c as int, n)));
    }
    assert(reach_mask(board, s2, q, a as int, ma));
    assert(reach_mask(board, s2, q, c as int, mc));
}

/// Rebuilds `q`'s road networks after a settlement on `node` cuts its road there: the network through `node` is
/// dropped and the two parts, walked from `a` and from `c`, are added.
fn split_network(board: &Board, state: &mut State, q: PlayerId, node: NodeId, a: NodeId, c: NodeId)
    requires
        board.wf(),
        is_player(q),
        (node as int) < NODE_COUNT,
        (a as int) < NODE_COUNT,
        (c as int) < NODE_COUNT,
        old(state).road_components@[q as int]@.len() + 2 <= MAX_ROAD_COMPONENTS,
    ensures
        *final(state) == (State { road_components: final(state).road_components, ..*old(state) }),
        forall|p: int| 0 <= p < PLAYER_COUNT && p != q ==> #[trigger] final(state).road_components@[p] == old(state).road_components@[p],
        networks_split(
            *board,
            *old(state),
            q,
            node,
            a,
            c,
            old(state).road_components@[q as int]@,
            final(state).road_components@[q as int]@,
        ),
        final(state).road_components@[q as int]@.len() <= old(state).road_components@[q as int]@.len() + 2,
        old(state).road_components@[q as int].canonical() ==> final(state).road_components@[q as int].canonical(),
{
    let a_nodes = dfs_walk(board, state, q, a);
    let c_nodes = dfs_walk(board, state, q, c);
    let mut comps = state.road_components[q as usize];
    comps.check_wf();
    let ghost before = comps;
    proof {
        comps.lemma_view();
        lemma_first_component_in_range(comps@, node);
    }
    if let Some(idx) = comps.component_index(node) {
        comps.remove_component(idx);
        proof {
            lemma_removed_view(before.slots(), before@.len() as int, idx as int);
            assert(before.slots().subrange(0, before@.len() as int).remove(idx as int) == before@.remove(idx as int));
        }
    }
    proof {
        assert(comps@ == without_network(before@, node));
        lemma_nodes_mask_bits(a_nodes@);
        lemma_nodes_mask_bits(c_nodes@);
        lemma_zero_bits();
        assert(walk_from(*board, *state, q, a as int, seq![a as int]));
        assert(walk_from(*board, *state, q, c as int, seq![c as int]));
        assert(has_bit(nodes_mask(a_nodes@), a as int));
        assert(has_bit(nodes_mask(c_nodes@), c as int));
    }
    let ghost mid = comps@;
    comps.push_nodes(a_nodes.as_slice());
    comps.push_nodes(c_nodes.as_slice());
    state.road_components[q as usize] = comps;
    proof {
        let ma = nodes_mask(a_nodes@);
        let mc = nodes_mask(c_nodes@);
        assert(reach_mask(*board, *old(state), q, a as int, ma));
        assert(reach_mask(*board, *old(state), q, c as int, mc));
        assert(state.road_components@[q as int]@ == mid.push(ma).push(mc));
    }
}

/// Every player has room for two more road networks.
pub open spec fn components_have_room(s: State) -> bool {
    forall|q: int| 0 <= q < PLAYER_COUNT ==> #[trigger] s.road_components@[q]@.len() + 2 <= MAX_ROAD_COMPONENTS
}

/// Splits the road networks that a settlement of `player` on `node` cuts: for each player with exactly two
/// roads at the node, the network through the node is dropped and the two parts, walked from the far ends of
/// those roads, are added. Gives those players, lowest seat first.
pub(crate) fn update_components_on_build_settlement(board: &Board, state: &mut State, player: PlayerId, node: NodeId) -> (plowed: Vec<PlayerId>)
    requires
        board.wf(),
        old(state).wf(),
        (node as int) < NODE_COUNT,
        components_have_room(*old(state)),
    ensures
        *final(state) == (State { road_components: final(state).road_components, ..*old(state) }),
        plowed@ == cut_players(*board, *old(state), node, player, PLAYER_COUNT as int),
        forall|q: int|
            0 <= q < PLAYER_COUNT && !road_cut(*board, *old(state), node, player, q) ==> #[trigger] final(state).road_components@[q]
                == old(state).road_components@[q],
        forall|q: int|
            0 <= q < PLAYER_COUNT && road_cut(*board, *old(state), node, player, q) ==> networks_split(
                *board,
                *old(state),
                q as PlayerId,
                node,
                road_ends_upto(*board, *old(state), node, q, 3)[0],
                road_ends_upto(*board, *old(state), node, q, 3)[1],
                old(state).road_components@[q]@,
                #[trigger] final(state).road_components@[q]@,
            ),
        forall|q: int|
            0 <= q < PLAYER_COUNT ==> #[trigger] final(state).road_components@[q]@.len() <= old(state).road_components@[q]@.len() + 2,
        forall|q: int|
            0 <= q < PLAYER_COUNT && old(state).road_components@[q].canonical() ==> #[trigger] final(state).road_components@[q].canonical(),
{
    let mut edges = [[INVALID_EDGE; 3]; PLAYER_COUNT];
    let mut counts = [0usize; PLAYER_COUNT];
    let mut k: usize = 0;
    while k < 3
        invariant
            k <= 3,
            board.wf(),
            state.wf(),
            (node as int) < NODE_COUNT,
            forall|q: int| 0 <= q < PLAYER_COUNT ==> #[trigger] counts@[q] as int == if q == player {
                0
            } else {
                roads_at_upto(*board, *state, node, q, k as int)
            },
            forall|q: int| 0 <= q < PLAYER_COUNT ==> #[trigger] counts@[q] <= k,
            forall|q: int, j: int|
                0 <= q < PLAYER_COUNT && 0 <= j < counts@[q] ==> (#[trigger] edges@[q]@[j] as int) < EDGE_COUNT,
            forall|q: int, j: int|
                0 <= q < PLAYER_COUNT && q != player && 0 <= j < counts@[q] ==> other_end(*board, #[trigger] edges@[q]@[j], node)
                    == road_ends_upto(*board, *state, node, q, k as int)[j],
        decreases 3 - k,
    {
        let ghost pre_edges = edges;
        let ghost pre_counts = counts;
        let edge = board.node_edges[node as usize][k];
        if edge != INVALID_EDGE {
            let owner = state.edge_owner[edge as usize];
            if owner != NO_PLAYER && owner != player {
                let o = owner as usize;
                edges[o][counts[o]] = edge;
                counts[o] = counts[o] + 1;
            }
        }
        proof {
            assert forall|q: int, j: int|
                0 <= q < PLAYER_COUNT && q != player && 0 <= j < counts@[q] implies other_end(*board, #[trigger] edges@[q]@[j], node)
                    == road_ends_upto(*board, *state, node, q, k + 1)[j] by {
                lemma_road_ends_len(*board, *state, node, q, k as int);
                if j < pre_counts@[q] {
                    assert(edges@[q]@[j] == pre_edges@[q]@[j]);
                }
            }
        }
        k = k + 1;
    }
    let ghost o = *state;
    let mut plowed: Vec<PlayerId> = Vec::new();
    let mut q: usize = 0;
    while q < PLAYER_COUNT
        invariant
            q <= PLAYER_COUNT,
            board.wf(),
            o.wf(),
            (node as int) < NODE_COUNT,
            components_have_room(o),
            *state == (State { road_components: state.road_components, ..o }),
            forall|p: int| 0 <= p < PLAYER_COUNT ==> #[trigger] counts@[p] as int == if p == player {
                0
            } else {
                roads_at_upto(*board, o, node, p, 3)
            },
            forall|p: int, j: int|
                0 <= p < PLAYER_COUNT && 0 <= j < counts@[p] ==> (#[trigger] edges@[p]@[j] as int) < EDGE_COUNT,
            forall|p: int, j: int|
                0 <= p < PLAYER_COUNT && p != player && 0 <= j < counts@[p] ==> other_end(*board, #[trigger] edges@[p]@[j], node)
                    == road_ends_upto(*board, o, node, p, 3)[j],
            plowed@ == cut_players(*board, o, node, player, q as int),
            forall|p: int|
                0 <= p < PLAYER_COUNT && (p >= q || !road_cut(*board, o, node, player, p)) ==> #[trigger] state.road_components@[p]
                    == o.road_components@[p],
            forall|p: int|
                0 <= p < q && road_cut(*board, o, node, player, p) ==> networks_split(
                    *board,
                    o,
                    p as PlayerId,
                    node,
                    road_ends_upto(*board, o, node, p, 3)[0],
                    road_ends_upto(*board, o, node, p, 3)[1],
                    o.road_components@[p]@,
                    #[trigger] state.road_components@[p]@,
                ),
            forall|p: int|
                0 <= p < PLAYER_COUNT ==> #[trigger] state.road_components@[p]@.len() <= o.road_components@[p]@.len() + 2,
            forall|p: int|
                0 <= p < PLAYER_COUNT && o.road_components@[p].canonical() ==> #[trigger] state.road_components@[p].canonical(),
        decreases PLAYER_COUNT - q,
    {
        if counts[q] == 2 {
            proof {
                assert(road_cut(*board, o, node, player, q as int));
                assert(o.road_components@[q as int]@.len() + 2 <= MAX_ROAD_COMPONENTS);
            }
            let owner = q as PlayerId;
            plowed.push(owner);
            let a = edge_other_end(board, edges[q][0], node);
            let c = edge_other_end(board, edges[q][1], node);
            let ghost pre = *state;
            split_network(board, state, owner, node, a, c);
            proof {
                lemma_networks_split_same_owners(
                    *board,
                    pre,
                    o,
                    owner,
                    node,
                    a,
                    c,
                    pre.road_components@[q as int]@,
                    state.road_components@[q as int]@,
                );
            }
        } else {
            proof {
                assert(!road_cut(*board, o, node, player, q as int));
            }
        }
        q = q + 1;
    }
    plowed
}


/// The larger of two lengths.
pub open spec fn max_len(a: nat, b: nat) -> nat {
    if a >= b {
        a
    } else {
        b
    }
}

/// The longest trail of `player`'s roads from `node` that uses none of the `used` edges and passes no node
/// where another player has built, with at most `fuel` more roads.
pub open spec fn trail(board: Board, s: State, player: PlayerId, node: NodeId, used: Seq<bool>, fuel: nat) -> nat
    decreases fuel, 1nat,
{
    if fuel == 0 {
        0
    } else {
        max_len(
            max_len(trail_step(board, s, player, node, used, fuel, 0), trail_step(board, s, player, node, used, fuel, 1)),
            trail_step(board, s, player, node, used, fuel, 2),
        )
    }
}

/// The longest trail from `node` that starts along its edge slot `k`.
pub open spec fn trail_step(board: Board, s: State, player: PlayerId, node: NodeId, used: Seq<bool>, fuel: nat, k: int) -> nat
    decreases fuel, 0nat,
{
    let e = board.node_edges@[node as int]@[k];
    if fuel == 0 || e == INVALID_EDGE || s.edge_owner@[e as int] != player || used[e as int] {
        0
    } else {
        let next = other_end(board, e, node);
        if enemy_building_at(s, next, player) {
            0
        } else {
            1 + trail(board, s, player, next, used.update(e as int, true), (fuel - 1) as nat)
        }
    }
}

/// The longest road of `player` that starts at `node`.
pub open spec fn trail_from(board: Board, s: State, player: PlayerId, node: NodeId) -> nat {
    trail(board, s, player, node, Seq::new(EDGE_COUNT as nat, |e: int| false), EDGE_COUNT as nat)
}

proof fn lemma_trail_bound(board: Board, s: State, player: PlayerId, node: NodeId, used: Seq<bool>, fuel: nat)
    ensures
        trail(board, s, player, node, used, fuel) <= fuel,
    decreases fuel,
{
    if fuel > 0 {
        let k0 = board.node_edges@[node as int]@[0];
        let k1 = board.node_edges@[node as int]@[1];
        let k2 = board.node_edges@[node as int]@[2];
        lemma_trail_bound(board, s, player, other_end(board, k0, node), used.update(k0 as int, true), (fuel - 1) as nat);
        lemma_trail_bound(board, s, player, other_end(board, k1, node), used.update(k1 as int, true), (fuel - 1) as nat);
        lemma_trail_bound(board, s, player, other_end(board, k2, node), used.update(k2 as int, true), (fuel - 1) as nat);
    }
}

proof fn lemma_count_unvisited_zero(visited: Seq<bool>, n: int, i: int)
    requires
        0 <= i < n,
        count_unvisited(visited, n) == 0,
    ensures
        visited[i],
    decreases n,
{
    if i < n - 1 {
        lemma_count_unvisited_zero(visited, n - 1, i);
    }
}

/// The longest trail of `player`'s roads from `node` avoiding the `used` edges.
fn dfs_longest_path(board: &Board, state: &State, player: PlayerId, node: NodeId, used: &mut [bool; EDGE_COUNT]) -> (best: u8)
    requires
        board.wf(),
        (node as int) < NODE_COUNT,
    ensures
        best as nat == trail(*board, *state, player, node, old(used)@, count_unvisited(old(used)@, EDGE_COUNT as int)),
        final(used)@ == old(used)@,
    decreases count_unvisited(old(used)@, EDGE_COUNT as int),
{
    let ghost fuel = count_unvisited(used@, EDGE_COUNT as int);
    let ghost start = used@;
    proof {
        lemma_trail_bound(*board, *state, player, node, start, fuel);
        assert(fuel <= EDGE_COUNT) by {
            lemma_count_unvisited_le(start, EDGE_COUNT as int);
        }
    }
    let mut best: u8 = 0;
    let mut k: usize = 0;
    while k < 3
        invariant
            k <= 3,
            board.wf(),
            (node as int) < NODE_COUNT,
            used@ == start,
            start == old(used)@,
            fuel == count_unvisited(start, EDGE_COUNT as int),
            fuel <= EDGE_COUNT,
            best as nat == if k == 0 {
                0
            } else if k == 1 {
                trail_step(*board, *state, player, node, start, fuel, 0)
            } else if k == 2 {
                max_len(trail_step(*board, *state, player, node, start, fuel, 0), trail_step(*board, *state, player, node, start, fuel, 1))
            } else {
                max_len(
                    max_len(trail_step(*board, *state, player, node, start, fuel, 0), trail_step(*board, *state, player, node, start, fuel, 1)),
                    trail_step(*board, *state, player, node, start, fuel, 2),
                )
            },
            best <= fuel,
        decreases 3 - k,
    {
        let edge = board.node_edges[node as usize][k];
        let mut step: u8 = 0;
        if edge != INVALID_EDGE && state.edge_owner[edge as usize] == player && !used[edge as usize] {
            proof {
                lemma_count_unvisited_mark(start, EDGE_COUNT as int, edge as int);
            }
            used[edge as usize] = true;
            let next = edge_other_end(board, edge, node);
            proof {
                assert(used@ == start.update(edge as int, true));
                assert(count_unvisited(used@, EDGE_COUNT as int) < fuel);
            }
            if !is_enemy_node(state, player, next) {
                let length = dfs_longest_path(board, state, player, next, used);
                proof {
                    lemma_trail_bound(*board, *state, player, next, start.update(edge as int, true), (fuel - 1) as nat);
                }
                step = 1 + length;
            }
            used[edge as usize] = false;
            proof {
                assert(used@ =~= start);
            }
        } else {
            proof {
                if fuel == 0 && edge != INVALID_EDGE && state.edge_owner@[edge as int] == player {
                    lemma_count_unvisited_zero(start, EDGE_COUNT as int, edge as int);
                }
            }
        }
        proof {
            assert(step as nat == trail_step(*board, *state, player, node, start, fuel, k as int));
        }
        if step > best {
            best = step;
        }
        k = k + 1;
    }
    best
}

proof fn lemma_count_unvisited_le(visited: Seq<bool>, n: int)
    requires
        0 <= n,
    ensures
        count_unvisited(visited, n) <= n,
    decreases n,
{
    if n > 0 {
        lemma_count_unvisited_le(visited, n - 1);
    }
}


/// `len` is the longest road of `player`: the longest trail from any node its road networks reach, or
/// zero when they reach none.
pub open spec fn is_longest_road(board: Board, s: State, player: PlayerId, len: nat) -> bool {
    &&& forall|n: int|
        0 <= n < NODE_COUNT && components_hold(s.road_components@[player as int]@, n) ==> #[trigger] trail_from(
            board,
            s,
            player,
            n as NodeId,
        ) <= len
    &&& (len == 0 || exists|n: int|
        0 <= n < NODE_COUNT && components_hold(s.road_components@[player as int]@, n) && #[trigger] trail_from(
            board,
            s,
            player,
            n as NodeId,
        ) == len)
}

/// The longest road of `player`.
pub open spec fn spec_longest_road(board: Board, s: State, player: PlayerId) -> nat {
    choose|len: nat| is_longest_road(board, s, player, len)
}

proof fn lemma_longest_road_unique(board: Board, s: State, player: PlayerId, a: nat, b: nat)
    requires
        is_longest_road(board, s, player, a),
        is_longest_road(board, s, player, b),
    ensures
        a == b,
{
    if a != 0 {
        let n = choose|n: int|
            0 <= n < NODE_COUNT && components_hold(s.road_components@[player as int]@, n) && #[trigger] trail_from(
                board,
                s,
                player,
                n as NodeId,
            ) == a;
        assert(trail_from(board, s, player, n as NodeId) <= b);
    }
    if b != 0 {
        let n = choose|n: int|
            0 <= n < NODE_COUNT && components_hold(s.road_components@[player as int]@, n) && #[trigger] trail_from(
                board,
                s,
                player,
                n as NodeId,
            ) == b;
        assert(trail_from(board, s, player, n as NodeId) <= a);
    }
}

pub(crate) fn longest_road_for_player(board: &Board, state: &State, player: PlayerId) -> (best: u8)
    requires
        board.wf(),
        is_player(player),
    ensures
        is_longest_road(*board, *state, player, best as nat),
        best as nat == spec_longest_road(*board, *state, player),
{
    let mut best: u8 = 0;
    let mut n: usize = 0;
    while n < NODE_COUNT
        invariant
            n <= NODE_COUNT,
            board.wf(),
            is_player(player),
            forall|m: int|
                0 <= m < n && components_hold(state.road_components@[player as int]@, m) ==> #[trigger] trail_from(
                    *board,
                    *state,
                    player,
                    m as NodeId,
                ) <= best,
            best == 0 || exists|m: int|
                0 <= m < n && components_hold(state.road_components@[player as int]@, m) && #[trigger] trail_from(
                    *board,
                    *state,
                    player,
                    m as NodeId,
                ) == best,
        decreases NODE_COUNT - n,
    {
        let node = n as NodeId;
        if crate::rules::node_in_component(state, player, node) {
            let mut used = [false; EDGE_COUNT];
            proof {
                assert(used@ =~= Seq::new(EDGE_COUNT as nat, |e: int| false));
                lemma_count_unvisited_all(used@, EDGE_COUNT as int);
            }
            let length = dfs_longest_path(board, state, player, node, &mut used);
            proof {
                assert(length as nat == trail_from(*board, *state, player, node));
                assert(components_hold(state.road_components@[player as int]@, n as int));
            }
            if length > best {
                best = length;
                proof {
                    assert(0 <= n < n + 1 && components_hold(state.road_components@[player as int]@, n as int) && trail_from(
                        *board,
                        *state,
                        player,
                        (n as int) as NodeId,
                    ) == best);
                }
            }
        }
        n = n + 1;
    }
    proof {
        let c = spec_longest_road(*board, *state, player);
        assert(is_longest_road(*board, *state, player, best as nat));
        lemma_longest_road_unique(*board, *state, player, best as nat, c);
    }
    best
}

proof fn lemma_count_unvisited_all(visited: Seq<bool>, n: int)
    requires
        0 <= n <= visited.len(),
        forall|i: int| 0 <= i < visited.len() ==> !visited[i],
    ensures
        count_unvisited(visited, n) == n,
    decreases n,
{
    if n > 0 {
        lemma_count_unvisited_all(visited, n - 1);
    }
}

/// The longest-road standing after `player` lays a road: its best length grows to its new longest road, and it
/// takes the card with five or more when that beats the card's length.
pub open spec fn road_after_build(road: RoadState, player: PlayerId, candidate: u8) -> (Seq<u8>, Option<PlayerId>, u8) {
    let lengths = road.lengths_view();
    let new_lengths = if candidate > lengths[player as int] {
        lengths.update(player as int, candidate)
    } else {
        lengths
    };
    if candidate >= 5 && candidate > road.length_view() {
        (new_lengths, Some(player), candidate)
    } else {
        (new_lengths, road.owner_view(), road.length_view())
    }
}

pub(crate) fn update_longest_road_after_build_road(board: &Board, state: &State, road_state: &mut RoadState, player: PlayerId)
    requires
        board.wf(),
        is_player(player),
        old(road_state).wf(),
    ensures
        final(road_state).wf(),
        (final(road_state).lengths_view(), final(road_state).owner_view(), final(road_state).length_view()) == road_after_build(
            *old(road_state),
            player,
            spec_longest_road(*board, *state, player) as u8,
        ),
        final(road_state).owner_view() != old(road_state).owner_view() ==> final(road_state).owner_view() == Some(player)
            && spec_longest_road(*board, *state, player) >= 5 && final(road_state).length_view() as nat == spec_longest_road(
            *board,
            *state,
            player,
        ),
        spec_longest_road(*board, *state, player) < 5 ==> final(road_state).owner_view() == old(road_state).owner_view()
            && final(road_state).length_view() == old(road_state).length_view(),
{
    let candidate = longest_road_for_player(board, state, player);
    let idx = player as usize;
    if candidate > road_state.lengths[idx] {
        road_state.lengths[idx] = candidate;
    }
    if candidate >= 5 && candidate > road_state.length {
        road_state.length = candidate;
        road_state.owner = Some(player);
    }
    proof {
        assert(road_state.lengths_view() =~= road_after_build(*old(road_state), player, candidate).0);
    }
}

/// The holder and length of the longest road from the players' best lengths: none at zero; the previous
/// holder while it still has the longest; else the first seat with the longest.
pub open spec fn longest_road_owner(lengths: Seq<u8>, previous_owner: Option<PlayerId>) -> (Option<PlayerId>, u8) {
    let max = max_len(max_len(lengths[0] as nat, lengths[1] as nat), max_len(lengths[2] as nat, lengths[3] as nat)) as u8;
    if max == 0 {
        (None, 0)
    } else if previous_owner matches Some(o) && lengths[o as int] == max {
        (previous_owner, max)
    } else if lengths[0] == max {
        (Some(0u8), max)
    } else if lengths[1] == max {
        (Some(1u8), max)
    } else if lengths[2] == max {
        (Some(2u8), max)
    } else {
        (Some(3u8), max)
    }
}

fn select_longest_road_owner(road_lengths: &[u8; PLAYER_COUNT], previous_owner: Option<PlayerId>) -> (chosen: (Option<PlayerId>, u8))
    requires
        previous_owner matches Some(o) ==> is_player(o),
    ensures
        chosen == longest_road_owner(road_lengths@, previous_owner),
{
    let mut max_length: u8 = 0;
    let mut i: usize = 0;
    while i < PLAYER_COUNT
        invariant
            i <= PLAYER_COUNT,
            max_length as nat == if i == 0 {
                0
            } else if i == 1 {
                road_lengths@[0] as nat
            } else if i == 2 {
                max_len(road_lengths@[0] as nat, road_lengths@[1] as nat)
            } else if i == 3 {
                max_len(max_len(road_lengths@[0] as nat, road_lengths@[1] as nat), road_lengths@[2] as nat)
            } else {
                max_len(max_len(max_len(road_lengths@[0] as nat, road_lengths@[1] as nat), road_lengths@[2] as nat), road_lengths@[3] as nat)
            },
        decreases PLAYER_COUNT - i,
    {
        if road_lengths[i] > max_length {
            max_length = road_lengths[i];
        }
        i = i + 1;
    }
    proof {
        let l = road_lengths@;
        assert(max_length as nat == max_len(max_len(l[0] as nat, l[1] as nat), max_len(l[2] as nat, l[3] as nat)));
    }
    if max_length == 0 {
        return (None, 0);
    }
    if let Some(owner) = previous_owner {
        if road_lengths[owner as usize] == max_length {
            return (Some(owner), max_length);
        }
    }
    let mut p: usize = 0;
    while p < PLAYER_COUNT
        invariant
            p <= PLAYER_COUNT,
            max_length != 0,
            max_length as nat == max_len(
                max_len(road_lengths@[0] as nat, road_lengths@[1] as nat),
                max_len(road_lengths@[2] as nat, road_lengths@[3] as nat),
            ),
            !(previous_owner matches Some(o) && road_lengths@[o as int] == max_length),
            forall|q: int| 0 <= q < p ==> #[trigger] road_lengths@[q] != max_length,
        decreases PLAYER_COUNT - p,
    {
        if road_lengths[p] == max_length {
            return (Some(p as u8), max_length);
        }
        p = p + 1;
    }
    (None, max_length)
}

/// The longest-road standing after a settlement cuts the roads of the `plowed` players: their best lengths are
/// their new longest roads, and the card goes as `longest_road_owner` says.
pub open spec fn lengths_after_plow(board: Board, s: State, lengths: Seq<u8>, plowed: Seq<PlayerId>) -> Seq<u8> {
    Seq::new(
        PLAYER_COUNT as nat,
        |q: int|
            if plowed.contains(q as PlayerId) {
                spec_longest_road(board, s, q as PlayerId) as u8
            } else {
                lengths[q]
            },
    )
}

pub(crate) fn update_longest_road_after_plow(
    board: &Board,
    state: &State,
    road_state: &mut RoadState,
    plowed: &[PlayerId],
    previous_owner: Option<PlayerId>,
)
    requires
        board.wf(),
        old(road_state).wf(),
        previous_owner matches Some(o) ==> is_player(o),
        forall|i: int| 0 <= i < plowed@.len() ==> is_player(#[trigger] plowed@[i]),
    ensures
        final(road_state).wf(),
        final(road_state).lengths_view() == lengths_after_plow(*board, *state, old(road_state).lengths_view(), plowed@),
        (final(road_state).owner_view(), final(road_state).length_view()) == longest_road_owner(
            final(road_state).lengths_view(),
            previous_owner,
        ),
{
    let mut i: usize = 0;
    while i < plowed.len()
        invariant
            i <= plowed@.len(),
            board.wf(),
            forall|j: int| 0 <= j < plowed@.len() ==> is_player(#[trigger] plowed@[j]),
            forall|q: int|
                0 <= q < PLAYER_COUNT ==> #[trigger] road_state.lengths@[q] == if plowed@.subrange(0, i as int).contains(
                    q as PlayerId,
                ) {
                    spec_longest_road(*board, *state, q as PlayerId) as u8
                } else {
                    old(road_state).lengths@[q]
                },
        decreases plowed@.len() - i,
    {
        let player = plowed[i];
        let length = longest_road_for_player(board, state, player);
        road_state.lengths[player as usize] = length;
        proof {
            assert forall|q: int|
                0 <= q < PLAYER_COUNT implies #[trigger] road_state.lengths@[q] == if plowed@.subrange(0, i + 1).contains(
                    q as PlayerId,
                ) {
                    spec_longest_road(*board, *state, q as PlayerId) as u8
                } else {
                    old(road_state).lengths@[q]
                } by {
                assert(plowed@.subrange(0, i + 1) =~= plowed@.subrange(0, i as int).push(player));
                if q == player as int {
                    assert(plowed@.subrange(0, i + 1)[i as int] == player);
                }
            }
        }
        i = i + 1;
    }
    proof {
        assert(plowed@.subrange(0, plowed@.len() as int) =~= plowed@);
        assert(road_state.lengths_view() =~= lengths_after_plow(*board, *state, old(road_state).lengths_view(), plowed@));
    }
    let (owner, length) = select_longest_road_owner(&road_state.lengths, previous_owner);
    road_state.length = length;
    road_state.owner = owner;
}

/// The Longest Road card goes only to a road of five or more: after `player` lays a road and its longest road is
/// `candidate`, the card changes hands (or is first given) only to `player`, only when `candidate` is at least five
/// and longer than the card's length, and the card's length is then `candidate`; below five nothing about the card
/// changes.
pub proof fn lemma_longest_road_needs_five(road: RoadState, player: PlayerId, candidate: u8)
    ensures
        road_after_build(road, player, candidate).1 != road.owner_view() ==> {
            &&& road_after_build(road, player, candidate).1 == Some(player)
            &&& candidate >= 5
            &&& candidate > road.length_view()
            &&& road_after_build(road, player, candidate).2 == candidate
        },
        candidate < 5 ==> road_after_build(road, player, candidate).1 == road.owner_view() && road_after_build(
            road,
            player,
            candidate,
        ).2 == road.length_view(),
        road.owner_view() is None && candidate < 5 ==> road_after_build(road, player, candidate).1 is None,
{
}

/// After a settlement cuts roads, the Longest Road card goes to a longest road: nobody holds it when every
/// length is zero; otherwise its holder has the greatest length, which is the card's length, and a previous holder
/// still tied for the greatest keeps it.
pub proof fn lemma_longest_road_owner_is_longest(lengths: Seq<u8>, previous_owner: Option<PlayerId>)
    requires
        lengths.len() == PLAYER_COUNT,
        previous_owner matches Some(o) ==> (o as int) < PLAYER_COUNT,
    ensures
        longest_road_owner(lengths, previous_owner).0 is None <==> forall|i: int| 0 <= i < PLAYER_COUNT ==> #[trigger] lengths[i]
            == 0,
        longest_road_owner(lengths, previous_owner).0 matches Some(o) ==> {
            &&& (o as int) < PLAYER_COUNT
            &&& lengths[o as int] == longest_road_owner(lengths, previous_owner).1
            &&& forall|i: int| 0 <= i < PLAYER_COUNT ==> #[trigger] lengths[i] <= lengths[o as int]
        },
        previous_owner matches Some(o) && lengths[o as int] > 0 && (forall|i: int|
            0 <= i < PLAYER_COUNT ==> #[trigger] lengths[i] <= lengths[o as int]) ==> longest_road_owner(lengths, previous_owner).0
            == previous_owner,
{
    if let Some(o) = previous_owner {
        assert(lengths[o as int] <= max_len(max_len(lengths[0] as nat, lengths[1] as nat), max_len(lengths[2] as nat, lengths[3] as nat)));
    }
}

} // verus!
