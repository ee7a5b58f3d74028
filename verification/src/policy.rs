use vstd::prelude::*;

use crate::board::Board;
use crate::rules::{
    maritime_rate, port_rate, build_city_allowed, build_road_allowed, build_settlement_allowed, initial_road_allowed,
    initial_settlement_allowed, is_legal_build_city, is_legal_build_road, is_legal_build_settlement,
    is_legal_initial_road, is_legal_initial_settlement, node_in_component, player_road_count, road_count,
    MAX_ROADS,
};
use crate::engine::{can_play_dev, may_play_dev};
use crate::rng::{fisher_yates, lemma_shuffled_len, output_xsl_rr, pcg_step, shuffle_with_rng, shuffled, Pcg64};
use crate::state::{components_hold, is_player, State};
use crate::types::{
    resource_index, DevCard, EdgeId, NodeId, PYTHON_RESOURCE_ORDER, PlayerId, Resource, EDGE_COUNT, INVALID_EDGE, INVALID_NODE, NODE_COUNT,
    NO_PLAYER, PLAYER_COUNT, RESOURCE_COUNT,
};

verus! {

/// The least `i` below `bound` with `pred(i)`, if any.
pub open spec fn first_where(pred: spec_fn(int) -> bool, bound: int) -> Option<int> {
    if exists|i: int| 0 <= i < bound && #[trigger] pred(i) {
        Some(choose|i: int| 0 <= i < bound && #[trigger] pred(i) && forall|j: int| 0 <= j < i ==> !#[trigger] pred(j))
    } else {
        None
    }
}

/// The least index with the property is the one `first_where` gives.
pub proof fn lemma_first_where_is(pred: spec_fn(int) -> bool, bound: int, i: int)
    requires
        0 <= i < bound,
        pred(i),
        forall|j: int| 0 <= j < i ==> !#[trigger] pred(j),
    ensures
        first_where(pred, bound) == Some(i),
{
    let c = choose|k: int| 0 <= k < bound && #[trigger] pred(k) && forall|j: int| 0 <= j < k ==> !#[trigger] pred(j);
    assert(0 <= c < bound && pred(c) && forall|j: int| 0 <= j < c ==> !#[trigger] pred(j));
    if c < i {
        assert(!pred(c));
    } else if i < c {
        assert(!pred(i));
    }
}

/// With no index having the property, `first_where` gives nothing.
pub proof fn lemma_first_where_none(pred: spec_fn(int) -> bool, bound: int)
    requires
        forall|j: int| 0 <= j < bound ==> !#[trigger] pred(j),
    ensures
        first_where(pred, bound) is None,
{
}

/// An opening settlement may go on the node.
pub open spec fn initial_settlement_pred(board: Board, s: State) -> spec_fn(int) -> bool {
    |n: int| initial_settlement_allowed(board, s, n as NodeId)
}

/// The node that the first settlement of the opening goes on: the first legal one.
pub open spec fn initial_settlement_choice(board: Board, s: State) -> Option<int> {
    first_where(initial_settlement_pred(board, s), NODE_COUNT as int)
}

pub(crate) fn choose_initial_settlement(board: &Board, state: &State) -> (node: Option<NodeId>)
    requires
        board.wf(),
    ensures
        match node {
            Some(n) => initial_settlement_choice(*board, *state) == Some(n as int),
            None => initial_settlement_choice(*board, *state) is None,
        },
{
    let ghost pred = initial_settlement_pred(*board, *state);
    let mut node: usize = 0;
    while node < NODE_COUNT
        invariant
            node <= NODE_COUNT,
            board.wf(),
            pred == initial_settlement_pred(*board, *state),
            forall|j: int| 0 <= j < node ==> !#[trigger] pred(j),
        decreases NODE_COUNT - node,
    {
        let node_id = node as NodeId;
        if is_legal_initial_settlement(board, state, node_id) {
            proof {
                lemma_first_where_is(pred, NODE_COUNT as int, node as int);
            }
            return Some(node_id);
        }
        node = node + 1;
    }
    proof {
        lemma_first_where_none(pred, NODE_COUNT as int);
    }
    None
}

/// The opening road: the first legal edge at the acting player's last opening settlement, in the order that
/// node lists its edges.
pub open spec fn initial_road_choice(board: Board, s: State) -> Option<EdgeId> {
    let anchor = s.last_initial_settlement@[s.active_player as int];
    if anchor == INVALID_NODE {
        None
    } else {
        match first_where(initial_road_slot(board, s), 3) {
            Some(k) => Some(board.node_edges@[anchor as int]@[k]),
            None => None,
        }
    }
}

/// Slot `k` of the anchor's edge list holds an edge where the acting player may lay its opening road.
pub open spec fn initial_road_slot(board: Board, s: State) -> spec_fn(int) -> bool {
    let player = s.active_player;
    let anchor = s.last_initial_settlement@[player as int];
    |k: int|
        board.node_edges@[anchor as int]@[k] != INVALID_EDGE && initial_road_allowed(
            board,
            s,
            player,
            board.node_edges@[anchor as int]@[k],
            anchor,
        )
}

pub(crate) fn choose_initial_road(board: &Board, state: &State) -> (edge: Option<EdgeId>)
    requires
        board.wf(),
        state.wf(),
    ensures
        edge == initial_road_choice(*board, *state),
{
    let player = state.active_player;
    let anchor = state.last_initial_settlement[player as usize];
    if anchor == INVALID_NODE {
        return None;
    }
    let edges = board.node_edges[anchor as usize];
    let ghost legal = initial_road_slot(*board, *state);
    let mut k: usize = 0;
    while k < 3
        invariant
            k <= 3,
            (anchor as int) < NODE_COUNT,
            edges == board.node_edges@[anchor as int],
            legal == initial_road_slot(*board, *state),
            player == state.active_player,
            anchor == state.last_initial_settlement@[player as int],
            forall|j: int| 0 <= j < k ==> !#[trigger] legal(j),
        decreases 3 - k,
    {
        let edge = edges[k];
        if edge != INVALID_EDGE {
            if is_legal_initial_road(board, state, player, edge, anchor) {
                proof {
                    lemma_first_where_is(legal, 3, k as int);
                }
                return Some(edge);
            }
        }
        k = k + 1;
    }
    proof {
        lemma_first_where_none(legal, 3);
    }
    None
}

/// A city may go on the node.
pub open spec fn city_choice_pred(s: State, player: PlayerId) -> spec_fn(int) -> bool {
    |n: int| build_city_allowed(s, player, n as NodeId)
}

/// The node of the first city that `player` may build.
pub open spec fn city_choice(s: State, player: PlayerId) -> Option<int> {
    first_where(city_choice_pred(s, player), NODE_COUNT as int)
}

pub(crate) fn choose_build_city(board: &Board, state: &State, player: PlayerId) -> (node: Option<NodeId>)
    requires
        is_player(player),
    ensures
        match node {
            Some(n) => city_choice(*state, player) == Some(n as int),
            None => city_choice(*state, player) is None,
        },
{
    let ghost pred = city_choice_pred(*state, player);
    let mut node: usize = 0;
    while node < NODE_COUNT
        invariant
            node <= NODE_COUNT,
            is_player(player),
            pred == city_choice_pred(*state, player),
            forall|j: int| 0 <= j < node ==> !#[trigger] pred(j),
        decreases NODE_COUNT - node,
    {
        let node_id = node as NodeId;
        if is_legal_build_city(board, state, player, node_id) {
            proof {
                lemma_first_where_is(pred, NODE_COUNT as int, node as int);
            }
            return Some(node_id);
        }
        node = node + 1;
    }
    proof {
        lemma_first_where_none(pred, NODE_COUNT as int);
    }
    None
}

/// A settlement may go on the node.
pub open spec fn settlement_choice_pred(board: Board, s: State, player: PlayerId) -> spec_fn(int) -> bool {
    |n: int| build_settlement_allowed(board, s, player, n as NodeId)
}

/// The node of the first settlement that `player` may build.
pub open spec fn settlement_choice(board: Board, s: State, player: PlayerId) -> Option<int> {
    first_where(settlement_choice_pred(board, s, player), NODE_COUNT as int)
}

pub(crate) fn choose_build_settlement(board: &Board, state: &State, player: PlayerId) -> (node: Option<NodeId>)
    requires
        board.wf(),
        is_player(player),
    ensures
        match node {
            Some(n) => settlement_choice(*board, *state, player) == Some(n as int),
            None => settlement_choice(*board, *state, player) is None,
        },
{
    let ghost pred = settlement_choice_pred(*board, *state, player);
    let mut node: usize = 0;
    while node < NODE_COUNT
        invariant
            node <= NODE_COUNT,
            board.wf(),
            is_player(player),
            pred == settlement_choice_pred(*board, *state, player),
            forall|j: int| 0 <= j < node ==> !#[trigger] pred(j),
        decreases NODE_COUNT - node,
    {
        let node_id = node as NodeId;
        if is_legal_build_settlement(board, state, player, node_id) {
            proof {
                lemma_first_where_is(pred, NODE_COUNT as int, node as int);
            }
            return Some(node_id);
        }
        node = node + 1;
    }
    proof {
        lemma_first_where_none(pred, NODE_COUNT as int);
    }
    None
}

/// A road may go on the edge.
pub open spec fn road_choice_pred(board: Board, s: State, player: PlayerId) -> spec_fn(int) -> bool {
    |e: int| build_road_allowed(board, s, player, e as EdgeId)
}

/// The edge of the first road that `player` may build and pay for.
pub open spec fn road_choice(board: Board, s: State, player: PlayerId) -> Option<int> {
    first_where(road_choice_pred(board, s, player), EDGE_COUNT as int)
}

pub(crate) fn choose_build_road(board: &Board, state: &State, player: PlayerId) -> (edge: Option<EdgeId>)
    requires
        board.wf(),
        is_player(player),
    ensures
        match edge {
            Some(e) => road_choice(*board, *state, player) == Some(e as int),
            None => road_choice(*board, *state, player) is None,
        },
{
    let ghost pred = road_choice_pred(*board, *state, player);
    let mut edge: usize = 0;
    while edge < EDGE_COUNT
        invariant
            edge <= EDGE_COUNT,
            board.wf(),
            is_player(player),
            pred == road_choice_pred(*board, *state, player),
            forall|j: int| 0 <= j < edge ==> !#[trigger] pred(j),
        decreases EDGE_COUNT - edge,
    {
        let edge_id = edge as EdgeId;
        if is_legal_build_road(board, state, player, edge_id) {
            proof {
                lemma_first_where_is(pred, EDGE_COUNT as int, edge as int);
            }
            return Some(edge_id);
        }
        edge = edge + 1;
    }
    proof {
        lemma_first_where_none(pred, EDGE_COUNT as int);
    }
    None
}

/// A free road on `edge` is legal for `player`: a road to spare, a free edge, and an end that one of the
/// player's road networks reaches. Nothing is paid.
pub open spec fn free_road_allowed(board: Board, s: State, player: PlayerId, edge: EdgeId) -> bool {
    &&& road_count(s, player) < MAX_ROADS
    &&& (edge as int) < EDGE_COUNT
    &&& s.edge_owner@[edge as int] == NO_PLAYER
    &&& exists|k: int|
        0 <= k < 2 && {
            let n = #[trigger] board.edge_nodes@[edge as int]@[k];
            (n as int) < NODE_COUNT && components_hold(s.road_components@[player as int]@, n as int)
        }
}

pub(crate) fn is_legal_build_road_free(board: &Board, state: &State, player: PlayerId, edge: EdgeId) -> (legal: bool)
    requires
        board.wf(),
        is_player(player),
    ensures
        legal == free_road_allowed(*board, *state, player, edge),
{
    if player_road_count(state, player) >= MAX_ROADS {
        return false;
    }
    if edge as usize >= EDGE_COUNT {
        return false;
    }
    if state.edge_owner[edge as usize] != NO_PLAYER {
        return false;
    }
    let nodes = board.edge_nodes[edge as usize];
    let first = node_in_component(state, player, nodes[0]);
    let second = node_in_component(state, player, nodes[1]);
    proof {
        if !first && !second {
            assert forall|k: int| 0 <= k < 2 implies !({
                let n = #[trigger] board.edge_nodes@[edge as int]@[k];
                (n as int) < NODE_COUNT && components_hold(state.road_components@[player as int]@, n as int)
            }) by {
                if k == 0 {
                } else {
                }
            }
        } else if first {
            assert(board.edge_nodes@[edge as int]@[0] == nodes[0]);
        } else {
            assert(board.edge_nodes@[edge as int]@[1] == nodes[1]);
        }
    }
    first || second
}

/// A free road may go on the edge.
pub open spec fn free_road_choice_pred(board: Board, s: State, player: PlayerId) -> spec_fn(int) -> bool {
    |e: int| free_road_allowed(board, s, player, e as EdgeId)
}

/// The edge of the first free road that `player` may build.
pub open spec fn free_road_choice(board: Board, s: State, player: PlayerId) -> Option<int> {
    first_where(free_road_choice_pred(board, s, player), EDGE_COUNT as int)
}

pub(crate) fn choose_free_road(board: &Board, state: &State, player: PlayerId) -> (edge: Option<EdgeId>)
    requires
        board.wf(),
        is_player(player),
    ensures
        match edge {
            Some(e) => free_road_choice(*board, *state, player) == Some(e as int),
            None => free_road_choice(*board, *state, player) is None,
        },
{
    let ghost pred = free_road_choice_pred(*board, *state, player);
    let mut edge: usize = 0;
    while edge < EDGE_COUNT
        invariant
            edge <= EDGE_COUNT,
            board.wf(),
            is_player(player),
            pred == free_road_choice_pred(*board, *state, player),
            forall|j: int| 0 <= j < edge ==> !#[trigger] pred(j),
        decreases EDGE_COUNT - edge,
    {
        let edge_id = edge as EdgeId;
        if is_legal_build_road_free(board, state, player, edge_id) {
            proof {
                lemma_first_where_is(pred, EDGE_COUNT as int, edge as int);
            }
            return Some(edge_id);
        }
        edge = edge + 1;
    }
    proof {
        lemma_first_where_none(pred, EDGE_COUNT as int);
    }
    None
}


/// The first resource, in the order lumber, brick, wool, grain, ore, with the property.
pub open spec fn first_resource_where(pred: spec_fn(Resource) -> bool) -> Option<Resource> {
    if pred(Resource::Lumber) {
        Some(Resource::Lumber)
    } else if pred(Resource::Brick) {
        Some(Resource::Brick)
    } else if pred(Resource::Wool) {
        Some(Resource::Wool)
    } else if pred(Resource::Grain) {
        Some(Resource::Grain)
    } else if pred(Resource::Ore) {
        Some(Resource::Ore)
    } else {
        None
    }
}

/// The resources in the order the choices scan them.
pub open spec fn scan_order() -> Seq<Resource> {
    seq![Resource::Lumber, Resource::Brick, Resource::Wool, Resource::Grain, Resource::Ore]
}

/// A scan that found its first hit at position `i` gives `first_resource_where`.
pub proof fn lemma_first_resource_at(pred: spec_fn(Resource) -> bool, i: int)
    requires
        0 <= i < 5,
        pred(scan_order()[i]),
        forall|j: int| 0 <= j < i ==> !#[trigger] pred(scan_order()[j]),
    ensures
        first_resource_where(pred) == Some(scan_order()[i]),
{
    if i > 0 {
        assert(!pred(scan_order()[0]));
    }
    if i > 1 {
        assert(!pred(scan_order()[1]));
    }
    if i > 2 {
        assert(!pred(scan_order()[2]));
    }
    if i > 3 {
        assert(!pred(scan_order()[3]));
    }
}

/// A scan that found nothing gives no resource.
pub proof fn lemma_first_resource_none(pred: spec_fn(Resource) -> bool)
    requires
        forall|j: int| 0 <= j < 5 ==> !#[trigger] pred(scan_order()[j]),
    ensures
        first_resource_where(pred) is None,
{
    assert(!pred(scan_order()[0]));
    assert(!pred(scan_order()[1]));
    assert(!pred(scan_order()[2]));
    assert(!pred(scan_order()[3]));
    assert(!pred(scan_order()[4]));
}

/// The bank has a card of the resource.
pub open spec fn bank_has(s: State) -> spec_fn(Resource) -> bool {
    |r: Resource| s.bank(r) > 0
}

/// The bank has a card of the resource, and it is not `first`.
pub open spec fn bank_has_other(s: State, first: Resource) -> spec_fn(Resource) -> bool {
    |r: Resource| r != first && s.bank(r) > 0
}

/// The scan for the first resource the bank holds, skipping `skip` when one is given.
fn first_in_bank(state: &State, skip: Option<Resource>) -> (found: Option<Resource>)
    ensures
        found == match skip {
            Some(first) => first_resource_where(bank_has_other(*state, first)),
            None => first_resource_where(bank_has(*state)),
        },
{
    let ghost pred = match skip {
        Some(first) => bank_has_other(*state, first),
        None => bank_has(*state),
    };
    let order = Resource::ALL;
    let mut i: usize = 0;
    while i < RESOURCE_COUNT
        invariant
            i <= RESOURCE_COUNT,
            order@ == scan_order(),
            pred == match skip {
                Some(first) => bank_has_other(*state, first),
                None => bank_has(*state),
            },
            forall|j: int| 0 <= j < i ==> !#[trigger] pred(scan_order()[j]),
        decreases RESOURCE_COUNT - i,
    {
        let resource = order[i];
        let skipped = match skip {
            Some(first) => resource == first,
            None => false,
        };
        if !skipped && state.bank_resources[resource.as_index()] > 0 {
            proof {
                lemma_first_resource_at(pred, i as int);
            }
            return Some(resource);
        }
        i = i + 1;
    }
    proof {
        lemma_first_resource_none(pred);
    }
    None
}

/// What a played development card carries: the year-of-plenty picks, the monopoly resource, or nothing.
#[derive(Copy, Clone, Debug, PartialEq, Eq, Structural)]
pub enum DevPayload {
    Plain,
    YearOfPlenty(Resource, Option<Resource>),
    Monopoly(Resource),
}

/// The year-of-plenty picks: the first resource the bank holds, then the same again when the bank holds
/// two, else the first other resource it holds.
pub open spec fn year_of_plenty_choice(s: State) -> Option<DevPayload> {
    match first_resource_where(bank_has(s)) {
        None => None,
        Some(first) => Some(
            DevPayload::YearOfPlenty(
                first,
                if s.bank(first) > 1 {
                    Some(first)
                } else {
                    first_resource_where(bank_has_other(s, first))
                },
            ),
        ),
    }
}

fn choose_year_of_plenty(state: &State) -> (payload: Option<DevPayload>)
    ensures
        payload == year_of_plenty_choice(*state),
{
    let first = match first_in_bank(state, None) {
        Some(first) => first,
        None => return None,
    };
    let second = if state.bank_resources[first.as_index()] > 1 {
        Some(first)
    } else {
        first_in_bank(state, Some(first))
    };
    Some(DevPayload::YearOfPlenty(first, second))
}

/// The cards of the resource held by the players other than `player`.
pub open spec fn others_hold(s: State, player: PlayerId, r: Resource) -> int {
    (if player != 0 { s.hand(0, r) as int } else { 0 }) + (if player != 1 { s.hand(1, r) as int } else { 0 }) + (if player
        != 2 {
        s.hand(2, r) as int
    } else {
        0
    }) + (if player != 3 { s.hand(3, r) as int } else { 0 })
}

/// Another player holds a card of the resource.
pub open spec fn others_have(s: State, player: PlayerId) -> spec_fn(Resource) -> bool {
    |r: Resource| others_hold(s, player, r) > 0
}

/// The monopoly pick: the first resource another player holds.
pub open spec fn monopoly_choice(s: State, player: PlayerId) -> Option<Resource> {
    first_resource_where(others_have(s, player))
}

fn choose_monopoly(state: &State, player: PlayerId) -> (resource: Option<Resource>)
    ensures
        resource == monopoly_choice(*state, player),
{
    let ghost pred = others_have(*state, player);
    let order = Resource::ALL;
    let mut i: usize = 0;
    while i < RESOURCE_COUNT
        invariant
            i <= RESOURCE_COUNT,
            order@ == scan_order(),
            pred == others_have(*state, player),
            forall|j: int| 0 <= j < i ==> !#[trigger] pred(scan_order()[j]),
        decreases RESOURCE_COUNT - i,
    {
        let resource = order[i];
        let r = resource.as_index();
        let mut total: u32 = 0;
        let mut other: usize = 0;
        while other < PLAYER_COUNT
            invariant
                other <= PLAYER_COUNT,
                r == resource_index(resource),
                total == (if 0 < other && player != 0 { state.hand(0, resource) as int } else { 0 }) + (if 1 < other && player
                    != 1 {
                    state.hand(1, resource) as int
                } else {
                    0
                }) + (if 2 < other && player != 2 { state.hand(2, resource) as int } else { 0 }) + (if 3 < other && player
                    != 3 {
                    state.hand(3, resource) as int
                } else {
                    0
                }),
            decreases PLAYER_COUNT - other,
        {
            if other as u8 != player {
                total = total + state.player_resources[other][r] as u32;
            }
            other = other + 1;
        }
        if total > 0 {
            proof {
                lemma_first_resource_at(pred, i as int);
            }
            return Some(resource);
        }
        i = i + 1;
    }
    proof {
        lemma_first_resource_none(pred);
    }
    None
}

/// The maritime rate that `player` gets for `offer`.
pub(crate) fn trade_rate(board: &Board, state: &State, player: PlayerId, offer: Resource) -> (rate: u8)
    ensures
        rate == maritime_rate(*board, *state, player, offer),
{
    port_rate(board, state, player, offer)
}

/// `player` can pay the maritime rate for the resource, and the bank holds some other resource.
pub open spec fn maritime_offer_ok(board: Board, s: State, player: PlayerId) -> spec_fn(Resource) -> bool {
    |offer: Resource|
        s.hand(player, offer) >= maritime_rate(board, s, player, offer) && first_resource_where(bank_has_other(s, offer))
            is Some
}

/// The maritime trade: the first resource `player` can pay the rate for, its rate, and the first other
/// resource the bank holds.
pub open spec fn maritime_choice(board: Board, s: State, player: PlayerId) -> Option<(Resource, u8, Resource)> {
    match first_resource_where(maritime_offer_ok(board, s, player)) {
        Some(offer) => Some(
            (offer, maritime_rate(board, s, player, offer), first_resource_where(bank_has_other(s, offer))->0),
        ),
        None => None,
    }
}

pub(crate) fn choose_maritime_trade(board: &Board, state: &State, player: PlayerId) -> (trade: Option<(Resource, u8, Resource)>)
    requires
        is_player(player),
    ensures
        trade == maritime_choice(*board, *state, player),
{
    let ghost pred = maritime_offer_ok(*board, *state, player);
    let order = Resource::ALL;
    let mut i: usize = 0;
    while i < RESOURCE_COUNT
        invariant
            i <= RESOURCE_COUNT,
            is_player(player),
            order@ == scan_order(),
            pred == maritime_offer_ok(*board, *state, player),
            forall|j: int| 0 <= j < i ==> !#[trigger] pred(scan_order()[j]),
        decreases RESOURCE_COUNT - i,
    {
        let offer = order[i];
        let rate = trade_rate(board, state, player, offer);
        if state.player_resources[player as usize][offer.as_index()] >= rate {
            if let Some(ask) = first_in_bank(state, Some(offer)) {
                proof {
                    lemma_first_resource_at(pred, i as int);
                }
                return Some((offer, rate, ask));
            }
        }
        i = i + 1;
    }
    proof {
        lemma_first_resource_none(pred);
    }
    None
}


/// `player` holds a card of the resource, and it is not `skip` when one is given.
pub open spec fn holds_other(s: State, player: int, skip: Option<Resource>) -> spec_fn(Resource) -> bool {
    |r: Resource| skip != Some(r) && s.player_resources@[player]@[resource_index(r)] > 0
}

/// The scan for the first resource `player` holds, skipping `skip` when one is given.
fn first_held(state: &State, player: PlayerId, skip: Option<Resource>) -> (found: Option<Resource>)
    requires
        is_player(player),
    ensures
        found == first_resource_where(holds_other(*state, player as int, skip)),
{
    let ghost pred = holds_other(*state, player as int, skip);
    let order = Resource::ALL;
    let mut i: usize = 0;
    while i < RESOURCE_COUNT
        invariant
            i <= RESOURCE_COUNT,
            is_player(player),
            order@ == scan_order(),
            pred == holds_other(*state, player as int, skip),
            forall|j: int| 0 <= j < i ==> !#[trigger] pred(scan_order()[j]),
        decreases RESOURCE_COUNT - i,
    {
        let resource = order[i];
        let skipped = match skip {
            Some(r) => resource == r,
            None => false,
        };
        if !skipped && state.player_resources[player as usize][resource.as_index()] > 0 {
            proof {
                lemma_first_resource_at(pred, i as int);
            }
            return Some(resource);
        }
        i = i + 1;
    }
    proof {
        lemma_first_resource_none(pred);
    }
    None
}

/// Seat `q` is another player holding a card other than `offer`.
pub open spec fn can_answer(s: State, player: PlayerId, offer: Resource) -> spec_fn(int) -> bool {
    |q: int| q != player && first_resource_where(holds_other(s, q, Some(offer))) is Some
}

/// A one-for-one trade: one `offer` given, one `ask` asked.
pub open spec fn one_for_one(trade: [u8; 10], offer: Resource, ask: Resource) -> bool {
    forall|i: int|
        0 <= i < 10 ==> #[trigger] trade@[i] == if i == resource_index(offer) || i == RESOURCE_COUNT + resource_index(ask) {
            1u8
        } else {
            0u8
        }
}

/// The domestic trade `player` offers: one of the first resource it holds, for one of the first other
/// resource that the first other seat holding one holds. The two resources.
pub open spec fn domestic_choice(s: State, player: PlayerId) -> Option<(Resource, Resource)> {
    match first_resource_where(holds_other(s, player as int, None)) {
        None => None,
        Some(offer) => match first_where(can_answer(s, player, offer), PLAYER_COUNT as int) {
            None => None,
            Some(q) => Some((offer, first_resource_where(holds_other(s, q, Some(offer)))->0)),
        },
    }
}

pub(crate) fn choose_domestic_trade(state: &State, player: PlayerId) -> (trade: Option<[u8; 10]>)
    requires
        is_player(player),
    ensures
        match domestic_choice(*state, player) {
            None => trade is None,
            Some((offer, ask)) => trade matches Some(t) && one_for_one(t, offer, ask),
        },
{
    let offer_resource = match first_held(state, player, None) {
        Some(r) => r,
        None => return None,
    };
    let ghost pred = can_answer(*state, player, offer_resource);
    let mut other: usize = 0;
    while other < PLAYER_COUNT
        invariant
            other <= PLAYER_COUNT,
            pred == can_answer(*state, player, offer_resource),
            forall|j: int| 0 <= j < other ==> !#[trigger] pred(j),
            first_resource_where(holds_other(*state, player as int, None)) == Some(offer_resource),
        decreases PLAYER_COUNT - other,
    {
        if other as u8 != player {
            proof {
                assert((other as u8) as int == other as int);
            }
            if let Some(ask_resource) = first_held(state, other as u8, Some(offer_resource)) {
                proof {
                    lemma_first_where_is(pred, PLAYER_COUNT as int, other as int);
                }
                let mut trade = [0u8; 10];
                trade[offer_resource.as_index()] = 1;
                trade[RESOURCE_COUNT + ask_resource.as_index()] = 1;
                proof {
                    assert(first_where(pred, PLAYER_COUNT as int) == Some(other as int));
                    assert(first_resource_where(holds_other(*state, other as int, Some(offer_resource))) == Some(ask_resource));
                    assert(first_resource_where(holds_other(*state, player as int, None)) == Some(offer_resource));
                    assert(domestic_choice(*state, player) == Some((offer_resource, ask_resource)));
                    assert forall|i: int| 0 <= i < 10 implies #[trigger] trade@[i] == if i == resource_index(offer_resource) || i
                        == RESOURCE_COUNT + resource_index(ask_resource) {
                        1u8
                    } else {
                        0u8
                    } by {
                    }
                }
                return Some(trade);
            }
        }
        other = other + 1;
    }
    proof {
        lemma_first_where_none(pred, PLAYER_COUNT as int);
    }
    None
}


/// The development card the turn player plays, if any: year of plenty when the bank holds a card, then
/// monopoly when another player holds a card, then a knight, then road building when a free road can be laid.
pub open spec fn dev_play_choice(board: Board, s: State) -> Option<(DevCard, DevPayload)> {
    let player = s.turn_player;
    if may_play_dev(s, player, DevCard::YearOfPlenty) && year_of_plenty_choice(s) is Some {
        Some((DevCard::YearOfPlenty, year_of_plenty_choice(s)->0))
    } else if may_play_dev(s, player, DevCard::Monopoly) && monopoly_choice(s, player) is Some {
        Some((DevCard::Monopoly, DevPayload::Monopoly(monopoly_choice(s, player)->0)))
    } else if may_play_dev(s, player, DevCard::Knight) {
        Some((DevCard::Knight, DevPayload::Plain))
    } else if may_play_dev(s, player, DevCard::RoadBuilding) && free_road_choice(board, s, player) is Some {
        Some((DevCard::RoadBuilding, DevPayload::Plain))
    } else {
        None
    }
}

pub(crate) fn choose_dev_play(board: &Board, state: &State) -> (play: Option<(DevCard, DevPayload)>)
    requires
        board.wf(),
        is_player(state.turn_player),
    ensures
        play == dev_play_choice(*board, *state),
{
    let player = state.turn_player;
    if can_play_dev(state, player, DevCard::YearOfPlenty) {
        if let Some(payload) = choose_year_of_plenty(state) {
            return Some((DevCard::YearOfPlenty, payload));
        }
    }
    if can_play_dev(state, player, DevCard::Monopoly) {
        if let Some(resource) = choose_monopoly(state, player) {
            return Some((DevCard::Monopoly, DevPayload::Monopoly(resource)));
        }
    }
    if can_play_dev(state, player, DevCard::Knight) {
        return Some((DevCard::Knight, DevPayload::Plain));
    }
    if can_play_dev(state, player, DevCard::RoadBuilding) {
        if choose_free_road(board, state, player).is_some() {
            return Some((DevCard::RoadBuilding, DevPayload::Plain));
        }
    }
    None
}

/// `n` copies of `r`.
pub open spec fn copies(r: Resource, n: u8) -> Seq<Resource> {
    Seq::new(n as nat, |i: int| r)
}

/// A hand laid out card by card: the lumber, then brick, wool, grain and ore.
pub open spec fn hand_cards(hand: [u8; RESOURCE_COUNT]) -> Seq<Resource> {
    copies(Resource::Lumber, hand@[1]) + copies(Resource::Brick, hand@[0]) + copies(Resource::Wool, hand@[4]) + copies(
        Resource::Grain,
        hand@[3],
    ) + copies(Resource::Ore, hand@[2])
}

/// The first `i` groups of a hand laid out card by card, in scan order.
pub open spec fn hand_cards_upto(hand: [u8; RESOURCE_COUNT], i: int) -> Seq<Resource>
    decreases i,
{
    if i <= 0 {
        Seq::empty()
    } else {
        let r = scan_order()[i - 1];
        hand_cards_upto(hand, i - 1) + copies(r, hand@[resource_index(r)])
    }
}

/// The number of cards of resource index `k` among `cards`.
pub open spec fn count_of(cards: Seq<Resource>, k: int) -> nat
    decreases cards.len(),
{
    if cards.len() == 0 {
        0
    } else {
        count_of(cards.drop_last(), k) + if resource_index(cards.last()) == k {
            1nat
        } else {
            0nat
        }
    }
}

/// The discard: half the hand, rounded down, taken from the top of the hand shuffled card by card; and the
/// generator state after the shuffle. With nothing to discard, nothing is drawn.
pub open spec fn discard_choice(hand: [u8; RESOURCE_COUNT], state: u128, increment: u128) -> (Seq<nat>, u128) {
    let to_discard = (count_total_of(hand) / 2) as int;
    if to_discard == 0 {
        (Seq::new(RESOURCE_COUNT as nat, |k: int| 0nat), state)
    } else {
        let (cards, next) = shuffled(hand_cards(hand), state, increment);
        (Seq::new(RESOURCE_COUNT as nat, |k: int| count_of(cards.take(to_discard), k)), next)
    }
}

/// The number of cards in a hand.
pub open spec fn count_total_of(hand: [u8; RESOURCE_COUNT]) -> int {
    hand@[0] + hand@[1] + hand@[2] + hand@[3] + hand@[4]
}

proof fn lemma_count_of_push(cards: Seq<Resource>, r: Resource, k: int)
    ensures
        count_of(cards.push(r), k) == count_of(cards, k) + if resource_index(r) == k { 1nat } else { 0nat },
{
    assert(cards.push(r).drop_last() =~= cards);
}

proof fn lemma_count_of_bound(cards: Seq<Resource>, k: int)
    ensures
        count_of(cards, k) <= cards.len(),
    decreases cards.len(),
{
    if cards.len() > 0 {
        lemma_count_of_bound(cards.drop_last(), k);
    }
}

/// A hand laid out card by card: the lumber, then brick, wool, grain and ore.
pub(crate) fn hand_deck(hand: &[u8; RESOURCE_COUNT]) -> (deck: Vec<Resource>)
    ensures
        deck@ == hand_cards(*hand),
{
    let order = PYTHON_RESOURCE_ORDER;
    let mut deck: Vec<Resource> = Vec::new();
    let mut i: usize = 0;
    while i < RESOURCE_COUNT
        invariant
            i <= RESOURCE_COUNT,
            order@ == scan_order(),
            deck@ == hand_cards_upto(*hand, i as int),
        decreases RESOURCE_COUNT - i,
    {
        let resource = order[i];
        let count = hand[resource.as_index()];
        let mut j: u8 = 0;
        while j < count
            invariant
                j <= count,
                i < RESOURCE_COUNT,
                resource == scan_order()[i as int],
                count == hand@[resource_index(resource)],
                deck@ == hand_cards_upto(*hand, i as int) + copies(resource, j),
            decreases count - j,
        {
            deck.push(resource);
            j = j + 1;
            proof {
                assert(deck@ =~= hand_cards_upto(*hand, i as int) + copies(resource, j));
            }
        }
        i = i + 1;
    }
    proof {
        let c0 = copies(Resource::Lumber, hand@[1]);
        let c1 = copies(Resource::Brick, hand@[0]);
        let c2 = copies(Resource::Wool, hand@[4]);
        let c3 = copies(Resource::Grain, hand@[3]);
        let c4 = copies(Resource::Ore, hand@[2]);
        assert(hand_cards_upto(*hand, 0) =~= Seq::<Resource>::empty());
        assert(hand_cards_upto(*hand, 1) =~= c0);
        assert(hand_cards_upto(*hand, 2) =~= c0 + c1);
        assert(hand_cards_upto(*hand, 3) =~= c0 + c1 + c2);
        assert(hand_cards_upto(*hand, 4) =~= c0 + c1 + c2 + c3);
        assert(hand_cards_upto(*hand, 5) =~= c0 + c1 + c2 + c3 + c4);
        assert(hand_cards_upto(*hand, 5) =~= hand_cards(*hand));
    }
    deck
}

pub(crate) fn random_discard_counts(hand: &[u8; RESOURCE_COUNT], rng: &mut Pcg64) -> (counts: [u8; RESOURCE_COUNT])
    requires
        count_total_of(*hand) <= 511,
    ensures
        forall|k: int| 0 <= k < RESOURCE_COUNT ==> #[trigger] counts@[k] <= hand@[k],
        counts@[0] + counts@[1] + counts@[2] + counts@[3] + counts@[4] == count_total_of(*hand) / 2,
        ({
            let (expected, next) = discard_choice(*hand, old(rng).spec_state(), old(rng).spec_increment());
            &&& forall|k: int| 0 <= k < RESOURCE_COUNT ==> #[trigger] counts@[k] as nat == expected[k]
            &&& final(rng).spec_state() == next
            &&& final(rng).spec_increment() == old(rng).spec_increment()
        }),
{
    let total: usize = hand[0] as usize + hand[1] as usize + hand[2] as usize + hand[3] as usize + hand[4] as usize;
    let to_discard = total / 2;
    if to_discard == 0 {
        return [0u8; RESOURCE_COUNT];
    }
    let mut deck = hand_deck(hand);
    let ghost before = deck@;
    shuffle_with_rng(deck.as_mut_slice(), rng);
    let ghost cards = deck@;
    proof {
        lemma_hand_cards_len(*hand);
        assert(before.len() == count_total_of(*hand));
        assert(cards.len() == before.len()) by {
            lemma_shuffled_len(before, old(rng).spec_state(), old(rng).spec_increment());
        }
        assert forall|k: int| 0 <= k < RESOURCE_COUNT implies #[trigger] count_of(cards, k) == hand@[k] by {
            lemma_shuffled_counts(before, old(rng).spec_state(), old(rng).spec_increment(), k);
            lemma_hand_cards_counts(*hand, k);
        }
    }
    let mut counts = [0u8; RESOURCE_COUNT];
    let mut n: usize = 0;
    while n < to_discard
        invariant
            n <= to_discard,
            to_discard <= 255,
            to_discard <= cards.len(),
            deck@ == cards,
            forall|k: int| 0 <= k < RESOURCE_COUNT ==> #[trigger] counts@[k] as nat == count_of(cards.take(n as int), k),
            forall|k: int| 0 <= k < RESOURCE_COUNT ==> #[trigger] count_of(cards, k) == hand@[k],
            counts@[0] + counts@[1] + counts@[2] + counts@[3] + counts@[4] == n,
        decreases to_discard - n,
    {
        let idx = deck[n].as_index();
        proof {
            lemma_count_of_bound(cards.take(n as int), idx as int);
            assert(cards.take(n as int + 1) =~= cards.take(n as int).push(cards[n as int]));
            assert forall|k: int| 0 <= k < RESOURCE_COUNT implies count_of(cards.take(n as int + 1), k) == count_of(
                cards.take(n as int),
                k,
            ) + if resource_index(cards[n as int]) == k {
                1nat
            } else {
                0nat
            } by {
                lemma_count_of_push(cards.take(n as int), cards[n as int], k);
            }
        }
        counts[idx] = counts[idx] + 1;
        n = n + 1;
    }
    proof {
        assert forall|k: int| 0 <= k < RESOURCE_COUNT implies #[trigger] counts@[k] <= hand@[k] by {
            lemma_count_of_take(cards, to_discard as int, k);
        }
    }
    counts
}

/// The count of resource index `k` after replacing entry `i` by `a`.
proof fn lemma_count_of_update(cards: Seq<Resource>, i: int, a: Resource, k: int)
    requires
        0 <= i < cards.len(),
    ensures
        count_of(cards.update(i, a), k) + (if resource_index(cards[i]) == k { 1int } else { 0 }) == count_of(cards, k) + (if resource_index(a)
            == k {
            1int
        } else {
            0
        }),
    decreases cards.len(),
{
    if i == cards.len() - 1 {
        assert(cards.update(i, a).drop_last() =~= cards.drop_last());
    } else {
        assert(cards.update(i, a).drop_last() =~= cards.drop_last().update(i, a));
        lemma_count_of_update(cards.drop_last(), i, a, k);
    }
}

/// Swapping two entries keeps every count.
proof fn lemma_count_of_swap(cards: Seq<Resource>, i: int, j: int, k: int)
    requires
        0 <= i < cards.len(),
        0 <= j < cards.len(),
    ensures
        count_of(cards.update(i, cards[j]).update(j, cards[i]), k) == count_of(cards, k),
{
    let t = cards.update(i, cards[j]);
    lemma_count_of_update(cards, i, cards[j], k);
    lemma_count_of_update(t, j, cards[i], k);
    assert(t[j] == cards[j]);
}

/// A Fisher-Yates pass keeps every count.
proof fn lemma_fisher_yates_counts(cards: Seq<Resource>, state: u128, increment: u128, i: nat, k: int)
    requires
        i < cards.len(),
    ensures
        count_of(fisher_yates(cards, state, increment, i).0, k) == count_of(cards, k),
    decreases i,
{
    if i > 0 {
        let next = pcg_step(state, increment);
        let j = (output_xsl_rr(next) as nat % (i + 1)) as int;
        let swapped = cards.update(i as int, cards[j]).update(j, cards[i as int]);
        lemma_count_of_swap(cards, i as int, j, k);
        lemma_fisher_yates_counts(swapped, next, increment, (i - 1) as nat, k);
    }
}

/// A shuffle keeps every count.
proof fn lemma_shuffled_counts(cards: Seq<Resource>, state: u128, increment: u128, k: int)
    ensures
        count_of(shuffled(cards, state, increment).0, k) == count_of(cards, k),
{
    if cards.len() >= 2 {
        lemma_fisher_yates_counts(cards, state, increment, (cards.len() - 1) as nat, k);
    }
}

proof fn lemma_count_of_add(a: Seq<Resource>, b: Seq<Resource>, k: int)
    ensures
        count_of(a + b, k) == count_of(a, k) + count_of(b, k),
    decreases b.len(),
{
    if b.len() > 0 {
        assert((a + b).drop_last() =~= a + b.drop_last());
        lemma_count_of_add(a, b.drop_last(), k);
    } else {
        assert(a + b =~= a);
    }
}

proof fn lemma_count_of_copies(r: Resource, n: u8, k: int)
    ensures
        count_of(copies(r, n), k) == if resource_index(r) == k { n as nat } else { 0nat },
    decreases n,
{
    if n > 0 {
        assert(copies(r, n).drop_last() =~= copies(r, (n - 1) as u8));
        lemma_count_of_copies(r, (n - 1) as u8, k);
    } else {
        assert(copies(r, n) =~= Seq::<Resource>::empty());
    }
}

proof fn lemma_hand_cards_counts(hand: [u8; RESOURCE_COUNT], k: int)
    requires
        0 <= k < RESOURCE_COUNT,
    ensures
        count_of(hand_cards(hand), k) == hand@[k],
{
    let c0 = copies(Resource::Lumber, hand@[1]);
    let c1 = copies(Resource::Brick, hand@[0]);
    let c2 = copies(Resource::Wool, hand@[4]);
    let c3 = copies(Resource::Grain, hand@[3]);
    let c4 = copies(Resource::Ore, hand@[2]);
    lemma_count_of_add(c0 + c1 + c2 + c3, c4, k);
    lemma_count_of_add(c0 + c1 + c2, c3, k);
    lemma_count_of_add(c0 + c1, c2, k);
    lemma_count_of_add(c0, c1, k);
    lemma_count_of_copies(Resource::Lumber, hand@[1], k);
    lemma_count_of_copies(Resource::Brick, hand@[0], k);
    lemma_count_of_copies(Resource::Wool, hand@[4], k);
    lemma_count_of_copies(Resource::Grain, hand@[3], k);
    lemma_count_of_copies(Resource::Ore, hand@[2], k);
}

pub(crate) proof fn lemma_hand_cards_len(hand: [u8; RESOURCE_COUNT])
    ensures
        hand_cards(hand).len() == count_total_of(hand),
{
}

proof fn lemma_count_of_take(cards: Seq<Resource>, n: int, k: int)
    requires
        0 <= n <= cards.len(),
    ensures
        count_of(cards.take(n), k) <= count_of(cards, k),
{
    lemma_count_of_add(cards.take(n), cards.skip(n), k);
    assert(cards.take(n) + cards.skip(n) =~= cards);
}

pub(crate) fn choose_discard(state: &State, player: PlayerId, rng: &mut Pcg64) -> (counts: [u8; RESOURCE_COUNT])
    requires
        is_player(player),
        count_total_of(state.player_resources@[player as int]) <= 511,
    ensures
        forall|k: int| 0 <= k < RESOURCE_COUNT ==> #[trigger] counts@[k] <= state.player_resources@[player as int]@[k],
        counts@[0] + counts@[1] + counts@[2] + counts@[3] + counts@[4] == count_total_of(state.player_resources@[player as int]) / 2,
        ({
            let (expected, next) = discard_choice(
                state.player_resources@[player as int],
                old(rng).spec_state(),
                old(rng).spec_increment(),
            );
            &&& forall|k: int| 0 <= k < RESOURCE_COUNT ==> #[trigger] counts@[k] as nat == expected[k]
            &&& final(rng).spec_state() == next
            &&& final(rng).spec_increment() == old(rng).spec_increment()
        }),
{
    random_discard_counts(&state.player_resources[player as usize], rng)
}


/// What `first_where` gives has the property and is in range.
pub proof fn lemma_first_where_holds(pred: spec_fn(int) -> bool, bound: int)
    ensures
        first_where(pred, bound) matches Some(i) ==> 0 <= i < bound && pred(i),
{
    if exists|i: int| 0 <= i < bound && #[trigger] pred(i) {
        let k = choose|i: int| 0 <= i < bound && #[trigger] pred(i);
        lemma_first_where_witness(pred, k);
    }
}

proof fn lemma_first_where_witness(pred: spec_fn(int) -> bool, k: int)
    requires
        0 <= k,
        pred(k),
    ensures
        exists|i: int| 0 <= i <= k && #[trigger] pred(i) && forall|j: int| 0 <= j < i ==> !#[trigger] pred(j),
    decreases k,
{
    if exists|j: int| 0 <= j < k && #[trigger] pred(j) {
        let j = choose|j: int| 0 <= j < k && #[trigger] pred(j);
        lemma_first_where_witness(pred, j);
    } else {
        assert(0 <= k <= k && pred(k) && forall|j: int| 0 <= j < k ==> !#[trigger] pred(j));
    }
}

/// What `first_resource_where` gives has the property.
pub proof fn lemma_first_resource_holds(pred: spec_fn(Resource) -> bool)
    ensures
        first_resource_where(pred) matches Some(r) ==> pred(r),
{
}

} // verus!
