use vstd::prelude::*;

use crate::board::{spec_tile_coords, tile_coords, Board};
use crate::board_data::EDGE_NODES;
use crate::building::{
    apply_build_city, apply_build_road, apply_build_settlement, apply_initial_road, apply_initial_settlement, city_built,
    opening_road_done, opening_settlement_done, road_built, settlement_built,
};
use crate::engine::{
    accept_done, apply_accept_trade, apply_cancel_trade, apply_confirm_trade, apply_discard, apply_end_turn,
    apply_knight, apply_maritime_trade, apply_monopoly, apply_move_robber, apply_reject_trade, apply_road_building,
    apply_roll, apply_year_of_plenty, buy_dev_card, can_accept_trade, can_buy_dev_card, can_meet_ask, can_play_dev,
    cancel_done, confirm_done, dev_card_bought, dev_marked_played, discard_done, end_turn_done, hand_at, knight_done,
    maritime_done, may_buy_dev_card, may_play_dev, monopoly_done, player_resource_total, plenty_drawn, reject_done,
    resource_total_byte, robber_moved, roll_done, totals_kept, trade_covered, ArmyState, RoadState,
};
use crate::game::step_ready;
use crate::policy::{
    discard_choice, free_road_allowed, is_legal_build_road_free, random_discard_counts, scan_order, trade_rate,
};
use crate::rng::{output_xsl_rr, pcg_step, roll_die, Pcg64};
use crate::robber::{
    count_total, has_building_on_tile, player_has_building_on_tile, random_resource_from_counts, resource_at_position,
};
use crate::rules::{
    CITY_COST, ROAD_COST, SETTLEMENT_COST, can_afford, build_city_allowed, build_road_allowed, build_settlement_allowed, initial_road_allowed, initial_settlement_allowed,
    is_legal_build_city, is_legal_build_road, is_legal_build_settlement, is_legal_initial_road,
    has_resources, is_legal_initial_settlement, maritime_rate,
};
use crate::state::{is_player, State};
use crate::types::{
    resource_index, ActionPrompt, DevCard, EdgeId, NodeId, PlayerId, Resource, TileId, EDGE_COUNT, INVALID_EDGE,
    INVALID_NODE, NODE_COUNT, PLAYER_COUNT, PYTHON_RESOURCE_ORDER, RESOURCE_COUNT, TILE_COUNT,
};

verus! {

/// What a value-driven player can do at a prompt, with its payload.
#[derive(Clone, Copy, Debug, PartialEq, Eq)]
pub enum ValueActionKind {
    BuildSettlement(NodeId),
    BuildRoad(EdgeId),
    BuildCity(NodeId),
    Roll,
    EndTurn,
    Discard(Option<[u8; RESOURCE_COUNT]>),
    MoveRobber { tile: TileId, victim: Option<PlayerId>, resource: Option<Resource> },
    PlayYearOfPlenty(Resource, Option<Resource>),
    PlayMonopoly(Resource),
    PlayKnight,
    PlayRoadBuilding,
    MaritimeTrade { offer: Resource, rate: u8, ask: Resource },
    BuyDevCard,
    AcceptTrade,
    RejectTrade,
    ConfirmTrade(PlayerId),
    CancelTrade,
}

/// An action of `player`.
#[derive(Clone, Copy, Debug, PartialEq, Eq)]
pub struct ValueAction {
    pub player: PlayerId,
    pub kind: ValueActionKind,
}

/// The actions `kind(i)` of `player` for each `i` below `n` that satisfies `pred`, in increasing order of `i`.
pub open spec fn actions_where(
    player: PlayerId,
    n: int,
    pred: spec_fn(int) -> bool,
    kind: spec_fn(int) -> ValueActionKind,
) -> Seq<ValueAction>
    decreases n,
{
    if n <= 0 {
        Seq::empty()
    } else {
        let before = actions_where(player, n - 1, pred, kind);
        if pred(n - 1) {
            before.push(ValueAction { player, kind: kind(n - 1) })
        } else {
            before
        }
    }
}

/// A settlement on node `i`.
pub open spec fn settlement_kind() -> spec_fn(int) -> ValueActionKind {
    |i: int| ValueActionKind::BuildSettlement(i as NodeId)
}

/// A city on node `i`.
pub open spec fn city_kind() -> spec_fn(int) -> ValueActionKind {
    |i: int| ValueActionKind::BuildCity(i as NodeId)
}

/// A road on edge `i`.
pub open spec fn road_kind() -> spec_fn(int) -> ValueActionKind {
    |i: int| ValueActionKind::BuildRoad(i as EdgeId)
}

/// The trade confirmed with player `i`.
pub open spec fn confirm_kind() -> spec_fn(int) -> ValueActionKind {
    |i: int| ValueActionKind::ConfirmTrade(i as PlayerId)
}

/// An opening settlement may go on node `i`.
pub open spec fn opening_settlement_pred(board: Board, s: State) -> spec_fn(int) -> bool {
    |i: int| initial_settlement_allowed(board, s, i as NodeId)
}

/// The `k`-th edge at the anchor node may take the opening road.
pub open spec fn opening_road_pred(board: Board, s: State, player: PlayerId, anchor: NodeId) -> spec_fn(int) -> bool {
    |k: int|
        {
            let e = board.node_edges@[anchor as int]@[k];
            e != INVALID_EDGE && initial_road_allowed(board, s, player, e, anchor)
        }
}

/// The road on the `k`-th edge at the anchor node.
pub open spec fn anchor_road_kind(board: Board, anchor: NodeId) -> spec_fn(int) -> ValueActionKind {
    |k: int| ValueActionKind::BuildRoad(board.node_edges@[anchor as int]@[k])
}

/// The opening roads: one for each free edge at the player's last opening settlement, in the board's order.
pub open spec fn opening_road_actions(board: Board, s: State, player: PlayerId) -> Seq<ValueAction> {
    let anchor = s.last_initial_settlement@[player as int];
    if anchor == INVALID_NODE {
        Seq::empty()
    } else {
        actions_where(player, 3, opening_road_pred(board, s, player, anchor), anchor_road_kind(board, anchor))
    }
}

/// Player `q` can be robbed on tile `t` by `player`: another player with a building there and cards in hand.
pub open spec fn victim_pred(board: Board, s: State, player: PlayerId, t: int) -> spec_fn(int) -> bool {
    |q: int| q != player && has_building_on_tile(board, s, q as PlayerId, t) && resource_total_byte(s, q) > 0
}

/// Moving the robber to tile `t` and robbing player `q`.
pub open spec fn rob_kind(t: int) -> spec_fn(int) -> ValueActionKind {
    |q: int| ValueActionKind::MoveRobber { tile: t as TileId, victim: Some(q as PlayerId), resource: None }
}

/// The robber moves to tile `t`: one for each player that can be robbed there, or one that robs nobody.
/// The robber's own tile gives none.
pub open spec fn tile_robber_actions(board: Board, s: State, player: PlayerId, t: int) -> Seq<ValueAction> {
    if t == s.robber_tile {
        Seq::empty()
    } else {
        let robs = actions_where(player, PLAYER_COUNT as int, victim_pred(board, s, player, t), rob_kind(t));
        if robs.len() == 0 {
            seq![ValueAction { player, kind: ValueActionKind::MoveRobber { tile: t as TileId, victim: None, resource: None } }]
        } else {
            robs
        }
    }
}

/// The robber moves to each tile below `t`, in tile order.
pub open spec fn robber_actions(board: Board, s: State, player: PlayerId, t: int) -> Seq<ValueAction>
    decreases t,
{
    if t <= 0 {
        Seq::empty()
    } else {
        robber_actions(board, s, player, t - 1) + tile_robber_actions(board, s, player, t - 1)
    }
}

/// `entry` added at the end unless it is already there.
pub open spec fn push_unique(
    options: Seq<(Resource, Option<Resource>)>,
    entry: (Resource, Option<Resource>),
) -> Seq<(Resource, Option<Resource>)> {
    if options.contains(entry) {
        options
    } else {
        options.push(entry)
    }
}

/// The year of plenty choices that the pair at positions `i` and `j` of the scan order adds: the pair when the
/// bank holds both (two of one resource when `i` is `j`), else each that the bank holds, alone.
pub open spec fn plenty_step(
    options: Seq<(Resource, Option<Resource>)>,
    s: State,
    i: int,
    j: int,
) -> Seq<(Resource, Option<Resource>)> {
    let first = scan_order()[i];
    let second = scan_order()[j];
    let first_ok = s.bank(first) > 0;
    let second_ok = s.bank(second) > 0;
    if i == j {
        if s.bank(first) >= 2 {
            push_unique(options, (first, Some(second)))
        } else if first_ok {
            push_unique(options, (first, None))
        } else {
            options
        }
    } else if first_ok && second_ok {
        push_unique(options, (first, Some(second)))
    } else {
        let with_first = if first_ok { push_unique(options, (first, None)) } else { options };
        if second_ok { push_unique(with_first, (second, None)) } else { with_first }
    }
}

/// The choices after the pairs `(i, i)` to `(i, j - 1)`.
pub open spec fn plenty_cols(
    options: Seq<(Resource, Option<Resource>)>,
    s: State,
    i: int,
    j: int,
) -> Seq<(Resource, Option<Resource>)>
    decreases j - i,
{
    if j <= i {
        options
    } else {
        plenty_step(plenty_cols(options, s, i, j - 1), s, i, j - 1)
    }
}

/// The choices after every pair whose first position is below `i`.
pub open spec fn plenty_rows(s: State, i: int) -> Seq<(Resource, Option<Resource>)>
    decreases i,
{
    if i <= 0 {
        Seq::empty()
    } else {
        plenty_cols(plenty_rows(s, i - 1), s, i - 1, RESOURCE_COUNT as int)
    }
}

/// The year of plenty action for a choice.
pub open spec fn plenty_action(player: PlayerId) -> spec_fn((Resource, Option<Resource>)) -> ValueAction {
    |e: (Resource, Option<Resource>)| ValueAction { player, kind: ValueActionKind::PlayYearOfPlenty(e.0, e.1) }
}

/// Every distinct year of plenty that the bank can pay, in scan order of the pairs.
pub open spec fn plenty_actions(s: State, player: PlayerId) -> Seq<ValueAction> {
    plenty_rows(s, RESOURCE_COUNT as int).map_values(plenty_action(player))
}

/// A monopoly on each resource, in scan order.
pub open spec fn monopoly_actions(player: PlayerId) -> Seq<ValueAction> {
    seq![
        ValueAction { player, kind: ValueActionKind::PlayMonopoly(Resource::Lumber) },
        ValueAction { player, kind: ValueActionKind::PlayMonopoly(Resource::Brick) },
        ValueAction { player, kind: ValueActionKind::PlayMonopoly(Resource::Wool) },
        ValueAction { player, kind: ValueActionKind::PlayMonopoly(Resource::Grain) },
        ValueAction { player, kind: ValueActionKind::PlayMonopoly(Resource::Ore) },
    ]
}

/// The resource at position `j` of the scan order is not `offer` and the bank holds one.
pub open spec fn ask_pred(s: State, offer: Resource) -> spec_fn(int) -> bool {
    |j: int| scan_order()[j] != offer && s.bank(scan_order()[j]) > 0
}

/// The maritime trade of `offer` at `rate` for the resource at position `j` of the scan order.
pub open spec fn maritime_kind(offer: Resource, rate: u8) -> spec_fn(int) -> ValueActionKind {
    |j: int| ValueActionKind::MaritimeTrade { offer, rate, ask: scan_order()[j] }
}

/// The maritime trades of the first `i` resources of the scan order that `player` can pay the rate for,
/// each for every other resource that the bank holds.
pub open spec fn maritime_actions(board: Board, s: State, player: PlayerId, i: int) -> Seq<ValueAction>
    decreases i,
{
    if i <= 0 {
        Seq::empty()
    } else {
        let before = maritime_actions(board, s, player, i - 1);
        let offer = scan_order()[i - 1];
        let rate = maritime_rate(board, s, player, offer);
        if s.hand(player, offer) < rate {
            before
        } else {
            before + actions_where(player, RESOURCE_COUNT as int, ask_pred(s, offer), maritime_kind(offer, rate))
        }
    }
}

/// Some edge takes a free road of `player`.
pub open spec fn free_road_exists(board: Board, s: State, player: PlayerId) -> bool {
    exists|e: int| 0 <= e < EDGE_COUNT && #[trigger] free_road_allowed(board, s, player, e as EdgeId)
}

/// A free road may go on edge `e`.
pub open spec fn free_road_pred(board: Board, s: State, player: PlayerId) -> spec_fn(int) -> bool {
    |e: int| free_road_allowed(board, s, player, e as EdgeId)
}

/// A city may go on node `n`.
pub open spec fn city_pred(s: State, player: PlayerId) -> spec_fn(int) -> bool {
    |n: int| build_city_allowed(s, player, n as NodeId)
}

/// A settlement may go on node `n`.
pub open spec fn settlement_pred(board: Board, s: State, player: PlayerId) -> spec_fn(int) -> bool {
    |n: int| build_settlement_allowed(board, s, player, n as NodeId)
}

/// A paid road may go on edge `e`.
pub open spec fn road_pred(board: Board, s: State, player: PlayerId) -> spec_fn(int) -> bool {
    |e: int| build_road_allowed(board, s, player, e as EdgeId)
}

/// The player answers an offered trade: always a refusal, and an acceptance when the player holds what it asks.
pub open spec fn trade_answers(s: State, player: PlayerId) -> Seq<ValueAction> {
    let reject = seq![ValueAction { player, kind: ValueActionKind::RejectTrade }];
    if can_meet_ask(s, player) {
        reject.push(ValueAction { player, kind: ValueActionKind::AcceptTrade })
    } else {
        reject
    }
}

/// The offering player closes a trade: cancel it, or confirm it with each player that accepted.
pub open spec fn acceptee_answers(s: State, player: PlayerId) -> Seq<ValueAction> {
    seq![ValueAction { player, kind: ValueActionKind::CancelTrade }]
        + actions_where(player, PLAYER_COUNT as int, accepted_pred(s), confirm_kind())
}

/// Player `p` accepted the offered trade.
pub open spec fn accepted_pred(s: State) -> spec_fn(int) -> bool {
    |p: int| s.acceptees@[p]
}

/// The development cards that `player` may play now: each year of plenty, each monopoly, the knight, and road
/// building when some edge takes a free road.
pub open spec fn dev_actions(board: Board, s: State, player: PlayerId) -> Seq<ValueAction> {
    (if may_play_dev(s, player, DevCard::YearOfPlenty) { plenty_actions(s, player) } else { Seq::empty() })
        + (if may_play_dev(s, player, DevCard::Monopoly) { monopoly_actions(player) } else { Seq::empty() })
        + (if may_play_dev(s, player, DevCard::Knight) {
        seq![ValueAction { player, kind: ValueActionKind::PlayKnight }]
    } else {
        Seq::empty()
    }) + (if may_play_dev(s, player, DevCard::RoadBuilding) && free_road_exists(board, s, player) {
        seq![ValueAction { player, kind: ValueActionKind::PlayRoadBuilding }]
    } else {
        Seq::empty()
    })
}

/// After the roll: end the turn, each city, settlement and road that may be built, a development card when one
/// can be bought, and each maritime trade.
pub open spec fn main_actions(board: Board, s: State, player: PlayerId) -> Seq<ValueAction> {
    seq![ValueAction { player, kind: ValueActionKind::EndTurn }]
        + actions_where(player, NODE_COUNT as int, city_pred(s, player), city_kind())
        + actions_where(player, NODE_COUNT as int, settlement_pred(board, s, player), settlement_kind())
        + actions_where(player, EDGE_COUNT as int, road_pred(board, s, player), road_kind())
        + (if may_buy_dev_card(s, player) {
        seq![ValueAction { player, kind: ValueActionKind::BuyDevCard }]
    } else {
        Seq::empty()
    }) + maritime_actions(board, s, player, RESOURCE_COUNT as int)
}

/// The turn player's options: only free roads while road building; else the development cards, then the roll
/// before it was made, or the moves after it.
pub open spec fn play_turn_actions(board: Board, s: State, player: PlayerId) -> Seq<ValueAction> {
    if s.is_road_building {
        actions_where(player, EDGE_COUNT as int, free_road_pred(board, s, player), road_kind())
    } else if !s.has_rolled@[player as int] {
        dev_actions(board, s, player).push(ValueAction { player, kind: ValueActionKind::Roll })
    } else {
        dev_actions(board, s, player) + main_actions(board, s, player)
    }
}

/// Every action that `player` may take at the current prompt, in the order the player considers them.
pub open spec fn playable_actions(board: Board, s: State, player: PlayerId) -> Seq<ValueAction> {
    match s.current_prompt {
        ActionPrompt::BuildInitialSettlement => actions_where(
            player,
            NODE_COUNT as int,
            opening_settlement_pred(board, s),
            settlement_kind(),
        ),
        ActionPrompt::BuildInitialRoad => opening_road_actions(board, s, player),
        ActionPrompt::Discard => seq![ValueAction { player, kind: ValueActionKind::Discard(None) }],
        ActionPrompt::MoveRobber => robber_actions(board, s, player, TILE_COUNT as int),
        ActionPrompt::DecideTrade => trade_answers(s, player),
        ActionPrompt::DecideAcceptees => acceptee_answers(s, player),
        ActionPrompt::PlayTurn => play_turn_actions(board, s, player),
    }
}

/// Whether some edge takes a free road of `player`.
fn has_free_road(board: &Board, state: &State, player: PlayerId) -> (found: bool)
    requires
        board.wf(),
        is_player(player),
    ensures
        found == free_road_exists(*board, *state, player),
{
    let mut edge: usize = 0;
    while edge < EDGE_COUNT
        invariant
            edge <= EDGE_COUNT,
            board.wf(),
            is_player(player),
            forall|e: int| 0 <= e < edge ==> !#[trigger] free_road_allowed(*board, *state, player, e as EdgeId),
        decreases EDGE_COUNT - edge,
    {
        if is_legal_build_road_free(board, state, player, edge as EdgeId) {
            return true;
        }
        edge = edge + 1;
    }
    false
}

/// Adds an opening settlement action for each node that takes one.
fn push_opening_settlements(board: &Board, state: &State, player: PlayerId, actions: &mut Vec<ValueAction>)
    requires
        board.wf(),
    ensures
        final(actions)@ == old(actions)@ + actions_where(
            player,
            NODE_COUNT as int,
            opening_settlement_pred(*board, *state),
            settlement_kind(),
        ),
{
    let ghost start = actions@;
    let ghost pred = opening_settlement_pred(*board, *state);
    let mut node: usize = 0;
    while node < NODE_COUNT
        invariant
            node <= NODE_COUNT,
            board.wf(),
            pred == opening_settlement_pred(*board, *state),
            actions@ == start + actions_where(player, node as int, pred, settlement_kind()),
        decreases NODE_COUNT - node,
    {
        let node_id = node as NodeId;
        if is_legal_initial_settlement(board, state, node_id) {
            actions.push(ValueAction { player, kind: ValueActionKind::BuildSettlement(node_id) });
        }
        proof {
            assert(actions@ =~= start + actions_where(player, node + 1, pred, settlement_kind()));
        }
        node = node + 1;
    }
}

/// Adds a city action for each node where `player` may build one.
fn push_cities(board: &Board, state: &State, player: PlayerId, actions: &mut Vec<ValueAction>)
    requires
        is_player(player),
    ensures
        final(actions)@ == old(actions)@ + actions_where(player, NODE_COUNT as int, city_pred(*state, player), city_kind()),
{
    let ghost start = actions@;
    let ghost pred = city_pred(*state, player);
    let mut node: usize = 0;
    while node < NODE_COUNT
        invariant
            node <= NODE_COUNT,
            is_player(player),
            pred == city_pred(*state, player),
            actions@ == start + actions_where(player, node as int, pred, city_kind()),
        decreases NODE_COUNT - node,
    {
        let node_id = node as NodeId;
        if is_legal_build_city(board, state, player, node_id) {
            actions.push(ValueAction { player, kind: ValueActionKind::BuildCity(node_id) });
        }
        proof {
            assert(actions@ =~= start + actions_where(player, node + 1, pred, city_kind()));
        }
        node = node + 1;
    }
}

/// Adds a settlement action for each node where `player` may build one.
fn push_settlements(board: &Board, state: &State, player: PlayerId, actions: &mut Vec<ValueAction>)
    requires
        board.wf(),
        is_player(player),
    ensures
        final(actions)@ == old(actions)@ + actions_where(
            player,
            NODE_COUNT as int,
            settlement_pred(*board, *state, player),
            settlement_kind(),
        ),
{
    let ghost start = actions@;
    let ghost pred = settlement_pred(*board, *state, player);
    let mut node: usize = 0;
    while node < NODE_COUNT
        invariant
            node <= NODE_COUNT,
            board.wf(),
            is_player(player),
            pred == settlement_pred(*board, *state, player),
            actions@ == start + actions_where(player, node as int, pred, settlement_kind()),
        decreases NODE_COUNT - node,
    {
        let node_id = node as NodeId;
        if is_legal_build_settlement(board, state, player, node_id) {
            actions.push(ValueAction { player, kind: ValueActionKind::BuildSettlement(node_id) });
        }
        proof {
            assert(actions@ =~= start + actions_where(player, node + 1, pred, settlement_kind()));
        }
        node = node + 1;
    }
}

/// Adds a road action for each edge where `player` may build one, paid or, with `free`, free.
fn push_roads(board: &Board, state: &State, player: PlayerId, free: bool, actions: &mut Vec<ValueAction>)
    requires
        board.wf(),
        is_player(player),
    ensures
        final(actions)@ == old(actions)@ + actions_where(
            player,
            EDGE_COUNT as int,
            if free { free_road_pred(*board, *state, player) } else { road_pred(*board, *state, player) },
            road_kind(),
        ),
{
    let ghost start = actions@;
    let ghost pred = if free { free_road_pred(*board, *state, player) } else { road_pred(*board, *state, player) };
    let mut edge: usize = 0;
    while edge < EDGE_COUNT
        invariant
            edge <= EDGE_COUNT,
            board.wf(),
            is_player(player),
            pred == if free { free_road_pred(*board, *state, player) } else { road_pred(*board, *state, player) },
            actions@ == start + actions_where(player, edge as int, pred, road_kind()),
        decreases EDGE_COUNT - edge,
    {
        let edge_id = edge as EdgeId;
        let legal = if free {
            is_legal_build_road_free(board, state, player, edge_id)
        } else {
            is_legal_build_road(board, state, player, edge_id)
        };
        if legal {
            actions.push(ValueAction { player, kind: ValueActionKind::BuildRoad(edge_id) });
        }
        proof {
            assert(actions@ =~= start + actions_where(player, edge + 1, pred, road_kind()));
        }
        edge = edge + 1;
    }
}

/// Adds a confirmation for each player that accepted the offered trade.
fn push_confirms(state: &State, player: PlayerId, actions: &mut Vec<ValueAction>)
    ensures
        final(actions)@ == old(actions)@ + actions_where(player, PLAYER_COUNT as int, accepted_pred(*state), confirm_kind()),
{
    let ghost start = actions@;
    let ghost pred = accepted_pred(*state);
    let mut idx: usize = 0;
    while idx < PLAYER_COUNT
        invariant
            idx <= PLAYER_COUNT,
            pred == accepted_pred(*state),
            actions@ == start + actions_where(player, idx as int, pred, confirm_kind()),
        decreases PLAYER_COUNT - idx,
    {
        if state.acceptees[idx] {
            actions.push(ValueAction { player, kind: ValueActionKind::ConfirmTrade(idx as PlayerId) });
        }
        proof {
            assert(actions@ =~= start + actions_where(player, idx + 1, pred, confirm_kind()));
        }
        idx = idx + 1;
    }
}

/// Adds the robber moves to `tile`: one for each player that can be robbed there, else one that robs nobody.
fn push_tile_robber_actions(board: &Board, state: &State, player: PlayerId, tile: TileId, actions: &mut Vec<ValueAction>)
    requires
        board.wf(),
        (tile as int) < TILE_COUNT,
        tile != state.robber_tile,
    ensures
        final(actions)@ == old(actions)@ + tile_robber_actions(*board, *state, player, tile as int),
{
    let ghost pred = victim_pred(*board, *state, player, tile as int);
    let mut robs: Vec<ValueAction> = Vec::new();
    let mut other: usize = 0;
    while other < PLAYER_COUNT
        invariant
            other <= PLAYER_COUNT,
            board.wf(),
            (tile as int) < TILE_COUNT,
            pred == victim_pred(*board, *state, player, tile as int),
            robs@ == actions_where(player, other as int, pred, rob_kind(tile as int)),
        decreases PLAYER_COUNT - other,
    {
        let other_id = other as PlayerId;
        if other_id != player && player_has_building_on_tile(board, state, other_id, tile)
            && player_resource_total(state, other_id) > 0 {
            robs.push(
                ValueAction { player, kind: ValueActionKind::MoveRobber { tile, victim: Some(other_id), resource: None } },
            );
        }
        proof {
            assert(robs@ =~= actions_where(player, other + 1, pred, rob_kind(tile as int)));
        }
        other = other + 1;
    }
    if robs.len() == 0 {
        actions.push(ValueAction { player, kind: ValueActionKind::MoveRobber { tile, victim: None, resource: None } });
    } else {
        actions.append(&mut robs);
    }
}

/// The same year of plenty choice.
fn same_choice(a: (Resource, Option<Resource>), b: (Resource, Option<Resource>)) -> (same: bool)
    ensures
        same == (a == b),
{
    if a.0 != b.0 {
        return false;
    }
    match (a.1, b.1) {
        (None, None) => true,
        (Some(x), Some(y)) => x == y,
        _ => false,
    }
}

/// Adds `entry` to the choices unless it is already among them.
fn add_choice(options: &mut Vec<(Resource, Option<Resource>)>, entry: (Resource, Option<Resource>))
    ensures
        final(options)@ == push_unique(old(options)@, entry),
{
    let mut i: usize = 0;
    while i < options.len()
        invariant
            i <= options.len(),
            options@ == old(options)@,
            forall|k: int| 0 <= k < i ==> options@[k] != entry,
        decreases options.len() - i,
    {
        if same_choice(options[i], entry) {
            proof {
                assert(options@[i as int] == entry);
                assert(options@.contains(entry));
            }
            return;
        }
        i = i + 1;
    }
    proof {
        assert(!options@.contains(entry));
    }
    options.push(entry);
}

/// Every distinct year of plenty that the bank can pay.
fn year_of_plenty_actions(state: &State, player: PlayerId) -> (actions: Vec<ValueAction>)
    ensures
        actions@ == plenty_actions(*state, player),
{
    let order = PYTHON_RESOURCE_ORDER;
    proof {
        assert(order@ =~= scan_order());
    }
    let mut options: Vec<(Resource, Option<Resource>)> = Vec::new();
    let mut i: usize = 0;
    while i < RESOURCE_COUNT
        invariant
            i <= RESOURCE_COUNT,
            order@ == scan_order(),
            options@ == plenty_rows(*state, i as int),
        decreases RESOURCE_COUNT - i,
    {
        let ghost row_start = options@;
        let mut j: usize = i;
        while j < RESOURCE_COUNT
            invariant
                i <= j <= RESOURCE_COUNT,
                i < RESOURCE_COUNT,
                order@ == scan_order(),
                row_start == plenty_rows(*state, i as int),
                options@ == plenty_cols(row_start, *state, i as int, j as int),
            decreases RESOURCE_COUNT - j,
        {
            let first = order[i];
            let second = order[j];
            let first_ok = state.bank_resources[first.as_index()] > 0;
            let second_ok = state.bank_resources[second.as_index()] > 0;
            if i == j {
                if state.bank_resources[first.as_index()] >= 2 {
                    add_choice(&mut options, (first, Some(second)));
                } else if first_ok {
                    add_choice(&mut options, (first, None));
                }
            } else if first_ok && second_ok {
                add_choice(&mut options, (first, Some(second)));
            } else {
                if first_ok {
                    add_choice(&mut options, (first, None));
                }
                if second_ok {
                    add_choice(&mut options, (second, None));
                }
            }
            j = j + 1;
        }
        i = i + 1;
    }
    let mut actions: Vec<ValueAction> = Vec::new();
    let mut k: usize = 0;
    while k < options.len()
        invariant
            k <= options.len(),
            options@ == plenty_rows(*state, RESOURCE_COUNT as int),
            actions@.len() == k,
            forall|m: int| 0 <= m < k ==> #[trigger] actions@[m] == plenty_action(player)(options@[m]),
        decreases options.len() - k,
    {
        let (first, second) = options[k];
        actions.push(ValueAction { player, kind: ValueActionKind::PlayYearOfPlenty(first, second) });
        k = k + 1;
    }
    proof {
        assert(actions@ =~= options@.map_values(plenty_action(player)));
    }
    actions
}

/// Each maritime trade that `player` can make: for each resource whose rate the player can pay, each other
/// resource that the bank holds.
fn maritime_trade_actions(board: &Board, state: &State, player: PlayerId) -> (actions: Vec<ValueAction>)
    requires
        is_player(player),
    ensures
        actions@ == maritime_actions(*board, *state, player, RESOURCE_COUNT as int),
{
    let order = PYTHON_RESOURCE_ORDER;
    proof {
        assert(order@ =~= scan_order());
    }
    let mut actions: Vec<ValueAction> = Vec::new();
    let mut i: usize = 0;
    while i < RESOURCE_COUNT
        invariant
            i <= RESOURCE_COUNT,
            is_player(player),
            order@ == scan_order(),
            actions@ == maritime_actions(*board, *state, player, i as int),
        decreases RESOURCE_COUNT - i,
    {
        let offer = order[i];
        let rate = trade_rate(board, state, player, offer);
        if state.player_resources[player as usize][offer.as_index()] >= rate {
            let ghost start = actions@;
            let ghost pred = ask_pred(*state, offer);
            let mut j: usize = 0;
            while j < RESOURCE_COUNT
                invariant
                    j <= RESOURCE_COUNT,
                    order@ == scan_order(),
                    pred == ask_pred(*state, offer),
                    actions@ == start + actions_where(player, j as int, pred, maritime_kind(offer, rate)),
                decreases RESOURCE_COUNT - j,
            {
                let ask = order[j];
                if ask != offer && state.bank_resources[ask.as_index()] > 0 {
                    actions.push(ValueAction { player, kind: ValueActionKind::MaritimeTrade { offer, rate, ask } });
                }
                proof {
                    assert(actions@ =~= start + actions_where(player, j + 1, pred, maritime_kind(offer, rate)));
                }
                j = j + 1;
            }
        }
        i = i + 1;
    }
    actions
}

/// The development cards that `player` may play now.
fn push_dev_actions(board: &Board, state: &State, player: PlayerId, actions: &mut Vec<ValueAction>)
    requires
        board.wf(),
        is_player(player),
    ensures
        final(actions)@ == old(actions)@ + dev_actions(*board, *state, player),
{
    let ghost start = actions@;
    let ghost plenty = if may_play_dev(*state, player, DevCard::YearOfPlenty) {
        plenty_actions(*state, player)
    } else {
        Seq::empty()
    };
    if can_play_dev(state, player, DevCard::YearOfPlenty) {
        let mut more = year_of_plenty_actions(state, player);
        actions.append(&mut more);
    }
    proof {
        assert(actions@ =~= start + plenty);
    }
    let ghost after_plenty = actions@;
    if can_play_dev(state, player, DevCard::Monopoly) {
        let order = PYTHON_RESOURCE_ORDER;
        let mut i: usize = 0;
        while i < RESOURCE_COUNT
            invariant
                i <= RESOURCE_COUNT,
                order@ =~= scan_order(),
                actions@ == after_plenty + monopoly_actions(player).take(i as int),
            decreases RESOURCE_COUNT - i,
        {
            actions.push(ValueAction { player, kind: ValueActionKind::PlayMonopoly(order[i]) });
            proof {
                assert(monopoly_actions(player)[i as int] == ValueAction { player, kind: ValueActionKind::PlayMonopoly(order[i as int]) });
                assert(actions@ =~= after_plenty + monopoly_actions(player).take(i + 1));
            }
            i = i + 1;
        }
        proof {
            assert(monopoly_actions(player).take(5) =~= monopoly_actions(player));
        }
    }
    let ghost monopoly = if may_play_dev(*state, player, DevCard::Monopoly) {
        monopoly_actions(player)
    } else {
        Seq::empty()
    };
    proof {
        assert(actions@ =~= start + plenty + monopoly);
    }
    let ghost after_monopoly = actions@;
    if can_play_dev(state, player, DevCard::Knight) {
        actions.push(ValueAction { player, kind: ValueActionKind::PlayKnight });
    }
    let ghost knight = if may_play_dev(*state, player, DevCard::Knight) {
        seq![ValueAction { player, kind: ValueActionKind::PlayKnight }]
    } else {
        Seq::empty()
    };
    proof {
        assert(actions@ =~= after_monopoly + knight);
    }
    let ghost after_knight = actions@;
    if can_play_dev(state, player, DevCard::RoadBuilding) {
        if has_free_road(board, state, player) {
            actions.push(ValueAction { player, kind: ValueActionKind::PlayRoadBuilding });
        }
    }
    let ghost road_building = if may_play_dev(*state, player, DevCard::RoadBuilding) && free_road_exists(*board, *state, player) {
        seq![ValueAction { player, kind: ValueActionKind::PlayRoadBuilding }]
    } else {
        Seq::empty()
    };
    proof {
        assert(actions@ =~= after_knight + road_building);
        assert(actions@ =~= start + (plenty + monopoly + knight + road_building));
    }
}

/// The moves after the roll.
fn push_main_actions(board: &Board, state: &State, player: PlayerId, actions: &mut Vec<ValueAction>)
    requires
        board.wf(),
        is_player(player),
    ensures
        final(actions)@ == old(actions)@ + main_actions(*board, *state, player),
{
    let ghost start = actions@;
    actions.push(ValueAction { player, kind: ValueActionKind::EndTurn });
    let ghost s1 = actions@;
    push_cities(board, state, player, actions);
    let ghost s2 = actions@;
    push_settlements(board, state, player, actions);
    let ghost s3 = actions@;
    push_roads(board, state, player, false, actions);
    let ghost s4 = actions@;
    if can_buy_dev_card(state, player) {
        actions.push(ValueAction { player, kind: ValueActionKind::BuyDevCard });
    }
    let ghost buy = if may_buy_dev_card(*state, player) {
        seq![ValueAction { player, kind: ValueActionKind::BuyDevCard }]
    } else {
        Seq::empty()
    };
    proof {
        assert(actions@ =~= s4 + buy);
    }
    let ghost s5 = actions@;
    let mut trades = maritime_trade_actions(board, state, player);
    actions.append(&mut trades);
    proof {
        assert(actions@ =~= start + main_actions(*board, *state, player));
    }
}

/// Every action that `player` may take at the current prompt, in the order the player considers them.
pub fn generate_playable_actions(board: &Board, state: &State, player: PlayerId) -> (actions: Vec<ValueAction>)
    requires
        board.wf(),
        state.wf(),
        is_player(player),
    ensures
        actions@ == playable_actions(*board, *state, player),
{
    let mut actions: Vec<ValueAction> = Vec::new();
    match state.current_prompt {
        ActionPrompt::BuildInitialSettlement => {
            push_opening_settlements(board, state, player, &mut actions);
            proof {
                assert(actions@ =~= playable_actions(*board, *state, player));
            }
        },
        ActionPrompt::BuildInitialRoad => {
            let anchor = state.last_initial_settlement[player as usize];
            if anchor != INVALID_NODE {
                let ghost pred = opening_road_pred(*board, *state, player, anchor);
                let ghost kind = anchor_road_kind(*board, anchor);
                let edges = board.node_edges[anchor as usize];
                let mut k: usize = 0;
                while k < 3
                    invariant
                        k <= 3,
                        (anchor as int) < NODE_COUNT,
                        edges == board.node_edges@[anchor as int],
                        pred == opening_road_pred(*board, *state, player, anchor),
                        kind == anchor_road_kind(*board, anchor),
                        actions@ == actions_where(player, k as int, pred, kind),
                    decreases 3 - k,
                {
                    let edge = edges[k];
                    if edge != INVALID_EDGE && is_legal_initial_road(board, state, player, edge, anchor) {
                        actions.push(ValueAction { player, kind: ValueActionKind::BuildRoad(edge) });
                    }
                    proof {
                        assert(actions@ =~= actions_where(player, k + 1, pred, kind));
                    }
                    k = k + 1;
                }
            }
        },
        ActionPrompt::Discard => {
            actions.push(ValueAction { player, kind: ValueActionKind::Discard(None) });
            proof {
                assert(actions@ =~= playable_actions(*board, *state, player));
            }
        },
        ActionPrompt::MoveRobber => {
            let mut tile: usize = 0;
            while tile < TILE_COUNT
                invariant
                    tile <= TILE_COUNT,
                    board.wf(),
                    state.current_prompt == ActionPrompt::MoveRobber,
                    actions@ == robber_actions(*board, *state, player, tile as int),
                decreases TILE_COUNT - tile,
            {
                let tile_id = tile as TileId;
                if tile_id != state.robber_tile {
                    push_tile_robber_actions(board, state, player, tile_id, &mut actions);
                }
                proof {
                    assert(actions@ =~= robber_actions(*board, *state, player, tile + 1));
                }
                tile = tile + 1;
            }
        },
        ActionPrompt::DecideTrade => {
            actions.push(ValueAction { player, kind: ValueActionKind::RejectTrade });
            if can_accept_trade(state, player) {
                actions.push(ValueAction { player, kind: ValueActionKind::AcceptTrade });
            }
            proof {
                assert(actions@ =~= playable_actions(*board, *state, player));
            }
        },
        ActionPrompt::DecideAcceptees => {
            actions.push(ValueAction { player, kind: ValueActionKind::CancelTrade });
            push_confirms(state, player, &mut actions);
        },
        ActionPrompt::PlayTurn => {
            if state.is_road_building {
                push_roads(board, state, player, true, &mut actions);
                proof {
                    assert(actions@ =~= playable_actions(*board, *state, player));
                }
                return actions;
            }
            push_dev_actions(board, state, player, &mut actions);
            if !state.has_rolled[player as usize] {
                actions.push(ValueAction { player, kind: ValueActionKind::Roll });
                proof {
                    assert(actions@ =~= playable_actions(*board, *state, player));
                }
                return actions;
            }
            push_main_actions(board, state, player, &mut actions);
            proof {
                assert(actions@ =~= playable_actions(*board, *state, player));
            }
        },
    }
    actions
}

/// The opening settlement is being placed.
pub open spec fn opening_settlement_turn(s: State) -> bool {
    s.is_initial_build_phase && s.current_prompt == ActionPrompt::BuildInitialSettlement
}

/// The opening road is being laid.
pub open spec fn opening_road_turn(s: State) -> bool {
    s.is_initial_build_phase && s.current_prompt == ActionPrompt::BuildInitialRoad
}

/// The state is one that `action` can be applied to: its player exists, and what the action pays, moves or
/// names is there.
pub open spec fn value_action_applicable(s: State, action: ValueAction) -> bool {
    let player = action.player;
    &&& is_player(player)
    &&& match action.kind {
        ValueActionKind::BuildSettlement(node) => (node as int) < NODE_COUNT && (opening_settlement_turn(s)
            || can_afford(s, player, SETTLEMENT_COST)),
        ValueActionKind::BuildRoad(edge) => (edge as int) < EDGE_COUNT && (opening_road_turn(s) || s.is_road_building
            || can_afford(s, player, ROAD_COST)),
        ValueActionKind::BuildCity(node) => (node as int) < NODE_COUNT && can_afford(s, player, CITY_COST),
        ValueActionKind::Discard(counts) => counts matches Some(c) ==> can_afford(s, player, c),
        ValueActionKind::MoveRobber { tile: _, victim, resource: _ } => victim matches Some(v) ==> is_player(v),
        ValueActionKind::MaritimeTrade { offer, rate, ask } => {
            &&& rate <= 127
            &&& s.hand(player, offer) >= rate
            &&& s.bank(ask) + (if offer == ask { rate as int } else { 0 }) >= 1
        },
        ValueActionKind::BuyDevCard => may_buy_dev_card(s, player),
        ValueActionKind::ConfirmTrade(partner) => is_player(partner) && trade_covered(s, partner),
        _ => true,
    }
}

/// The face of the die that the generator at `state` rolls next.
pub open spec fn die_after(state: u128, increment: u128) -> u32 {
    (output_xsl_rr(pcg_step(state, increment)) % 6 + 1) as u32
}

/// The card drawn at random from `counts` by the generator at `state`, if there is one.
pub open spec fn card_drawn(counts: [u8; RESOURCE_COUNT], state: u128, increment: u128) -> Option<Resource> {
    if count_total(counts) == 0 {
        None
    } else {
        resource_at_position(counts, (output_xsl_rr(pcg_step(state, increment)) % (count_total(counts) as u64)) as int)
    }
}

/// The free-road count after a free road: one fewer, and road building over when none is left or no edge takes one.
pub open spec fn free_road_tally(board: Board, laid: State, player: PlayerId) -> State {
    let left = if laid.free_roads_available > 0 { (laid.free_roads_available - 1) as u8 } else { 0u8 };
    let counted = State { free_roads_available: left, ..laid };
    if left == 0 || !free_road_exists(board, counted, player) {
        State { is_road_building: false, free_roads_available: 0, ..counted }
    } else {
        counted
    }
}

/// `new`, with the standings `new_roads` and `new_army`, is `old` after `action`, where the generator at
/// `(state, increment)` supplies the dice, the discarded cards and the stolen card that the action leaves open.
pub open spec fn value_action_done(
    board: Board,
    new: State,
    old: State,
    new_roads: RoadState,
    old_roads: RoadState,
    new_army: ArmyState,
    old_army: ArmyState,
    action: ValueAction,
    state: u128,
    increment: u128,
) -> bool {
    let player = action.player;
    let tp = old.turn_player as int;
    &&& !(action.kind is BuildSettlement || action.kind is BuildRoad) ==> new_roads == old_roads
    &&& !(action.kind is PlayKnight) ==> new_army == old_army
    &&& match action.kind {
        ValueActionKind::BuildSettlement(node) => new.wf() && if opening_settlement_turn(old) {
            opening_settlement_done(board, new, old, node) && new_roads == old_roads
        } else {
            settlement_built(board, new, old, new_roads, old_roads, player, node)
        },
        ValueActionKind::BuildRoad(edge) => if opening_road_turn(old) {
            opening_road_done(board, new, old, new_roads, old_roads, edge)
        } else if old.is_road_building {
            exists|laid: State|
                road_built(board, laid, old, new_roads, old_roads, player, edge, true) && new == free_road_tally(
                    board,
                    laid,
                    player,
                )
        } else {
            road_built(board, new, old, new_roads, old_roads, player, edge, false)
        },
        ValueActionKind::BuildCity(node) => city_built(new, old, player, node),
        ValueActionKind::Roll => roll_done(
            board,
            new,
            old,
            (die_after(state, increment), die_after(pcg_step(state, increment), increment)),
        ),
        ValueActionKind::EndTurn => end_turn_done(new, old, player),
        ValueActionKind::Discard(counts) => match counts {
            Some(c) => discard_done(new, old, player, c),
            None => exists|c: [u8; RESOURCE_COUNT]|
                {
                    &&& forall|k: int|
                        0 <= k < RESOURCE_COUNT ==> #[trigger] c@[k] as nat == discard_choice(
                            old.player_resources@[player as int],
                            state,
                            increment,
                        ).0[k]
                    &&& discard_done(new, old, player, c)
                },
        },
        ValueActionKind::MoveRobber { tile, victim, resource } => new == robber_moved(
            old,
            tile,
            victim,
            match (victim, resource) {
                (Some(v), None) => card_drawn(old.player_resources@[v as int], state, increment),
                _ => resource,
            },
        ),
        ValueActionKind::PlayYearOfPlenty(first, second) => new == dev_marked_played(
            plenty_drawn(old, tp, first, second),
            tp,
            DevCard::YearOfPlenty,
        ),
        ValueActionKind::PlayMonopoly(resource) => monopoly_done(new, old, resource),
        ValueActionKind::PlayKnight => {
            let played = dev_marked_played(old, tp, DevCard::Knight);
            &&& knight_done(played, old, new_army, old_army)
            &&& new == (State { current_prompt: ActionPrompt::MoveRobber, is_moving_robber: true, ..played })
        },
        ValueActionKind::PlayRoadBuilding => new == (State {
            current_prompt: ActionPrompt::PlayTurn,
            is_road_building: true,
            free_roads_available: 2,
            ..dev_marked_played(old, tp, DevCard::RoadBuilding)
        }),
        ValueActionKind::MaritimeTrade { offer, rate, ask } => maritime_done(new, old, player, offer, rate, ask),
        ValueActionKind::BuyDevCard => dev_card_bought(new, old, player, old.dev_deck@.last()),
        ValueActionKind::AcceptTrade => accept_done(new, old, player),
        ValueActionKind::RejectTrade => reject_done(new, old, player),
        ValueActionKind::ConfirmTrade(partner) => confirm_done(new, old, partner),
        ValueActionKind::CancelTrade => cancel_done(new, old),
    }
}

/// The generator state after `action` from `state`: two steps for the dice, the shuffle of a random discard,
/// one step for a card stolen at random from a hand that holds any, and none otherwise.
pub open spec fn rng_after_action(old: State, action: ValueAction, state: u128, increment: u128) -> u128 {
    match action.kind {
        ValueActionKind::Roll => pcg_step(pcg_step(state, increment), increment),
        ValueActionKind::Discard(None) => discard_choice(old.player_resources@[action.player as int], state, increment).1,
        ValueActionKind::MoveRobber { tile: _, victim: Some(v), resource: None } => if count_total(
            old.player_resources@[v as int],
        ) == 0 {
            state
        } else {
            pcg_step(state, increment)
        },
        _ => state,
    }
}

/// Applies `action` for its player: builds, rolls, discards, moves the robber, plays a development card, trades
/// or ends the turn. Dice, a discard left open and a card stolen at random come from `rng`.
pub fn apply_value_action(
    board: &Board,
    state: &mut State,
    road_state: &mut RoadState,
    army_state: &mut ArmyState,
    action: &ValueAction,
    rng: &mut Pcg64,
)
    requires
        board.wf(),
        step_ready(*old(state)),
        old(road_state).wf(),
        old(army_state).wf(),
        value_action_applicable(*old(state), *action),
    ensures
        final(road_state).wf(),
        final(army_state).wf(),
        totals_kept(*final(state), *old(state)),
        value_action_done(
            *board,
            *final(state),
            *old(state),
            *final(road_state),
            *old(road_state),
            *final(army_state),
            *old(army_state),
            *action,
            old(rng).spec_state(),
            old(rng).spec_increment(),
        ),
        final(rng).spec_state() == rng_after_action(*old(state), *action, old(rng).spec_state(), old(rng).spec_increment()),
        final(rng).spec_increment() == old(rng).spec_increment(),
{
    let player = action.player;
    match action.kind {
        ValueActionKind::BuildSettlement(node) => {
            if state.is_initial_build_phase && state.current_prompt == ActionPrompt::BuildInitialSettlement {
                apply_initial_settlement(board, state, road_state, node);
            } else {
                apply_build_settlement(board, state, road_state, player, node);
            }
        },
        ValueActionKind::BuildRoad(edge) => {
            if state.is_initial_build_phase && state.current_prompt == ActionPrompt::BuildInitialRoad {
                apply_initial_road(board, state, road_state, edge);
            } else if state.is_road_building {
                apply_build_road(board, state, road_state, player, edge, true);
                let ghost laid = *state;
                state.free_roads_available = if state.free_roads_available > 0 {
                    state.free_roads_available - 1
                } else {
                    0
                };
                if state.free_roads_available == 0 || !has_free_road(board, state, player) {
                    state.is_road_building = false;
                    state.free_roads_available = 0;
                }
                proof {
                    assert(*state == free_road_tally(*board, laid, player));
                }
            } else {
                apply_build_road(board, state, road_state, player, edge, false);
            }
        },
        ValueActionKind::BuildCity(node) => {
            apply_build_city(board, state, player, node);
        },
        ValueActionKind::Roll => {
            let first = roll_die(rng) as u32;
            let second = roll_die(rng) as u32;
            apply_roll(board, state, (first, second));
        },
        ValueActionKind::EndTurn => {
            apply_end_turn(state, player);
        },
        ValueActionKind::Discard(counts) => {
            let discard = match counts {
                Some(c) => {
                    proof {
                        assert forall|r: int| 0 <= r < RESOURCE_COUNT implies #[trigger] hand_at(*state, player as int, r) >= c@[r] by {
                            assert(state.player_resources@[player as int]@[r] >= c@[r]);
                        }
                    }
                    c
                },
                None => random_discard_counts(&state.player_resources[player as usize], rng),
            };
            apply_discard(state, player, &discard);
        },
        ValueActionKind::MoveRobber { tile, victim, resource } => {
            let stolen = match (victim, resource) {
                (Some(v), None) => random_resource_from_counts(rng, &state.player_resources[v as usize]),
                _ => resource,
            };
            apply_move_robber(state, tile, victim, stolen);
        },
        ValueActionKind::PlayYearOfPlenty(first, second) => {
            apply_year_of_plenty(state, first, second);
        },
        ValueActionKind::PlayMonopoly(resource) => {
            apply_monopoly(state, resource);
        },
        ValueActionKind::PlayKnight => {
            apply_knight(state, army_state);
            state.current_prompt = ActionPrompt::MoveRobber;
            state.is_moving_robber = true;
        },
        ValueActionKind::PlayRoadBuilding => {
            apply_road_building(state);
            state.current_prompt = ActionPrompt::PlayTurn;
        },
        ValueActionKind::MaritimeTrade { offer, rate, ask } => {
            apply_maritime_trade(state, player, offer, rate, ask);
        },
        ValueActionKind::BuyDevCard => {
            let _ = buy_dev_card(state, player);
        },
        ValueActionKind::AcceptTrade => {
            apply_accept_trade(state, player);
        },
        ValueActionKind::RejectTrade => {
            apply_reject_trade(state, player);
        },
        ValueActionKind::ConfirmTrade(partner) => {
            apply_confirm_trade(state, partner);
        },
        ValueActionKind::CancelTrade => {
            apply_cancel_trade(state);
        },
    }
}

/// Applies `action` as `apply_value_action` does; the engine keeps no undo record on either path, so the two
/// entry points share one implementation and one contract.
pub fn apply_value_action_kernel(
    board: &Board,
    state: &mut State,
    road_state: &mut RoadState,
    army_state: &mut ArmyState,
    action: &ValueAction,
    rng: &mut Pcg64,
)
    requires
        board.wf(),
        step_ready(*old(state)),
        old(road_state).wf(),
        old(army_state).wf(),
        value_action_applicable(*old(state), *action),
    ensures
        final(road_state).wf(),
        final(army_state).wf(),
        totals_kept(*final(state), *old(state)),
        value_action_done(
            *board,
            *final(state),
            *old(state),
            *final(road_state),
            *old(road_state),
            *final(army_state),
            *old(army_state),
            *action,
            old(rng).spec_state(),
            old(rng).spec_increment(),
        ),
        final(rng).spec_state() == rng_after_action(*old(state), *action, old(rng).spec_state(), old(rng).spec_increment()),
        final(rng).spec_increment() == old(rng).spec_increment(),
{
    apply_value_action(board, state, road_state, army_state, action, rng);
}

/// Every action in `actions` can be applied to `s`.
pub open spec fn all_applicable(s: State, actions: Seq<ValueAction>) -> bool {
    forall|i: int| 0 <= i < actions.len() ==> #[trigger] value_action_applicable(s, actions[i])
}

proof fn lemma_all_applicable_add(s: State, a: Seq<ValueAction>, b: Seq<ValueAction>)
    requires
        all_applicable(s, a),
        all_applicable(s, b),
    ensures
        all_applicable(s, a + b),
{
    assert forall|i: int| 0 <= i < (a + b).len() implies #[trigger] value_action_applicable(s, (a + b)[i]) by {
        if i < a.len() {
            assert((a + b)[i] == a[i]);
        } else {
            assert((a + b)[i] == b[i - a.len()]);
        }
    }
}

proof fn lemma_actions_where_applicable(
    s: State,
    player: PlayerId,
    n: int,
    pred: spec_fn(int) -> bool,
    kind: spec_fn(int) -> ValueActionKind,
)
    requires
        forall|i: int| 0 <= i < n && pred(i) ==> #[trigger] value_action_applicable(s, ValueAction { player, kind: kind(i) }),
    ensures
        all_applicable(s, actions_where(player, n, pred, kind)),
    decreases n,
{
    if n > 0 {
        lemma_actions_where_applicable(s, player, n - 1, pred, kind);
        let before = actions_where(player, n - 1, pred, kind);
        if pred(n - 1) {
            let x = ValueAction { player, kind: kind(n - 1) };
            assert(value_action_applicable(s, x));
            assert forall|i: int| 0 <= i < before.push(x).len() implies #[trigger] value_action_applicable(s, before.push(x)[i]) by {
                if i < before.len() {
                    assert(before.push(x)[i] == before[i]);
                }
            }
        }
    }
}

proof fn lemma_robber_actions_applicable(board: Board, s: State, player: PlayerId, t: int)
    requires
        is_player(player),
    ensures
        all_applicable(s, robber_actions(board, s, player, t)),
    decreases t,
{
    if t > 0 {
        lemma_robber_actions_applicable(board, s, player, t - 1);
        let robs = actions_where(player, PLAYER_COUNT as int, victim_pred(board, s, player, t - 1), rob_kind(t - 1));
        lemma_actions_where_applicable(s, player, PLAYER_COUNT as int, victim_pred(board, s, player, t - 1), rob_kind(t - 1));
        let none = seq![ValueAction { player, kind: ValueActionKind::MoveRobber { tile: (t - 1) as TileId, victim: None, resource: None } }];
        assert(value_action_applicable(s, none[0]));
        assert(all_applicable(s, none));
        assert(all_applicable(s, Seq::<ValueAction>::empty()));
        lemma_all_applicable_add(s, robber_actions(board, s, player, t - 1), tile_robber_actions(board, s, player, t - 1));
    }
}

proof fn lemma_maritime_actions_applicable(board: Board, s: State, player: PlayerId, i: int)
    requires
        is_player(player),
        0 <= i <= RESOURCE_COUNT,
    ensures
        all_applicable(s, maritime_actions(board, s, player, i)),
    decreases i,
{
    if i > 0 {
        lemma_maritime_actions_applicable(board, s, player, i - 1);
        let offer = scan_order()[i - 1];
        let rate = maritime_rate(board, s, player, offer);
        if s.hand(player, offer) >= rate {
            lemma_actions_where_applicable(s, player, RESOURCE_COUNT as int, ask_pred(s, offer), maritime_kind(offer, rate));
            lemma_all_applicable_add(
                s,
                maritime_actions(board, s, player, i - 1),
                actions_where(player, RESOURCE_COUNT as int, ask_pred(s, offer), maritime_kind(offer, rate)),
            );
        }
    }
}

proof fn lemma_dev_actions_applicable(board: Board, s: State, player: PlayerId)
    requires
        is_player(player),
    ensures
        all_applicable(s, dev_actions(board, s, player)),
{
    let plenty = if may_play_dev(s, player, DevCard::YearOfPlenty) { plenty_actions(s, player) } else { Seq::empty() };
    let monopoly = if may_play_dev(s, player, DevCard::Monopoly) { monopoly_actions(player) } else { Seq::empty() };
    let knight = if may_play_dev(s, player, DevCard::Knight) {
        seq![ValueAction { player, kind: ValueActionKind::PlayKnight }]
    } else {
        Seq::empty()
    };
    let road_building = if may_play_dev(s, player, DevCard::RoadBuilding) && free_road_exists(board, s, player) {
        seq![ValueAction { player, kind: ValueActionKind::PlayRoadBuilding }]
    } else {
        Seq::empty()
    };
    assert(all_applicable(s, plenty)) by {
        assert forall|i: int| 0 <= i < plenty.len() implies #[trigger] value_action_applicable(s, plenty[i]) by {
            let options = plenty_rows(s, RESOURCE_COUNT as int);
            assert(plenty_actions(s, player)[i] == plenty_action(player)(options[i]));
        }
    }
    assert(all_applicable(s, monopoly)) by {
        assert forall|i: int| 0 <= i < monopoly.len() implies #[trigger] value_action_applicable(s, monopoly[i]) by {
            assert(monopoly[i].player == player);
        }
    }
    assert(all_applicable(s, knight)) by {
        assert forall|i: int| 0 <= i < knight.len() implies #[trigger] value_action_applicable(s, knight[i]) by {
            assert(knight[i].player == player);
        }
    }
    assert(all_applicable(s, road_building)) by {
        assert forall|i: int| 0 <= i < road_building.len() implies #[trigger] value_action_applicable(s, road_building[i]) by {
            assert(road_building[i].player == player);
        }
    }
    lemma_all_applicable_add(s, plenty, monopoly);
    lemma_all_applicable_add(s, plenty + monopoly, knight);
    lemma_all_applicable_add(s, plenty + monopoly + knight, road_building);
}

/// Every action that the acting player is offered at a prompt can be applied: what it pays is in hand, what it
/// moves is there and whom it names exists. This holds in a state where an opening prompt comes only during the
/// opening.
pub proof fn lemma_playable_actions_applicable(board: Board, s: State, player: PlayerId)
    requires
        board.wf(),
        step_ready(s),
        is_player(player),
        (s.current_prompt == ActionPrompt::BuildInitialSettlement || s.current_prompt == ActionPrompt::BuildInitialRoad)
            ==> s.is_initial_build_phase,
    ensures
        all_applicable(s, playable_actions(board, s, player)),
{
    match s.current_prompt {
        ActionPrompt::BuildInitialSettlement => {
            lemma_actions_where_applicable(s, player, NODE_COUNT as int, opening_settlement_pred(board, s), settlement_kind());
        },
        ActionPrompt::BuildInitialRoad => {
            let anchor = s.last_initial_settlement@[player as int];
            if anchor != INVALID_NODE {
                assert forall|k: int| 0 <= k < 3 && #[trigger] opening_road_pred(board, s, player, anchor)(k) implies value_action_applicable(
                    s,
                    ValueAction { player, kind: anchor_road_kind(board, anchor)(k) },
                ) by {
                    assert(board.node_edges@[anchor as int]@[k] != INVALID_EDGE);
                }
                lemma_actions_where_applicable(s, player, 3, opening_road_pred(board, s, player, anchor), anchor_road_kind(board, anchor));
            }
        },
        ActionPrompt::Discard => {
            let d = seq![ValueAction { player, kind: ValueActionKind::Discard(None) }];
            assert(value_action_applicable(s, d[0]));
        },
        ActionPrompt::MoveRobber => {
            lemma_robber_actions_applicable(board, s, player, TILE_COUNT as int);
        },
        ActionPrompt::DecideTrade => {
            let answers = trade_answers(s, player);
            assert forall|i: int| 0 <= i < answers.len() implies #[trigger] value_action_applicable(s, answers[i]) by {
                assert(answers[i].player == player);
            }
        },
        ActionPrompt::DecideAcceptees => {
            assert forall|p: int| 0 <= p < PLAYER_COUNT && #[trigger] accepted_pred(s)(p) implies value_action_applicable(
                s,
                ValueAction { player, kind: confirm_kind()(p) },
            ) by {
                assert(s.acceptees@[p]);
            }
            lemma_actions_where_applicable(s, player, PLAYER_COUNT as int, accepted_pred(s), confirm_kind());
            let cancel = seq![ValueAction { player, kind: ValueActionKind::CancelTrade }];
            assert(value_action_applicable(s, cancel[0]));
            lemma_all_applicable_add(s, cancel, actions_where(player, PLAYER_COUNT as int, accepted_pred(s), confirm_kind()));
        },
        ActionPrompt::PlayTurn => {
            if s.is_road_building {
                lemma_actions_where_applicable(s, player, EDGE_COUNT as int, free_road_pred(board, s, player), road_kind());
            } else {
                lemma_dev_actions_applicable(board, s, player);
                let dev = dev_actions(board, s, player);
                if !s.has_rolled@[player as int] {
                    let roll = seq![ValueAction { player, kind: ValueActionKind::Roll }];
                    assert(value_action_applicable(s, roll[0]));
                    lemma_all_applicable_add(s, dev, roll);
                    assert(dev.push(ValueAction { player, kind: ValueActionKind::Roll }) =~= dev + roll);
                } else {
                    let end = seq![ValueAction { player, kind: ValueActionKind::EndTurn }];
                    assert(value_action_applicable(s, end[0]));
                    let cities = actions_where(player, NODE_COUNT as int, city_pred(s, player), city_kind());
                    let settlements = actions_where(player, NODE_COUNT as int, settlement_pred(board, s, player), settlement_kind());
                    let roads = actions_where(player, EDGE_COUNT as int, road_pred(board, s, player), road_kind());
                    let buy = if may_buy_dev_card(s, player) {
                        seq![ValueAction { player, kind: ValueActionKind::BuyDevCard }]
                    } else {
                        Seq::empty()
                    };
                    lemma_actions_where_applicable(s, player, NODE_COUNT as int, city_pred(s, player), city_kind());
                    lemma_actions_where_applicable(s, player, NODE_COUNT as int, settlement_pred(board, s, player), settlement_kind());
                    lemma_actions_where_applicable(s, player, EDGE_COUNT as int, road_pred(board, s, player), road_kind());
                    assert forall|i: int| 0 <= i < buy.len() implies #[trigger] value_action_applicable(s, buy[i]) by {
                        assert(buy[i].player == player);
                    }
                    lemma_maritime_actions_applicable(board, s, player, RESOURCE_COUNT as int);
                    lemma_all_applicable_add(s, end, cities);
                    lemma_all_applicable_add(s, end + cities, settlements);
                    lemma_all_applicable_add(s, end + cities + settlements, roads);
                    lemma_all_applicable_add(s, end + cities + settlements + roads, buy);
                    lemma_all_applicable_add(s, end + cities + settlements + roads + buy, maritime_actions(board, s, player, RESOURCE_COUNT as int));
                    lemma_all_applicable_add(s, dev, main_actions(board, s, player));
                }
            }
        },
    }
}

/// The place of an action's kind in the order actions are sorted in.
pub open spec fn kind_rank(kind: ValueActionKind) -> int {
    match kind {
        ValueActionKind::AcceptTrade => 0,
        ValueActionKind::BuildCity(_) => 1,
        ValueActionKind::BuildRoad(_) => 2,
        ValueActionKind::BuildSettlement(_) => 3,
        ValueActionKind::BuyDevCard => 4,
        ValueActionKind::CancelTrade => 5,
        ValueActionKind::ConfirmTrade(_) => 6,
        ValueActionKind::Discard(_) => 7,
        ValueActionKind::EndTurn => 8,
        ValueActionKind::MaritimeTrade { .. } => 9,
        ValueActionKind::MoveRobber { .. } => 10,
        ValueActionKind::PlayKnight => 11,
        ValueActionKind::PlayMonopoly(_) => 12,
        ValueActionKind::PlayRoadBuilding => 13,
        ValueActionKind::PlayYearOfPlenty(_, _) => 14,
        ValueActionKind::RejectTrade => 15,
        ValueActionKind::Roll => 16,
    }
}

/// The place of a resource in the sort order: brick, ore, wool, grain, lumber.
pub open spec fn resource_rank(resource: Resource) -> int {
    match resource {
        Resource::Brick => 0,
        Resource::Ore => 1,
        Resource::Wool => 2,
        Resource::Grain => 3,
        Resource::Lumber => 4,
    }
}

/// The place of a seat in the sort order of the seats' colours: blue, orange, red, then white; an unknown seat
/// sorts before white.
pub open spec fn color_rank(player: PlayerId) -> int {
    if player == 1 {
        0
    } else if player == 2 {
        1
    } else if player == 0 {
        2
    } else if player == 3 {
        4
    } else {
        3
    }
}

/// No player first, then by colour.
pub open spec fn option_player_key(player: Option<PlayerId>) -> int {
    match player {
        None => 0,
        Some(p) => 1 + color_rank(p),
    }
}

/// No resource first, then by resource.
pub open spec fn option_resource_key(resource: Option<Resource>) -> int {
    match resource {
        None => 0,
        Some(r) => 1 + resource_rank(r),
    }
}

/// An edge by its two nodes of the standard board, lower one first.
pub open spec fn edge_key(edge: EdgeId) -> int {
    let a = EDGE_NODES@[edge as int]@[0] as int;
    let b = EDGE_NODES@[edge as int]@[1] as int;
    if a <= b {
        a * 256 + b
    } else {
        b * 256 + a
    }
}

/// A tile by its cube coordinates, in lexicographic order.
pub open spec fn coords_key(c: (i8, i8, i8)) -> int {
    (c.0 + 128) * 65536 + (c.1 + 128) * 256 + (c.2 + 128)
}

/// Counts left open first, then the counts in lexicographic order.
pub open spec fn counts_key(counts: Option<[u8; RESOURCE_COUNT]>) -> int {
    match counts {
        None => 0,
        Some(c) => 1 + c@[0] * 0x1_0000_0000 + c@[1] * 0x100_0000 + c@[2] * 0x1_0000 + c@[3] * 0x100 + c@[4],
    }
}

/// The payload of an action, in the order actions of one kind are sorted in.
pub open spec fn payload_key(kind: ValueActionKind) -> int {
    match kind {
        ValueActionKind::BuildSettlement(node) => node as int,
        ValueActionKind::BuildCity(node) => node as int,
        ValueActionKind::BuildRoad(edge) => edge_key(edge),
        ValueActionKind::Discard(counts) => counts_key(counts),
        ValueActionKind::MoveRobber { tile, victim, resource } => coords_key(spec_tile_coords(tile)) * 36
            + option_player_key(victim) * 6 + option_resource_key(resource),
        ValueActionKind::PlayYearOfPlenty(first, second) => resource_rank(first) * 6 + option_resource_key(second),
        ValueActionKind::PlayMonopoly(resource) => resource_rank(resource),
        ValueActionKind::MaritimeTrade { offer, rate, ask } => resource_rank(offer) * 65536 + rate * 256 + resource_rank(
            ask,
        ),
        ValueActionKind::ConfirmTrade(partner) => color_rank(partner),
        _ => 0,
    }
}

/// The sort key of an action: its kind, then its payload.
pub open spec fn action_key(action: ValueAction) -> int {
    kind_rank(action.kind) * 0x1_0000_0000_0000 + payload_key(action.kind)
}

/// The action names no road off the board.
pub open spec fn sortable(action: ValueAction) -> bool {
    action.kind matches ValueActionKind::BuildRoad(edge) ==> (edge as int) < EDGE_COUNT
}

fn resource_sort_rank(resource: Resource) -> (rank: u64)
    ensures
        rank == resource_rank(resource),
{
    match resource {
        Resource::Brick => 0,
        Resource::Ore => 1,
        Resource::Wool => 2,
        Resource::Grain => 3,
        Resource::Lumber => 4,
    }
}

fn color_sort_rank(player: PlayerId) -> (rank: u64)
    ensures
        rank == color_rank(player),
{
    match player {
        1 => 0,
        2 => 1,
        0 => 2,
        3 => 4,
        _ => 3,
    }
}

fn option_player_sort_key(player: Option<PlayerId>) -> (key: u64)
    ensures
        key == option_player_key(player),
{
    match player {
        None => 0,
        Some(p) => 1 + color_sort_rank(p),
    }
}

fn option_resource_sort_key(resource: Option<Resource>) -> (key: u64)
    ensures
        key == option_resource_key(resource),
{
    match resource {
        None => 0,
        Some(r) => 1 + resource_sort_rank(r),
    }
}

fn action_kind_sort_rank(kind: &ValueActionKind) -> (rank: u64)
    ensures
        rank == kind_rank(*kind),
{
    match kind {
        ValueActionKind::AcceptTrade => 0,
        ValueActionKind::BuildCity(_) => 1,
        ValueActionKind::BuildRoad(_) => 2,
        ValueActionKind::BuildSettlement(_) => 3,
        ValueActionKind::BuyDevCard => 4,
        ValueActionKind::CancelTrade => 5,
        ValueActionKind::ConfirmTrade(_) => 6,
        ValueActionKind::Discard(_) => 7,
        ValueActionKind::EndTurn => 8,
        ValueActionKind::MaritimeTrade { .. } => 9,
        ValueActionKind::MoveRobber { .. } => 10,
        ValueActionKind::PlayKnight => 11,
        ValueActionKind::PlayMonopoly(_) => 12,
        ValueActionKind::PlayRoadBuilding => 13,
        ValueActionKind::PlayYearOfPlenty(_, _) => 14,
        ValueActionKind::RejectTrade => 15,
        ValueActionKind::Roll => 16,
    }
}

/// An edge's two nodes on the standard board, lower one first.
fn canonical_edge_nodes(edge: EdgeId) -> (nodes: (NodeId, NodeId))
    requires
        (edge as int) < EDGE_COUNT,
    ensures
        nodes.0 <= nodes.1,
        nodes.0 * 256 + nodes.1 == edge_key(edge),
{
    let nodes = EDGE_NODES[edge as usize];
    if nodes[0] <= nodes[1] {
        (nodes[0], nodes[1])
    } else {
        (nodes[1], nodes[0])
    }
}

/// The sort key of an action.
fn value_action_key(action: &ValueAction) -> (key: u64)
    requires
        sortable(*action),
    ensures
        key == action_key(*action),
{
    let rank = action_kind_sort_rank(&action.kind);
    let payload: u64 = match action.kind {
        ValueActionKind::BuildSettlement(node) => node as u64,
        ValueActionKind::BuildCity(node) => node as u64,
        ValueActionKind::BuildRoad(edge) => {
            let (a, b) = canonical_edge_nodes(edge);
            a as u64 * 256 + b as u64
        },
        ValueActionKind::Discard(counts) => match counts {
            None => 0,
            Some(c) => 1 + c[0] as u64 * 0x1_0000_0000 + c[1] as u64 * 0x100_0000 + c[2] as u64 * 0x1_0000 + c[3] as u64
                * 0x100 + c[4] as u64,
        },
        ValueActionKind::MoveRobber { tile, victim, resource } => {
            let c = tile_coords(tile);
            let coords = (c.0 as i64 + 128) as u64 * 65536 + (c.1 as i64 + 128) as u64 * 256 + (c.2 as i64 + 128) as u64;
            coords * 36 + option_player_sort_key(victim) * 6 + option_resource_sort_key(resource)
        },
        ValueActionKind::PlayYearOfPlenty(first, second) => resource_sort_rank(first) * 6 + option_resource_sort_key(
            second,
        ),
        ValueActionKind::PlayMonopoly(resource) => resource_sort_rank(resource),
        ValueActionKind::MaritimeTrade { offer, rate, ask } => resource_sort_rank(offer) * 65536 + rate as u64 * 256
            + resource_sort_rank(ask),
        ValueActionKind::ConfirmTrade(partner) => color_sort_rank(partner),
        _ => 0,
    };
    rank * 0x1_0000_0000_0000 + payload
}

/// The actions are in sort order.
pub open spec fn sorted_actions(actions: Seq<ValueAction>) -> bool {
    forall|i: int, j: int| 0 <= i < j < actions.len() ==> action_key(actions[i]) <= action_key(actions[j])
}

/// The actions with sort key `k`, in the order given.
pub open spec fn with_key(actions: Seq<ValueAction>, k: int) -> Seq<ValueAction> {
    actions.filter(|a: ValueAction| action_key(a) == k)
}

proof fn lemma_with_key_push(actions: Seq<ValueAction>, item: ValueAction, k: int)
    ensures
        with_key(actions.push(item), k) == if action_key(item) == k {
            with_key(actions, k).push(item)
        } else {
            with_key(actions, k)
        },
{
    reveal(Seq::filter);
    assert(actions.push(item).drop_last() =~= actions);
}

proof fn lemma_with_key_none(actions: Seq<ValueAction>, k: int)
    requires
        forall|j: int| 0 <= j < actions.len() ==> action_key(#[trigger] actions[j]) != k,
    ensures
        with_key(actions, k) == Seq::<ValueAction>::empty(),
{
    let f = with_key(actions, k);
    if f.len() > 0 {
        actions.lemma_filter_pred(|a: ValueAction| action_key(a) == k, 0);
        actions.lemma_filter_contains_rev(|a: ValueAction| action_key(a) == k, f[0]);
        let j = choose|j: int| 0 <= j < actions.len() && actions[j] == f[0];
        assert(action_key(actions[j]) != k);
    }
}

/// Inserting an item after every action whose key is at most its own, and before every action whose key is
/// greater, adds it at the end of the actions with its key.
proof fn lemma_with_key_insert(before: Seq<ValueAction>, pos: int, item: ValueAction, k: int)
    requires
        0 <= pos <= before.len(),
        forall|j: int| pos <= j < before.len() ==> action_key(#[trigger] before[j]) > action_key(item),
    ensures
        with_key(before.insert(pos, item), k) == if action_key(item) == k {
            with_key(before, k).push(item)
        } else {
            with_key(before, k)
        },
{
    let pred = |a: ValueAction| action_key(a) == k;
    let head = before.take(pos);
    let tail = before.skip(pos);
    assert(before.insert(pos, item) =~= head.push(item) + tail);
    assert(before =~= head + tail);
    Seq::filter_distributes_over_add(head.push(item), tail, pred);
    Seq::filter_distributes_over_add(head, tail, pred);
    lemma_with_key_push(head, item, k);
    if action_key(item) == k {
        assert forall|j: int| 0 <= j < tail.len() implies action_key(#[trigger] tail[j]) != k by {
            assert(tail[j] == before[pos + j]);
        }
        lemma_with_key_none(tail, k);
        assert(with_key(tail, k) == Seq::<ValueAction>::empty());
        assert(head.filter(pred).push(item) + tail.filter(pred) =~= (head.filter(pred) + tail.filter(pred)).push(item));
    } else {
        assert(head.push(item).filter(pred) == head.filter(pred));
    }
}

/// Sorts the actions by kind, then by payload, so that the player weighs them in a fixed order; an action is
/// placed after the ones with the same key that came before it.
pub fn sort_value_actions(actions: &mut Vec<ValueAction>)
    requires
        forall|i: int| 0 <= i < old(actions)@.len() ==> sortable(#[trigger] old(actions)@[i]),
    ensures
        final(actions)@.to_multiset() == old(actions)@.to_multiset(),
        sorted_actions(final(actions)@),
        forall|k: int| #[trigger] with_key(final(actions)@, k) == with_key(old(actions)@, k),
{
    let ghost given = actions@;
    let mut sorted: Vec<ValueAction> = Vec::new();
    proof {
        assert(given.take(0) =~= sorted@);
    }
    let mut i: usize = 0;
    while i < actions.len()
        invariant
            i <= actions@.len(),
            actions@ == given,
            forall|k: int| 0 <= k < given.len() ==> sortable(#[trigger] given[k]),
            forall|k: int| 0 <= k < sorted@.len() ==> sortable(#[trigger] sorted@[k]),
            sorted_actions(sorted@),
            sorted@.to_multiset() == given.take(i as int).to_multiset(),
            forall|k: int| #[trigger] with_key(sorted@, k) == with_key(given.take(i as int), k),
        decreases actions@.len() - i,
    {
        let item = actions[i];
        let key = value_action_key(&item);
        let ghost before = sorted@;
        let mut pos: usize = 0;
        while pos < sorted.len() && value_action_key(&sorted[pos]) <= key
            invariant
                pos <= sorted@.len(),
                sorted@ == before,
                key == action_key(item),
                forall|k: int| 0 <= k < sorted@.len() ==> sortable(#[trigger] sorted@[k]),
                forall|k: int| 0 <= k < pos ==> action_key(#[trigger] sorted@[k]) <= key,
            decreases sorted@.len() - pos,
        {
            pos = pos + 1;
        }
        sorted.insert(pos, item);
        proof {
            vstd::seq_lib::to_multiset_insert(before, pos as int, item);
            assert(given.take(i + 1) =~= given.take(i as int).push(item));
            vstd::seq_lib::to_multiset_build(given.take(i as int), item);
            assert forall|j: int| pos <= j < before.len() implies action_key(#[trigger] before[j]) > action_key(item) by {
                assert(!(action_key(before[pos as int]) <= key));
                if j > pos {
                    assert(action_key(before[pos as int]) <= action_key(before[j]));
                }
            }
            assert forall|k: int| #[trigger] with_key(sorted@, k) == with_key(given.take(i + 1), k) by {
                lemma_with_key_insert(before, pos as int, item, k);
                lemma_with_key_push(given.take(i as int), item, k);
            }
            assert forall|a: int, b: int| 0 <= a < b < sorted@.len() implies action_key(sorted@[a]) <= action_key(sorted@[b]) by {
                if b == pos {
                    assert(sorted@[a] == before[a]);
                } else if a == pos {
                    assert(sorted@[b] == before[b - 1]);
                    if pos < before.len() {
                        assert(!(action_key(before[pos as int]) <= key));
                        if b - 1 > pos {
                            assert(action_key(before[pos as int]) <= action_key(before[b - 1]));
                        }
                    }
                } else if a < pos && b < pos {
                    assert(sorted@[a] == before[a]);
                    assert(sorted@[b] == before[b]);
                } else if a < pos {
                    assert(sorted@[a] == before[a]);
                    assert(sorted@[b] == before[b - 1]);
                } else {
                    assert(sorted@[a] == before[a - 1]);
                    assert(sorted@[b] == before[b - 1]);
                }
            }
            assert forall|k: int| 0 <= k < sorted@.len() implies sortable(#[trigger] sorted@[k]) by {
                if k < pos {
                    assert(sorted@[k] == before[k]);
                } else if k > pos {
                    assert(sorted@[k] == before[k - 1]);
                }
            }
        }
        i = i + 1;
    }
    proof {
        assert(given.take(given.len() as int) =~= given);
    }
    *actions = sorted;
}

/// The action moves the robber, which changes what the other players produce.
pub fn action_changes_enemy_production(kind: &ValueActionKind) -> (changes: bool)
    ensures
        changes == (*kind is MoveRobber),
{
    matches!(kind, ValueActionKind::MoveRobber { .. })
}

/// The action builds nothing on the board.
pub fn action_is_non_structural(kind: &ValueActionKind) -> (non_structural: bool)
    ensures
        non_structural == !(*kind is BuildSettlement || *kind is BuildCity || *kind is BuildRoad),
{
    !matches!(kind, ValueActionKind::BuildSettlement(_) | ValueActionKind::BuildCity(_) | ValueActionKind::BuildRoad(_))
}

/// The action leaves the board and the robber as they are, so what was worked out about the board still holds
/// after it.
pub fn action_reuses_spatial_cache(kind: &ValueActionKind) -> (reuses: bool)
    ensures
        reuses == !(*kind is BuildSettlement || *kind is BuildCity || *kind is BuildRoad || *kind is MoveRobber),
{
    action_is_non_structural(kind) && !action_changes_enemy_production(kind)
}

/// Whether the offering player holds what the trade offers and `partner` holds what it asks.
fn trade_is_covered(state: &State, partner: PlayerId) -> (covered: bool)
    requires
        is_player(partner),
        is_player(state.trade_offering_player),
    ensures
        covered == trade_covered(*state, partner),
{
    let offering = state.trade_offering_player as usize;
    let mut k: usize = 0;
    while k < RESOURCE_COUNT
        invariant
            k <= RESOURCE_COUNT,
            offering == state.trade_offering_player,
            offering < PLAYER_COUNT,
            is_player(partner),
            forall|j: int| 0 <= j < k ==> #[trigger] hand_at(*state, offering as int, j) >= state.current_trade@[j],
            forall|j: int| 0 <= j < k ==> #[trigger] hand_at(*state, partner as int, j) >= state.current_trade@[RESOURCE_COUNT + j],
        decreases RESOURCE_COUNT - k,
    {
        if state.player_resources[offering][k] < state.current_trade[k] {
            proof {
                assert(hand_at(*state, offering as int, k as int) < state.current_trade@[k as int]);
            }
            return false;
        }
        if state.player_resources[partner as usize][k] < state.current_trade[RESOURCE_COUNT + k] {
            proof {
                assert(hand_at(*state, partner as int, k as int) < state.current_trade@[RESOURCE_COUNT + k]);
            }
            return false;
        }
        k = k + 1;
    }
    true
}

/// Whether `action` can be applied to the state: its player exists, and what it pays, moves or names is there.
pub fn can_apply_value_action(state: &State, action: &ValueAction) -> (ok: bool)
    requires
        is_player(state.trade_offering_player),
    ensures
        ok == value_action_applicable(*state, *action),
{
    let player = action.player;
    if player as usize >= PLAYER_COUNT {
        return false;
    }
    match action.kind {
        ValueActionKind::BuildSettlement(node) => (node as usize) < NODE_COUNT && ((state.is_initial_build_phase
            && state.current_prompt == ActionPrompt::BuildInitialSettlement) || has_resources(state, player, &SETTLEMENT_COST)),
        ValueActionKind::BuildRoad(edge) => (edge as usize) < EDGE_COUNT && ((state.is_initial_build_phase
            && state.current_prompt == ActionPrompt::BuildInitialRoad) || state.is_road_building || has_resources(
            state,
            player,
            &ROAD_COST,
        )),
        ValueActionKind::BuildCity(node) => (node as usize) < NODE_COUNT && has_resources(state, player, &CITY_COST),
        ValueActionKind::Discard(counts) => match counts {
            Some(c) => has_resources(state, player, &c),
            None => true,
        },
        ValueActionKind::MoveRobber { tile: _, victim, resource: _ } => match victim {
            Some(v) => (v as usize) < PLAYER_COUNT,
            None => true,
        },
        ValueActionKind::MaritimeTrade { offer, rate, ask } => {
            let bank = state.bank_resources[ask.as_index()] as u32 + if offer == ask { rate as u32 } else { 0 };
            rate <= 127 && state.player_resources[player as usize][offer.as_index()] >= rate && bank >= 1
        },
        ValueActionKind::BuyDevCard => can_buy_dev_card(state, player),
        ValueActionKind::ConfirmTrade(partner) => (partner as usize) < PLAYER_COUNT && trade_is_covered(state, partner),
        _ => true,
    }
}

} // verus!
