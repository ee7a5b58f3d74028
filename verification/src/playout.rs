use vstd::prelude::*;

use crate::board::Board;
use crate::building::{opening_road_done, opening_settlement_done};
use crate::engine::{can_meet_ask, may_buy_dev_card, spec_first_acceptee, trade_offered, ArmyState, RoadState, StepResult};
use crate::log_format::{
    confirm_text, counts_text, decimal, dev_card_name, log_line, maritime_text, plenty_text, resource_name, robber_text,
    trade_text,
};
use crate::policy::{
    city_choice, dev_play_choice, discard_choice, domestic_choice, free_road_choice, initial_road_choice,
    free_road_allowed, initial_settlement_choice, maritime_choice, one_for_one, road_choice, settlement_choice, DevPayload,
};
use crate::robber::spec_robber_target;
use crate::state::State;
use crate::types::{ActionPrompt, DevCard, EdgeId, NodeId, PlayerId, Resource, PLAYER_COUNT};
use crate::value_player::{free_road_exists, card_drawn, die_after, rng_after_action, value_action_done, ValueAction, ValueActionKind};
use crate::game::{measure_lower, step_measure, step_ready};
use crate::rng::{pcg_step, seeded_state, shuffled};
use crate::scoring::{points_seq, spec_first_winner, total_points, victory_cards_bounded};
use crate::state::ordered_deck;
use crate::stats::{counter, Stats};

verus! {

/// The move the built-in policy makes in one step.
pub enum PolicyMove {
    /// No move fits the prompt; the step is refused.
    Illegal,
    /// The chosen development card cannot be played with the chosen payload; nothing happens.
    Pass,
    /// An action of the value player's action set.
    Act(ValueAction),
    /// The acting player's opening settlement on the node.
    OpeningSettlement(NodeId),
    /// The acting player's opening road on the edge.
    OpeningRoad(EdgeId),
    /// A one-for-one trade offer: the resource given, then the resource asked for.
    Offer(Resource, Resource),
}

/// The state the policy moves from: on its own turn, road building with no edge left for a free road ends
/// first.
pub open spec fn policy_base(board: Board, s: State) -> State {
    if s.current_prompt == ActionPrompt::PlayTurn && s.is_road_building && free_road_choice(board, s, s.turn_player) is None {
        State { is_road_building: false, free_roads_available: 0, ..s }
    } else {
        s
    }
}

/// The action for a development card and the payload chosen for it.
pub open spec fn dev_kind(card: DevCard, payload: DevPayload) -> Option<ValueActionKind> {
    match (card, payload) {
        (DevCard::YearOfPlenty, DevPayload::YearOfPlenty(first, second)) => Some(ValueActionKind::PlayYearOfPlenty(first, second)),
        (DevCard::Monopoly, DevPayload::Monopoly(r)) => Some(ValueActionKind::PlayMonopoly(r)),
        (DevCard::Knight, _) => Some(ValueActionKind::PlayKnight),
        (DevCard::RoadBuilding, _) => Some(ValueActionKind::PlayRoadBuilding),
        _ => None,
    }
}

/// The move on the turn player's open play, tried in this order: a free road while road building, a
/// development card, the roll, a city, a settlement, a road, a development card bought, a maritime trade, a
/// domestic trade offer (once a turn), the end of the turn.
pub open spec fn play_turn_move(board: Board, s: State) -> PolicyMove {
    let tp = s.turn_player;
    let act = |kind: ValueActionKind| PolicyMove::Act(ValueAction { player: tp, kind });
    if s.is_road_building && free_road_choice(board, s, tp) is Some {
        act(ValueActionKind::BuildRoad(free_road_choice(board, s, tp)->0 as EdgeId))
    } else {
        let b = policy_base(board, s);
        match dev_play_choice(board, b) {
            Some((card, payload)) => match dev_kind(card, payload) {
                Some(kind) => act(kind),
                None => PolicyMove::Pass,
            },
            None => if !b.has_rolled@[tp as int] {
                act(ValueActionKind::Roll)
            } else if city_choice(b, tp) is Some {
                act(ValueActionKind::BuildCity(city_choice(b, tp)->0 as NodeId))
            } else if settlement_choice(board, b, tp) is Some {
                act(ValueActionKind::BuildSettlement(settlement_choice(board, b, tp)->0 as NodeId))
            } else if road_choice(board, b, tp) is Some {
                act(ValueActionKind::BuildRoad(road_choice(board, b, tp)->0 as EdgeId))
            } else if may_buy_dev_card(b, tp) {
                act(ValueActionKind::BuyDevCard)
            } else if maritime_choice(board, b, tp) is Some {
                let (offer, rate, ask) = maritime_choice(board, b, tp)->0;
                act(ValueActionKind::MaritimeTrade { offer, rate, ask })
            } else if !b.trade_offered_this_turn && domestic_choice(b, tp) is Some {
                {
                let (offer, ask) = domestic_choice(b, tp)->0;
                PolicyMove::Offer(offer, ask)
            }
            } else {
                act(ValueActionKind::EndTurn)
            },
        }
    }
}

/// The move the built-in policy makes on `s`, with the standings `roads` and `army`: the acting player
/// answers the prompt.
#[verifier::opaque]
pub open spec fn policy_move(board: Board, s: State, roads: RoadState, army: ArmyState) -> PolicyMove {
    let ap = s.active_player;
    let act = |kind: ValueActionKind| PolicyMove::Act(ValueAction { player: ap, kind });
    match s.current_prompt {
        ActionPrompt::BuildInitialSettlement => match initial_settlement_choice(board, s) {
            Some(n) => PolicyMove::OpeningSettlement(n as NodeId),
            None => PolicyMove::Illegal,
        },
        ActionPrompt::BuildInitialRoad => match initial_road_choice(board, s) {
            Some(e) => PolicyMove::OpeningRoad(e),
            None => PolicyMove::Illegal,
        },
        ActionPrompt::Discard => act(ValueActionKind::Discard(None)),
        ActionPrompt::MoveRobber => {
            let (tile, victim) = spec_robber_target(board, s, roads, army, ap);
            act(ValueActionKind::MoveRobber { tile, victim, resource: None })
        },
        ActionPrompt::DecideTrade => if can_meet_ask(s, ap) {
            act(ValueActionKind::AcceptTrade)
        } else {
            act(ValueActionKind::RejectTrade)
        },
        ActionPrompt::DecideAcceptees => match spec_first_acceptee(s) {
            Some(p) => act(ValueActionKind::ConfirmTrade(p)),
            None => act(ValueActionKind::CancelTrade),
        },
        ActionPrompt::PlayTurn => play_turn_move(board, s),
    }
}

/// The cards a random discard from the generator at `(state, increment)` gives up from `hand`.
pub open spec fn discarded(hand: [u8; 5], state: u128, increment: u128) -> Seq<u8> {
    Seq::new(5, |k: int| discard_choice(hand, state, increment).0[k] as u8)
}

/// The log line of `action`, taken on `old` and giving `new`, with the generator at `(state, increment)`.
pub open spec fn move_line(old: State, new: State, action: ValueAction, state: u128, increment: u128) -> Seq<char> {
    match action.kind {
        ValueActionKind::BuildSettlement(n) => log_line("BUILD_SETTLEMENT"@, Some(decimal(n as nat))),
        ValueActionKind::BuildRoad(e) => log_line("BUILD_ROAD"@, Some(decimal(e as nat))),
        ValueActionKind::BuildCity(n) => log_line("BUILD_CITY"@, Some(decimal(n as nat))),
        ValueActionKind::Roll => log_line(
            "ROLL"@,
            Some(
                decimal(die_after(state, increment) as nat) + seq![','] + decimal(
                    die_after(pcg_step(state, increment), increment) as nat,
                ),
            ),
        ),
        ValueActionKind::EndTurn => log_line("END_TURN"@, None),
        ValueActionKind::Discard(_) => log_line(
            "DISCARD"@,
            Some(counts_text(discarded(old.player_resources@[action.player as int], state, increment), 5)),
        ),
        ValueActionKind::MoveRobber { tile, victim, resource: _ } => log_line(
            "MOVE_ROBBER"@,
            Some(
                robber_text(
                    tile,
                    victim,
                    match victim {
                        Some(v) => card_drawn(old.player_resources@[v as int], state, increment),
                        None => None,
                    },
                ),
            ),
        ),
        ValueActionKind::PlayYearOfPlenty(first, second) => log_line("PLAY_YEAR_OF_PLENTY"@, Some(plenty_text(first, second))),
        ValueActionKind::PlayMonopoly(r) => log_line("PLAY_MONOPOLY"@, Some(resource_name(r))),
        ValueActionKind::PlayKnight => log_line("PLAY_KNIGHT"@, None),
        ValueActionKind::PlayRoadBuilding => log_line("PLAY_ROAD_BUILDING"@, None),
        ValueActionKind::MaritimeTrade { offer, rate, ask } => log_line("MARITIME_TRADE"@, Some(maritime_text(offer, rate, ask))),
        ValueActionKind::BuyDevCard => log_line("BUY_DEV_CARD"@, Some(dev_card_name(old.dev_deck@.last()))),
        ValueActionKind::AcceptTrade => log_line("ACCEPT_TRADE"@, Some(trade_text(new.current_trade))),
        ValueActionKind::RejectTrade => log_line("REJECT_TRADE"@, Some(trade_text(new.current_trade))),
        ValueActionKind::ConfirmTrade(p) => log_line("CONFIRM_TRADE"@, Some(confirm_text(old.current_trade, p))),
        ValueActionKind::CancelTrade => log_line("CANCEL_TRADE"@, None),
    }
}

/// The one-for-one offer of `offer` for `ask`.
pub open spec fn offer_trade(offer: Resource, ask: Resource) -> [u8; 10] {
    choose|t: [u8; 10]| one_for_one(t, offer, ask)
}

/// One step of the built-in policy from `old` (standings `old_roads`, `old_army`, generator at
/// `(state, increment)`) gives `new` (standings `new_roads`, `new_army`, generator at `next`) and the step's
/// result.
#[verifier::opaque]
pub open spec fn policy_step_done(
    board: Board,
    old: State,
    new: State,
    old_roads: RoadState,
    new_roads: RoadState,
    old_army: ArmyState,
    new_army: ArmyState,
    state: u128,
    increment: u128,
    next: u128,
    result: StepResult,
) -> bool {
    let base = policy_base(board, old);
    match policy_move(board, old, old_roads, old_army) {
        PolicyMove::Illegal => {
            &&& result == StepResult::Illegal
            &&& new == old && new_roads == old_roads && new_army == old_army && next == state
        },
        PolicyMove::Pass => {
            &&& result == StepResult::Other
            &&& new == base && new_roads == old_roads && new_army == old_army && next == state
        },
        PolicyMove::Act(a) => {
            &&& result == if a.kind is EndTurn { StepResult::EndTurn } else { StepResult::Other }
            &&& value_action_done(board, new, base, new_roads, old_roads, new_army, old_army, a, state, increment)
            &&& next == rng_after_action(base, a, state, increment)
        },
        PolicyMove::OpeningSettlement(n) => {
            &&& result == StepResult::Other
            &&& opening_settlement_done(board, new, old, n)
            &&& new_roads == old_roads && new_army == old_army && next == state
        },
        PolicyMove::OpeningRoad(e) => {
            &&& result == StepResult::Other
            &&& opening_road_done(board, new, old, new_roads, old_roads, e)
            &&& new_army == old_army && next == state
        },
        PolicyMove::Offer(offer, ask) => {
            &&& result == StepResult::Other
            &&& new_roads == old_roads && new_army == old_army && next == state
            &&& new == (State { acceptees: new.acceptees, ..trade_offered(base, base.turn_player, offer_trade(offer, ask)) })
            &&& forall|p: int| 0 <= p < crate::types::PLAYER_COUNT ==> !#[trigger] new.acceptees@[p]
        },
    }
}

/// The log line of the step from `old` to `new` (none for a refused or empty step).
#[verifier::opaque]
pub open spec fn policy_line(
    board: Board,
    old: State,
    new: State,
    roads: RoadState,
    army: ArmyState,
    state: u128,
    increment: u128,
) -> Option<Seq<char>> {
    match policy_move(board, old, roads, army) {
        PolicyMove::Act(a) => Some(move_line(policy_base(board, old), new, a, state, increment)),
        PolicyMove::OpeningSettlement(n) => Some(log_line("BUILD_SETTLEMENT"@, Some(decimal(n as nat)))),
        PolicyMove::OpeningRoad(e) => Some(log_line("BUILD_ROAD"@, Some(decimal(e as nat)))),
        PolicyMove::Offer(offer, ask) => Some(log_line("OFFER_TRADE"@, Some(trade_text(offer_trade(offer, ask))))),
        _ => None,
    }
}

/// An offer is fixed by the two resources.
pub proof fn lemma_offer_trade(t: [u8; 10], offer: Resource, ask: Resource)
    requires
        one_for_one(t, offer, ask),
    ensures
        offer_trade(offer, ask) == t,
{
    let c = offer_trade(offer, ask);
    assert(one_for_one(c, offer, ask));
    assert(c =~= t);
}

/// The log line an exec step gave, as text.
pub open spec fn line_of(entry: Option<String>) -> Option<Seq<char>> {
    match entry {
        Some(e) => Some(e@),
        None => None,
    }
}

/// A step whose move is an action of the value player's set.
pub proof fn lemma_act_step(
    board: Board,
    old: State,
    new: State,
    old_roads: RoadState,
    new_roads: RoadState,
    old_army: ArmyState,
    new_army: ArmyState,
    state: u128,
    increment: u128,
    next: u128,
    a: ValueAction,
)
    requires
        policy_move(board, old, old_roads, old_army) == PolicyMove::Act(a),
        value_action_done(board, new, policy_base(board, old), new_roads, old_roads, new_army, old_army, a, state, increment),
        next == rng_after_action(policy_base(board, old), a, state, increment),
    ensures
        policy_step_done(
            board,
            old,
            new,
            old_roads,
            new_roads,
            old_army,
            new_army,
            state,
            increment,
            next,
            if a.kind is EndTurn { StepResult::EndTurn } else { StepResult::Other },
        ),
        policy_line(board, old, new, old_roads, old_army, state, increment) == Some(
            move_line(policy_base(board, old), new, a, state, increment),
        ),
{
    reveal(policy_step_done);
    reveal(policy_line);
}

/// A step that makes no move: refused, or a development card whose payload does not fit.
pub proof fn lemma_still_step(
    board: Board,
    old: State,
    new: State,
    roads: RoadState,
    army: ArmyState,
    state: u128,
    increment: u128,
    result: StepResult,
)
    requires
        policy_move(board, old, roads, army) is Illegal || policy_move(board, old, roads, army) is Pass,
        policy_move(board, old, roads, army) is Illegal ==> new == old && result == StepResult::Illegal,
        policy_move(board, old, roads, army) is Pass ==> new == policy_base(board, old) && result == StepResult::Other,
    ensures
        policy_step_done(board, old, new, roads, roads, army, army, state, increment, state, result),
        policy_line(board, old, new, roads, army, state, increment) is None,
{
    reveal(policy_step_done);
    reveal(policy_line);
}

/// A step that places an opening settlement or road.
pub proof fn lemma_opening_step(
    board: Board,
    old: State,
    new: State,
    old_roads: RoadState,
    new_roads: RoadState,
    army: ArmyState,
    state: u128,
    increment: u128,
)
    requires
        match policy_move(board, old, old_roads, army) {
            PolicyMove::OpeningSettlement(n) => opening_settlement_done(board, new, old, n) && new_roads == old_roads,
            PolicyMove::OpeningRoad(e) => opening_road_done(board, new, old, new_roads, old_roads, e),
            _ => false,
        },
    ensures
        policy_step_done(board, old, new, old_roads, new_roads, army, army, state, increment, state, StepResult::Other),
        policy_line(board, old, new, old_roads, army, state, increment) == match policy_move(board, old, old_roads, army) {
            PolicyMove::OpeningSettlement(n) => Some(log_line("BUILD_SETTLEMENT"@, Some(decimal(n as nat)))),
            PolicyMove::OpeningRoad(e) => Some(log_line("BUILD_ROAD"@, Some(decimal(e as nat)))),
            _ => None,
        },
{
    reveal(policy_step_done);
    reveal(policy_line);
}

/// A step that offers a one-for-one trade.
pub proof fn lemma_offer_step(
    board: Board,
    old: State,
    new: State,
    roads: RoadState,
    army: ArmyState,
    state: u128,
    increment: u128,
    offer: Resource,
    ask: Resource,
    t: [u8; 10],
)
    requires
        policy_move(board, old, roads, army) == PolicyMove::Offer(offer, ask),
        one_for_one(t, offer, ask),
        new == (State { acceptees: new.acceptees, ..trade_offered(policy_base(board, old), policy_base(board, old).turn_player, t) }),
        forall|p: int| 0 <= p < crate::types::PLAYER_COUNT ==> !#[trigger] new.acceptees@[p],
    ensures
        policy_step_done(board, old, new, roads, roads, army, army, state, increment, state, StepResult::Other),
        policy_line(board, old, new, roads, army, state, increment) == Some(log_line("OFFER_TRADE"@, Some(trade_text(t)))),
{
    lemma_offer_trade(t, offer, ask);
    reveal(policy_step_done);
    reveal(policy_line);
}

/// The first free road exists exactly when some edge takes one.
pub proof fn lemma_free_road_choice_exists(board: Board, s: State, player: PlayerId)
    ensures
        (free_road_choice(board, s, player) is Some) == free_road_exists(board, s, player),
{
    crate::policy::lemma_first_where_holds(crate::policy::free_road_choice_pred(board, s, player), crate::types::EDGE_COUNT as int);
    if free_road_exists(board, s, player) {
        let e = choose|e: int| 0 <= e < crate::types::EDGE_COUNT && #[trigger] free_road_allowed(board, s, player, e as EdgeId);
        assert(crate::policy::free_road_choice_pred(board, s, player)(e));
    }
    if free_road_choice(board, s, player) is Some {
        let e = free_road_choice(board, s, player)->0;
        assert(free_road_allowed(board, s, player, e as EdgeId));
    }
}

/// On open play, ending road building for want of an edge changes neither the move nor its outcome.
pub proof fn lemma_cleared_step(
    board: Board,
    old: State,
    new: State,
    old_roads: RoadState,
    new_roads: RoadState,
    old_army: ArmyState,
    new_army: ArmyState,
    state: u128,
    increment: u128,
    next: u128,
    result: StepResult,
)
    requires
        old.current_prompt == ActionPrompt::PlayTurn,
        old.is_road_building ==> free_road_choice(board, old, old.turn_player) is None,
        policy_step_done(
            board,
            policy_base(board, old),
            new,
            old_roads,
            new_roads,
            old_army,
            new_army,
            state,
            increment,
            next,
            result,
        ),
    ensures
        policy_step_done(board, old, new, old_roads, new_roads, old_army, new_army, state, increment, next, result),
        policy_line(board, old, new, old_roads, old_army, state, increment) == policy_line(
            board,
            policy_base(board, old),
            new,
            old_roads,
            old_army,
            state,
            increment,
        ),
{
    reveal(policy_step_done);
    reveal(policy_line);
    reveal(policy_move);
    let b = policy_base(board, old);
    assert(policy_base(board, b) == b);
    assert(policy_move(board, old, old_roads, old_army) == policy_move(board, b, old_roads, old_army));
}

/// What a game holds between two steps: the state, the standings and the generator's state.
pub struct Snapshot {
    pub state: State,
    pub roads: RoadState,
    pub army: ArmyState,
    pub rng: u128,
}

/// The snapshot of the exec values.
pub open spec fn snapshot_of(state: State, roads: RoadState, army: ArmyState, rng: u128) -> Snapshot {
    Snapshot { state, roads, army, rng }
}

/// The start of a game from `seed` on generator stream `stream`: the deck shuffled by the seeded generator,
/// no standings yet, and the generator where the shuffle left it.
#[verifier::opaque]
pub open spec fn game_start(board: Board, seed: u64, stream: u64, snap: Snapshot) -> bool {
    let (deck, after) = shuffled(ordered_deck(), seeded_state(seed, stream), 1);
    &&& snap.state.is_initial(deck, board.desert_tile)
    &&& snap.rng == after
    &&& snap.roads.lengths_view() == Seq::new(PLAYER_COUNT as nat, |i: int| 0u8)
    &&& snap.roads.owner_view() is None
    &&& snap.roads.length_view() == 0
    &&& snap.army.owner_view() is None
    &&& snap.army.size_view() == 0
}

/// The game takes another step from `snap`: the turn limit is not reached and the state is in range.
#[verifier::opaque]
pub open spec fn may_step(snap: Snapshot, max_turns: u16) -> bool {
    snap.state.num_turns < max_turns && step_ready(snap.state)
}

/// After a step from `before` that ended in `result`, the game goes on from `after`: the step was legal,
/// the state is in range, nobody has won, and the step lowered the game's measure.
#[verifier::opaque]
pub open spec fn goes_on(before: Snapshot, after: Snapshot, result: StepResult, max_turns: u16) -> bool {
    &&& result != StepResult::Illegal
    &&& step_ready(after.state)
    &&& spec_first_winner(points_seq(after.state, after.roads, after.army)) is None
    &&& measure_lower(step_measure(after.state, max_turns), step_measure(before.state, max_turns))
}

/// Step `k` of a game: the built-in policy takes `trace[k]` to `trace[k + 1]`, ending in `results[k]` with
/// log line `lines[k]`.
pub open spec fn step_taken(
    board: Board,
    trace: Seq<Snapshot>,
    results: Seq<StepResult>,
    lines: Seq<Option<Seq<char>>>,
    k: int,
) -> bool {
    let (a, b) = (trace[k], trace[k + 1]);
    &&& policy_step_done(board, a.state, b.state, a.roads, b.roads, a.army, b.army, a.rng, 1, b.rng, results[k])
    &&& lines[k] == policy_line(board, a.state, b.state, a.roads, a.army, a.rng, 1)
}

/// A whole game of the built-in policy from `seed` on stream `stream` with at most `max_turns` turns: the
/// snapshots before and after each step, and each step's result and log line. Every step starts where the game
/// may step, every step but the last goes on, and the game stops after the last.
pub open spec fn game_run(
    board: Board,
    seed: u64,
    stream: u64,
    max_turns: u16,
    trace: Seq<Snapshot>,
    results: Seq<StepResult>,
    lines: Seq<Option<Seq<char>>>,
) -> bool {
    let n = results.len() as int;
    &&& board.is_standard()
    &&& trace.len() == n + 1
    &&& lines.len() == n
    &&& game_start(board, seed, stream, trace[0])
    &&& forall|k: int| 0 <= k < n ==> may_step(#[trigger] trace[k], max_turns) && step_taken(board, trace, results, lines, k)
    &&& forall|k: int| 0 <= k < n - 1 ==> goes_on(#[trigger] trace[k], trace[k + 1], results[k], max_turns)
    &&& (n == 0 || goes_on(trace[n - 1], trace[n], results[n - 1], max_turns)) ==> !may_step(trace[n], max_turns)
}

/// How many of `results` are `r`.
pub open spec fn count_of(results: Seq<StepResult>, r: StepResult) -> nat
    decreases results.len(),
{
    if results.len() == 0 {
        0
    } else {
        count_of(results.drop_last(), r) + if results.last() == r { 1nat } else { 0nat }
    }
}

/// The log lines that steps gave, in order.
pub open spec fn kept(lines: Seq<Option<Seq<char>>>) -> Seq<Seq<char>>
    decreases lines.len(),
{
    if lines.len() == 0 {
        Seq::empty()
    } else {
        match lines.last() {
            Some(line) => kept(lines.drop_last()).push(line),
            None => kept(lines.drop_last()),
        }
    }
}

/// Seat `w` is credited with the win on `s`: the first seat with ten points, else the first seat with the most
/// points; seat 0 on a state whose ids or victory cards are out of range.
pub open spec fn credited(s: State, roads: RoadState, army: ArmyState, w: int) -> bool {
    &&& 0 <= w < PLAYER_COUNT
    &&& !(s.wf() && victory_cards_bounded(s)) ==> w == 0
    &&& s.wf() && victory_cards_bounded(s) ==> match spec_first_winner(points_seq(s, roads, army)) {
        Some(x) => w == x,
        None => forall|q: int| 0 <= q < PLAYER_COUNT ==> {
            &&& #[trigger] total_points(s, roads, army, q) <= total_points(s, roads, army, w)
            &&& q < w ==> total_points(s, roads, army, q) < total_points(s, roads, army, w)
        },
    }
}

/// The stats of one game: one game, its ended turns, its refused steps, and one win for the credited seat.
pub open spec fn game_stats(stats: Stats, trace: Seq<Snapshot>, results: Seq<StepResult>) -> bool {
    let last = trace.last();
    &&& stats.games == 1
    &&& stats.turns == count_of(results, StepResult::EndTurn)
    &&& stats.illegal_actions == count_of(results, StepResult::Illegal)
    &&& exists|w: int|
        credited(last.state, last.roads, last.army, w) && forall|p: int|
            0 <= p < PLAYER_COUNT ==> #[trigger] stats.wins@[p] == if p == w { 1u64 } else { 0u64 }
}

/// `stats` and `log` are those of a game of the built-in policy from `seed` on stream `stream` with at most
/// `max_turns` turns.
pub open spec fn game_played(seed: u64, stream: u64, max_turns: u16, stats: Stats, log: Seq<Seq<char>>) -> bool {
    exists|board: Board, trace: Seq<Snapshot>, results: Seq<StepResult>, lines: Seq<Option<Seq<char>>>|
        {
            &&& game_run(board, seed, stream, max_turns, trace, results, lines)
            &&& game_stats(stats, trace, results)
            &&& log == kept(lines)
        }
}

/// The text of each log line.
pub open spec fn texts(log: Seq<String>) -> Seq<Seq<char>> {
    log.map_values(|line: String| line@)
}

/// Counter `c` summed over games.
pub open spec fn sum_counter(games: Seq<Stats>, c: int) -> int
    decreases games.len(),
{
    if games.len() == 0 {
        0
    } else {
        sum_counter(games.drop_last(), c) + counter(games.last(), c)
    }
}

/// `stats` are the stats of a game of the built-in policy from `seed` on stream `stream` with at most
/// `max_turns` turns.
pub open spec fn stats_played(seed: u64, stream: u64, max_turns: u16, stats: Stats) -> bool {
    exists|log: Seq<Seq<char>>| #[trigger] game_played(seed, stream, max_turns, stats, log)
}

/// `log` is the log of a game of the built-in policy from `seed` on stream `stream` with at most `max_turns`
/// turns.
pub open spec fn log_played(seed: u64, stream: u64, max_turns: u16, log: Seq<Seq<char>>) -> bool {
    exists|stats: Stats| #[trigger] game_played(seed, stream, max_turns, stats, log)
}

/// `games` are the stats of one game of the built-in policy per seed of `seeds`, each on stream 0 with at most
/// `max_turns` turns.
pub open spec fn games_played(seeds: Seq<u64>, max_turns: u16, games: Seq<Stats>) -> bool {
    &&& games.len() == seeds.len()
    &&& forall|i: int| 0 <= i < games.len() ==> stats_played(seeds[i], 0, max_turns, #[trigger] games[i])
}

/// Splitting the games in two splits every counter's sum: the stats of a run over `first` then `second`
/// are those of the two runs merged.
pub proof fn lemma_sum_counter_split(first: Seq<Stats>, second: Seq<Stats>, c: int)
    ensures
        sum_counter(first + second, c) == sum_counter(first, c) + sum_counter(second, c),
    decreases second.len(),
{
    if second.len() == 0 {
        assert(first + second =~= first);
    } else {
        lemma_sum_counter_split(first, second.drop_last(), c);
        assert((first + second).drop_last() =~= first + second.drop_last());
        assert((first + second).last() == second.last());
    }
}

/// Runs over two lists of seeds make a run over the two lists joined, whose counters are the sums of theirs:
/// the stats of the whole are the two parts' stats merged.
pub proof fn lemma_games_played_split(
    first_seeds: Seq<u64>,
    second_seeds: Seq<u64>,
    max_turns: u16,
    first: Seq<Stats>,
    second: Seq<Stats>,
)
    requires
        games_played(first_seeds, max_turns, first),
        games_played(second_seeds, max_turns, second),
    ensures
        games_played(first_seeds + second_seeds, max_turns, first + second),
        forall|c: int| #[trigger] sum_counter(first + second, c) == sum_counter(first, c) + sum_counter(second, c),
{
    let seeds = first_seeds + second_seeds;
    let games = first + second;
    assert forall|i: int| 0 <= i < games.len() implies stats_played(seeds[i], 0, max_turns, #[trigger] games[i]) by {
        if i < first.len() {
            assert(games[i] == first[i]);
            assert(seeds[i] == first_seeds[i]);
        } else {
            assert(games[i] == second[i - first.len()]);
            assert(seeds[i] == second_seeds[i - first.len()]);
        }
    }
    assert forall|c: int| #[trigger] sum_counter(first + second, c) == sum_counter(first, c) + sum_counter(second, c) by {
        lemma_sum_counter_split(first, second, c);
    }
}

} // verus!
