use vstd::prelude::*;

use crate::board::Board;
use crate::building::{apply_build_city, apply_build_road, apply_build_settlement, apply_initial_road, apply_initial_settlement};
use crate::engine::{
    apply_accept_trade, apply_cancel_trade, apply_confirm_trade, apply_discard, apply_end_turn, apply_knight,
    apply_maritime_trade, apply_monopoly, apply_move_robber, apply_offer_trade, apply_reject_trade, apply_road_building,
    apply_roll, apply_year_of_plenty, buy_dev_card, can_accept_trade, can_buy_dev_card, dev_counts_below_max, hand_at,
    resource_total, resources_bounded, spec_first_acceptee, totals_kept, trade_covered, ArmyState, RoadState, StepResult,
};
use crate::log_format::{
    decimal_string, format_confirm_trade_payload, format_counts, format_dev_card, format_maritime_payload,
    format_resource, format_robber_payload, format_trade_payload, format_year_of_plenty_payload, log_entry,
};
use crate::playout::{
    credited, dev_kind, discarded, lemma_act_step, lemma_cleared_step, lemma_free_road_choice_exists, lemma_offer_step,
    lemma_opening_step, lemma_still_step, line_of, move_line, policy_base, policy_line, policy_move, policy_step_done,
    PolicyMove,
};
use crate::policy::{dev_play_choice, domestic_choice};
use crate::value_player::{free_road_tally, value_action_done, ValueAction, ValueActionKind};
use crate::log_format::log_line;
use crate::policy::{
    choose_build_city, choose_build_road, choose_build_settlement, choose_dev_play, choose_discard,
    choose_domestic_trade, choose_free_road, choose_initial_road, choose_initial_settlement, choose_maritime_trade,
    count_total_of, lemma_first_resource_holds, lemma_first_where_holds, DevPayload,
};
use crate::rng::{roll_die, Pcg64};
use crate::roads::components_have_room;
use crate::robber::{choose_robber_move, dev_hands_small};
use crate::rules::{CITY_COST, ROAD_COST, SETTLEMENT_COST};
use crate::scoring::{check_winner, points_seq, select_winner, spec_first_winner, total_points, victory_cards_bounded};
use crate::state::{is_owner, is_player, DevDeck, State, MAX_ROAD_COMPONENTS};
use crate::types::{dev_card_index, PlayerId};
use crate::types::{
    resource_index, ActionPrompt, BuildingLevel, DevCard, DEV_CARD_COUNT, EDGE_COUNT, INVALID_NODE, NODE_COUNT, NO_PLAYER, PLAYER_COUNT,
    RESOURCE_COUNT, TILE_COUNT,
};

verus! {

/// No hand holds more than 511 cards, so half a hand fits a byte.
pub open spec fn hands_fit(s: State) -> bool {
    forall|p: int| 0 <= p < PLAYER_COUNT ==> #[trigger] count_total_of(s.player_resources@[p]) <= 511
}

/// While the offering player decides on the acceptances, every player who accepted holds what the trade asks
/// and the offering player holds what it offers.
pub open spec fn trade_ok(s: State) -> bool {
    s.current_prompt == ActionPrompt::DecideAcceptees ==> forall|p: int|
        0 <= p < PLAYER_COUNT && #[trigger] s.acceptees@[p] ==> trade_covered(s, p as u8)
}

/// The state lies in the range that every step of the game is proved for: ids in range, at most 127 cards of
/// a resource in play, hands that fit a byte when halved, development card counts of at most 25 in hand and
/// below 255 played, room for two more road networks per player, a covered trade, and a turn counter below its
/// limit.
pub open spec fn step_ready(s: State) -> bool {
    &&& s.wf()
    &&& resources_bounded(s)
    &&& hands_fit(s)
    &&& dev_counts_below_max(s)
    &&& dev_hands_small(s)
    &&& components_have_room(s)
    &&& trade_ok(s)
    &&& s.num_turns < u32::MAX
}


fn ids_in_range(state: &State) -> (ok: bool)
    ensures
        ok == state.wf(),
{
    if state.turn_player as usize >= PLAYER_COUNT || state.active_player as usize >= PLAYER_COUNT
        || state.trade_offering_player as usize >= PLAYER_COUNT || state.robber_tile as usize >= TILE_COUNT {
        return false;
    }
    let mut e: usize = 0;
    while e < EDGE_COUNT
        invariant
            e <= EDGE_COUNT,
            forall|k: int| 0 <= k < e ==> is_owner(#[trigger] state.edge_owner@[k]),
        decreases EDGE_COUNT - e,
    {
        let owner = state.edge_owner[e];
        if owner != NO_PLAYER && owner as usize >= PLAYER_COUNT {
            return false;
        }
        e = e + 1;
    }
    let mut n: usize = 0;
    while n < NODE_COUNT
        invariant
            n <= NODE_COUNT,
            forall|k: int| 0 <= k < n ==> is_owner(#[trigger] state.node_owner@[k]),
        decreases NODE_COUNT - n,
    {
        let owner = state.node_owner[n];
        if owner != NO_PLAYER && owner as usize >= PLAYER_COUNT {
            return false;
        }
        n = n + 1;
    }
    let mut p: usize = 0;
    while p < PLAYER_COUNT
        invariant
            p <= PLAYER_COUNT,
            forall|k: int|
                0 <= k < p ==> {
                    let m = #[trigger] state.last_initial_settlement@[k];
                    m == INVALID_NODE || (m as int) < NODE_COUNT
                },
        decreases PLAYER_COUNT - p,
    {
        let node = state.last_initial_settlement[p];
        if node != INVALID_NODE && node as usize >= NODE_COUNT {
            return false;
        }
        p = p + 1;
    }
    true
}

fn cards_in_range(state: &State) -> (ok: bool)
    ensures
        ok == (resources_bounded(*state) && hands_fit(*state)),
{
    let mut r: usize = 0;
    while r < RESOURCE_COUNT
        invariant
            r <= RESOURCE_COUNT,
            forall|k: int| 0 <= k < r ==> #[trigger] resource_total(*state, k) <= 127,
        decreases RESOURCE_COUNT - r,
    {
        let total: u32 = state.player_resources[0][r] as u32 + state.player_resources[1][r] as u32
            + state.player_resources[2][r] as u32 + state.player_resources[3][r] as u32 + state.bank_resources[r] as u32;
        if total > 127 {
            proof {
                assert(resource_total(*state, r as int) > 127);
            }
            return false;
        }
        r = r + 1;
    }
    let mut p: usize = 0;
    while p < PLAYER_COUNT
        invariant
            p <= PLAYER_COUNT,
            resources_bounded(*state),
            forall|k: int| 0 <= k < p ==> #[trigger] count_total_of(state.player_resources@[k]) <= 511,
        decreases PLAYER_COUNT - p,
    {
        let hand = &state.player_resources[p];
        let total: u32 = hand[0] as u32 + hand[1] as u32 + hand[2] as u32 + hand[3] as u32 + hand[4] as u32;
        if total > 511 {
            proof {
                assert(count_total_of(state.player_resources@[p as int]) > 511);
            }
            return false;
        }
        p = p + 1;
    }
    true
}

fn dev_cards_in_range(state: &State) -> (ok: bool)
    ensures
        ok == (dev_counts_below_max(*state) && dev_hands_small(*state)),
{
    let mut p: usize = 0;
    while p < PLAYER_COUNT
        invariant
            p <= PLAYER_COUNT,
            forall|q: int, c: int|
                0 <= q < p && 0 <= c < DEV_CARD_COUNT ==> {
                    &&& #[trigger] state.dev_cards_in_hand@[q]@[c] <= 25
                    &&& state.dev_cards_played@[q]@[c] < 255
                },
        decreases PLAYER_COUNT - p,
    {
        let mut c: usize = 0;
        while c < DEV_CARD_COUNT
            invariant
                c <= DEV_CARD_COUNT,
                p < PLAYER_COUNT,
                forall|q: int, d: int|
                    (0 <= q < p && 0 <= d < DEV_CARD_COUNT) || (q == p && 0 <= d < c) ==> {
                        &&& #[trigger] state.dev_cards_in_hand@[q]@[d] <= 25
                        &&& state.dev_cards_played@[q]@[d] < 255
                    },
            decreases DEV_CARD_COUNT - c,
        {
            if state.dev_cards_in_hand[p][c] > 25 || state.dev_cards_played[p][c] == 255 {
                return false;
            }
            c = c + 1;
        }
        p = p + 1;
    }
    true
}

fn networks_have_room(state: &State) -> (ok: bool)
    ensures
        ok == components_have_room(*state),
{
    let mut p: usize = 0;
    while p < PLAYER_COUNT
        invariant
            p <= PLAYER_COUNT,
            forall|q: int| 0 <= q < p ==> #[trigger] state.road_components@[q]@.len() + 2 <= MAX_ROAD_COMPONENTS,
        decreases PLAYER_COUNT - p,
    {
        if state.road_components[p].len() > MAX_ROAD_COMPONENTS - 2 {
            return false;
        }
        p = p + 1;
    }
    true
}

fn trade_in_range(state: &State) -> (ok: bool)
    requires
        is_player(state.trade_offering_player),
    ensures
        ok == trade_ok(*state),
{
    if state.current_prompt != ActionPrompt::DecideAcceptees {
        return true;
    }
    let offering = state.trade_offering_player as usize;
    let mut k: usize = 0;
    while k < RESOURCE_COUNT
        invariant
            k <= RESOURCE_COUNT,
            offering == state.trade_offering_player,
            offering < PLAYER_COUNT,
            state.current_prompt == ActionPrompt::DecideAcceptees,
            forall|j: int| 0 <= j < k ==> #[trigger] hand_at(*state, offering as int, j) >= state.current_trade@[j],
        decreases RESOURCE_COUNT - k,
    {
        if state.player_resources[offering][k] < state.current_trade[k] {
            proof {
                assert(hand_at(*state, offering as int, k as int) < state.current_trade@[k as int]);
                assert forall|p: u8| !trade_covered(*state, p) by {
                    assert(hand_at(*state, state.trade_offering_player as int, k as int) < state.current_trade@[k as int]);
                }
            }
            return !any_accepted(state);
        }
        k = k + 1;
    }
    let mut p: usize = 0;
    while p < PLAYER_COUNT
        invariant
            p <= PLAYER_COUNT,
            forall|j: int| 0 <= j < RESOURCE_COUNT ==> #[trigger] hand_at(*state, state.trade_offering_player as int, j)
                >= state.current_trade@[j],
            forall|q: int| 0 <= q < p && #[trigger] state.acceptees@[q] ==> trade_covered(*state, q as u8),
            state.current_prompt == ActionPrompt::DecideAcceptees,
        decreases PLAYER_COUNT - p,
    {
        if state.acceptees[p] {
            let ok = crate::engine::can_accept_trade(state, p as u8);
            if !ok {
                proof {
                    assert(state.acceptees@[p as int]);
                    assert(!trade_covered(*state, (p as int) as u8));
                }
                return false;
            }
        }
        p = p + 1;
    }
    true
}

fn any_accepted(state: &State) -> (any: bool)
    ensures
        any == exists|p: int| 0 <= p < PLAYER_COUNT && #[trigger] state.acceptees@[p],
{
    let mut p: usize = 0;
    while p < PLAYER_COUNT
        invariant
            p <= PLAYER_COUNT,
            forall|q: int| 0 <= q < p ==> !#[trigger] state.acceptees@[q],
        decreases PLAYER_COUNT - p,
    {
        if state.acceptees[p] {
            return true;
        }
        p = p + 1;
    }
    false
}

/// Whether the state is in the range every step is proved for.
pub fn check_step_ready(state: &State) -> (ready: bool)
    ensures
        ready == step_ready(*state),
{
    if !ids_in_range(state) {
        return false;
    }
    if !cards_in_range(state) {
        return false;
    }
    if !dev_cards_in_range(state) {
        return false;
    }
    if !networks_have_room(state) {
        return false;
    }
    if !trade_in_range(state) {
        return false;
    }
    state.num_turns < u32::MAX
}


/// Edges without a road among the first `n`.
pub open spec fn open_edges_upto(s: State, n: int) -> nat
    decreases n,
{
    if n <= 0 {
        0
    } else {
        open_edges_upto(s, n - 1) + if s.edge_owner@[n - 1] == NO_PLAYER {
            1nat
        } else {
            0nat
        }
    }
}

/// Building room among the first `n` nodes: two for an empty node, one for a settlement.
pub open spec fn node_room_upto(s: State, n: int) -> nat
    decreases n,
{
    if n <= 0 {
        0
    } else {
        node_room_upto(s, n - 1) + match s.node_level@[n - 1] {
            BuildingLevel::Empty => 2nat,
            BuildingLevel::Settlement => 1nat,
            BuildingLevel::City => 0nat,
        }
    }
}

/// How much can still be built: open edges, and room on the nodes.
pub open spec fn build_room(s: State) -> nat {
    open_edges_upto(s, EDGE_COUNT as int) + node_room_upto(s, NODE_COUNT as int)
}

/// The turns left before the limit.
pub open spec fn turns_left(s: State, max_turns: u16) -> nat {
    if s.num_turns < max_turns {
        (max_turns - s.num_turns) as nat
    } else {
        0
    }
}

/// One while the turn player has not rolled.
pub open spec fn roll_pending(s: State) -> nat {
    if s.has_rolled@[s.turn_player as int] {
        0
    } else {
        1
    }
}

/// One while the turn player has not played a development card.
pub open spec fn dev_play_pending(s: State) -> nat {
    if s.has_played_dev@[s.turn_player as int] {
        0
    } else {
        1
    }
}

/// One while the turn player has not offered a trade this turn.
pub open spec fn offer_pending(s: State) -> nat {
    if s.trade_offered_this_turn {
        0
    } else {
        1
    }
}

/// How far the current prompt is from open play: answers to a trade and discards count down by seat.
pub open spec fn prompt_rank(s: State) -> nat {
    match s.current_prompt {
        ActionPrompt::DecideTrade => (10 - s.active_player) as nat,
        ActionPrompt::Discard => (20 - s.active_player) as nat,
        ActionPrompt::MoveRobber => 2,
        ActionPrompt::DecideAcceptees => 1,
        _ => 0,
    }
}

/// The number of cards in the turn player's hand.
pub open spec fn turn_hand(s: State) -> nat {
    count_total_of(s.player_resources@[s.turn_player as int]) as nat
}

/// The step measure, in order: turns left, pending roll, pending development card, building room, deck size,
/// pending offer, prompt rank, the turn player's cards. Every step of a game lowers it.
pub open spec fn step_measure(s: State, max_turns: u16) -> Seq<nat> {
    seq![
        turns_left(s, max_turns),
        roll_pending(s),
        dev_play_pending(s),
        build_room(s),
        s.dev_deck@.len(),
        offer_pending(s),
        prompt_rank(s),
        turn_hand(s),
    ]
}

/// `a` comes before `b` in the lexicographic order.
pub open spec fn lex_before(a: Seq<nat>, b: Seq<nat>) -> bool {
    exists|i: int|
        0 <= i < a.len() && i < b.len() && #[trigger] a[i] < b[i] && forall|j: int| 0 <= j < i ==> a[j] == b[j]
}

proof fn lemma_open_edges_bound(s: State, n: int)
    requires
        0 <= n,
    ensures
        open_edges_upto(s, n) <= n,
    decreases n,
{
    if n > 0 {
        lemma_open_edges_bound(s, n - 1);
    }
}

proof fn lemma_node_room_bound(s: State, n: int)
    requires
        0 <= n,
    ensures
        node_room_upto(s, n) <= 2 * n,
    decreases n,
{
    if n > 0 {
        lemma_node_room_bound(s, n - 1);
    }
}

pub(crate) fn measure_now(state: &State, max_turns: u16) -> (m: [u64; 8])
    requires
        state.wf(),
    ensures
        forall|i: int| 0 <= i < 8 ==> #[trigger] m@[i] as nat == step_measure(*state, max_turns)[i],
{
    let tp = state.turn_player as usize;
    let left: u64 = if state.num_turns < max_turns as u32 {
        (max_turns as u32 - state.num_turns) as u64
    } else {
        0
    };
    let rolled: u64 = if state.has_rolled[tp] { 0 } else { 1 };
    let played: u64 = if state.has_played_dev[tp] { 0 } else { 1 };
    let mut open: u64 = 0;
    let mut e: usize = 0;
    while e < EDGE_COUNT
        invariant
            e <= EDGE_COUNT,
            open == open_edges_upto(*state, e as int),
        decreases EDGE_COUNT - e,
    {
        proof {
            lemma_open_edges_bound(*state, e as int);
        }
        if state.edge_owner[e] == NO_PLAYER {
            open = open + 1;
        }
        e = e + 1;
    }
    let mut room: u64 = 0;
    let mut n: usize = 0;
    while n < NODE_COUNT
        invariant
            n <= NODE_COUNT,
            room == node_room_upto(*state, n as int),
        decreases NODE_COUNT - n,
    {
        proof {
            lemma_node_room_bound(*state, n as int);
        }
        room = room + match state.node_level[n] {
            BuildingLevel::Empty => 2,
            BuildingLevel::Settlement => 1,
            BuildingLevel::City => 0,
        };
        n = n + 1;
    }
    proof {
        lemma_open_edges_bound(*state, EDGE_COUNT as int);
        lemma_node_room_bound(*state, NODE_COUNT as int);
    }
    let deck: u64 = if state.dev_deck.is_empty() { 0 } else { deck_size(&state.dev_deck) };
    let offered: u64 = if state.trade_offered_this_turn { 0 } else { 1 };
    let rank: u64 = match state.current_prompt {
        ActionPrompt::DecideTrade => (10 - state.active_player) as u64,
        ActionPrompt::Discard => (20 - state.active_player) as u64,
        ActionPrompt::MoveRobber => 2,
        ActionPrompt::DecideAcceptees => 1,
        _ => 0,
    };
    let hand = &state.player_resources[tp];
    let cards: u64 = hand[0] as u64 + hand[1] as u64 + hand[2] as u64 + hand[3] as u64 + hand[4] as u64;
    let m = [left, rolled, played, open + room, deck, offered, rank, cards];
    proof {
        assert forall|i: int| 0 <= i < 8 implies #[trigger] m@[i] as nat == step_measure(*state, max_turns)[i] by {
        }
    }
    m
}

fn deck_size(deck: &DevDeck) -> (size: u64)
    ensures
        size == deck@.len(),
{
    let mut copy = *deck;
    let mut size: u64 = 0;
    copy.check_wf();
    proof {
        copy.lemma_size();
    }
    while !copy.is_empty()
        invariant
            copy.wf(),
            size + copy@.len() == deck@.len(),
            deck@.len() <= 25,
        decreases copy@.len(),
    {
        copy.pop();
        size = size + 1;
    }
    size
}

/// Whether `after` comes before `before` in the lexicographic order.
fn lex_decreased(before: &[u64; 8], after: &[u64; 8]) -> (dec: bool)
    ensures
        dec == lex_before(Seq::new(8, |i: int| after@[i] as nat), Seq::new(8, |i: int| before@[i] as nat)),
{
    let ghost a = Seq::new(8, |k: int| after@[k] as nat);
    let ghost b = Seq::new(8, |k: int| before@[k] as nat);
    let mut i: usize = 0;
    while i < 8
        invariant
            i <= 8,
            a == Seq::new(8, |k: int| after@[k] as nat),
            b == Seq::new(8, |k: int| before@[k] as nat),
            forall|j: int| 0 <= j < i ==> after@[j] == before@[j],
        decreases 8 - i,
    {
        if after[i] < before[i] {
            proof {
                assert(a[i as int] < b[i as int] && forall|j: int| 0 <= j < i ==> a[j] == b[j]);
            }
            return true;
        }
        if after[i] > before[i] {
            proof {
                if lex_before(a, b) {
                    let k = choose|k: int| 0 <= k < a.len() && k < b.len() && #[trigger] a[k] < b[k] && forall|j: int| 0 <= j < k ==> a[j] == b[j];
                    if k < i {
                        assert(after@[k] == before@[k]);
                    } else if k > i {
                        assert(a[i as int] == b[i as int]);
                    }
                }
            }
            return false;
        }
        i = i + 1;
    }
    proof {
        if lex_before(a, b) {
            let k = choose|k: int| 0 <= k < a.len() && k < b.len() && #[trigger] a[k] < b[k] && forall|j: int| 0 <= j < k ==> a[j] == b[j];
            assert(after@[k] == before@[k]);
        }
    }
    false
}


/// A log entry when logging is on.
fn entry_if(with_log: bool, kind: &str, payload: Option<String>) -> (entry: Option<String>)
    ensures
        with_log <==> entry is Some,
        entry matches Some(e) ==> e@ == log_line(kind@, line_of(payload)),
{
    if with_log {
        Some(log_entry(kind, payload))
    } else {
        None
    }
}

/// Plays the chosen development card and gives its log entry.
fn apply_dev_play(
    state: &mut State,
    army_state: &mut ArmyState,
    card: DevCard,
    payload: DevPayload,
    with_log: bool,
    Ghost(board): Ghost<Board>,
    Ghost(roads): Ghost<RoadState>,
    Ghost(rng_state): Ghost<u128>,
    Ghost(increment): Ghost<u128>,
) -> (entry: Option<String>)
    requires
        old(state).wf(),
        resources_bounded(*old(state)),
        dev_counts_below_max(*old(state)),
        old(army_state).wf(),
        old(state).current_prompt == ActionPrompt::PlayTurn,
    ensures
        final(army_state).wf(),
        final(state).num_turns == old(state).num_turns,
        !with_log ==> entry is None,
        totals_kept(*final(state), *old(state)),
        match dev_kind(card, payload) {
            Some(kind) => {
                let action = ValueAction { player: old(state).turn_player, kind };
                &&& value_action_done(
                    board,
                    *final(state),
                    *old(state),
                    roads,
                    roads,
                    *final(army_state),
                    *old(army_state),
                    action,
                    rng_state,
                    increment,
                )
                &&& with_log ==> line_of(entry) == Some(move_line(*old(state), *final(state), action, rng_state, increment))
            },
            None => *final(state) == *old(state) && *final(army_state) == *old(army_state) && entry is None,
        },
{
    match card {
        DevCard::YearOfPlenty => {
            if let DevPayload::YearOfPlenty(first, second) = payload {
                apply_year_of_plenty(state, first, second);
                let text = if with_log { Some(format_year_of_plenty_payload(first, second)) } else { None };
                return entry_if(with_log, "PLAY_YEAR_OF_PLENTY", text);
            }
            None
        },
        DevCard::Monopoly => {
            if let DevPayload::Monopoly(resource) = payload {
                apply_monopoly(state, resource);
                let text = if with_log { Some(format_resource(resource)) } else { None };
                return entry_if(with_log, "PLAY_MONOPOLY", text);
            }
            None
        },
        DevCard::Knight => {
            apply_knight(state, army_state);
            let entry = entry_if(with_log, "PLAY_KNIGHT", None);
            state.current_prompt = ActionPrompt::MoveRobber;
            state.is_moving_robber = true;
            entry
        },
        DevCard::RoadBuilding => {
            apply_road_building(state);
            entry_if(with_log, "PLAY_ROAD_BUILDING", None)
        },
        DevCard::VictoryPoint => None,
    }
}

/// One step of the turn player's open play: a free road while road building, a development card, the roll,
/// a city, a settlement, a road, a development card bought, a maritime trade, a trade offer, or the end of the
/// turn, the first that applies.
fn play_turn_step(board: &Board, state: &mut State, rng: &mut Pcg64, road_state: &mut RoadState, army_state: &mut ArmyState, with_log: bool) -> (step: (StepResult, Option<String>))
    requires
        board.wf(),
        step_ready(*old(state)),
        old(state).current_prompt == ActionPrompt::PlayTurn,
        old(road_state).wf(),
        old(army_state).wf(),
    ensures
        final(road_state).wf(),
        final(army_state).wf(),
        step.0 != StepResult::Illegal,
        step.0 == StepResult::EndTurn ==> final(state).num_turns == old(state).num_turns + 1,
        step.0 != StepResult::EndTurn ==> final(state).num_turns == old(state).num_turns,
        !with_log ==> step.1 is None,
        totals_kept(*final(state), *old(state)),
        policy_step_done(
            *board,
            *old(state),
            *final(state),
            *old(road_state),
            *final(road_state),
            *old(army_state),
            *final(army_state),
            old(rng).spec_state(),
            old(rng).spec_increment(),
            final(rng).spec_state(),
            step.0,
        ),
        final(rng).spec_increment() == old(rng).spec_increment(),
        with_log ==> line_of(step.1) == policy_line(
            *board,
            *old(state),
            *final(state),
            *old(road_state),
            *old(army_state),
            old(rng).spec_state(),
            old(rng).spec_increment(),
        ),
{
    let player = state.turn_player;
    let ghost s0 = *state;
    let ghost r0 = *road_state;
    let ghost a0 = *army_state;
    let ghost st = rng.spec_state();
    let ghost inc = rng.spec_increment();
    if state.is_road_building {
        proof {
            assert(resources_bounded(*state));
        }
        if let Some(edge) = choose_free_road(board, state, player) {
            proof {
                lemma_first_where_holds(crate::policy::free_road_choice_pred(*board, *state, player), EDGE_COUNT as int);
            }
            apply_build_road(board, state, road_state, player, edge, true);
            let ghost laid = *state;
            let text = if with_log { Some(decimal_string(edge as u64)) } else { None };
            let entry = entry_if(with_log, "BUILD_ROAD", text);
            state.free_roads_available = if state.free_roads_available > 0 { state.free_roads_available - 1 } else { 0 };
            let ghost counted = *state;
            if state.free_roads_available == 0 || choose_free_road(board, state, player).is_none() {
                state.is_road_building = false;
                state.free_roads_available = 0;
            }
            proof {
                lemma_free_road_choice_exists(*board, counted, player);
                assert(*state == free_road_tally(*board, laid, player));
                let a = ValueAction { player, kind: ValueActionKind::BuildRoad(edge) };
                assert(policy_move(*board, s0, r0, a0) == PolicyMove::Act(a)) by {
                    reveal(policy_move);
                }
                assert(policy_base(*board, s0) == s0);
                assert(value_action_done(*board, *state, s0, *road_state, r0, *army_state, a0, a, st, inc));
                lemma_act_step(*board, s0, *state, r0, *road_state, a0, *army_state, st, inc, st, a);
            }
            return (StepResult::Other, entry);
        }
        state.is_road_building = false;
        state.free_roads_available = 0;
    }
    proof {
        assert(*state == policy_base(*board, s0));
    }
    proof {
        let o = *old(state);
        assert(*state == (State { is_road_building: state.is_road_building, free_roads_available: state.free_roads_available, ..o }));
        assert forall|r: int| 0 <= r < RESOURCE_COUNT implies #[trigger] resource_total(*state, r) == resource_total(o, r) by {
        }
        assert(state.player_resources == o.player_resources);
        assert(state.road_components == o.road_components);
        assert(state.dev_cards_in_hand == o.dev_cards_in_hand);
        assert(state.dev_cards_played == o.dev_cards_played);
        assert(state.acceptees == o.acceptees);
        assert(state.current_trade == o.current_trade);
        assert(resources_bounded(*state));
        assert(hands_fit(*state));
        assert(dev_counts_below_max(*state));
        assert(dev_hands_small(*state));
        assert(components_have_room(*state));
        lemma_trade_ok_same(*state, o);
        assert(trade_ok(*state));
        assert(step_ready(*state));
    }
    let step = open_play_step(board, state, rng, road_state, army_state, with_log);
    proof {
        lemma_cleared_step(*board, s0, *state, r0, *road_state, a0, *army_state, st, inc, rng.spec_state(), step.0);
    }
    step
}

/// Open play once road building is over: a development card, the roll, or what `build_or_trade_step` does.
#[verifier::spinoff_prover]
#[verifier::rlimit(80)]
fn open_play_step(board: &Board, state: &mut State, rng: &mut Pcg64, road_state: &mut RoadState, army_state: &mut ArmyState, with_log: bool) -> (step: (StepResult, Option<String>))
    requires
        board.wf(),
        step_ready(*old(state)),
        old(state).current_prompt == ActionPrompt::PlayTurn,
        !old(state).is_road_building,
        old(road_state).wf(),
        old(army_state).wf(),
    ensures
        final(road_state).wf(),
        final(army_state).wf(),
        step.0 != StepResult::Illegal,
        step.0 == StepResult::EndTurn ==> final(state).num_turns == old(state).num_turns + 1,
        step.0 != StepResult::EndTurn ==> final(state).num_turns == old(state).num_turns,
        !with_log ==> step.1 is None,
        totals_kept(*final(state), *old(state)),
        policy_step_done(
            *board,
            *old(state),
            *final(state),
            *old(road_state),
            *final(road_state),
            *old(army_state),
            *final(army_state),
            old(rng).spec_state(),
            old(rng).spec_increment(),
            final(rng).spec_state(),
            step.0,
        ),
        final(rng).spec_increment() == old(rng).spec_increment(),
        with_log ==> line_of(step.1) == policy_line(
            *board,
            *old(state),
            *final(state),
            *old(road_state),
            *old(army_state),
            old(rng).spec_state(),
            old(rng).spec_increment(),
        ),
{
    let player = state.turn_player;
    let ghost s0 = *state;
    let ghost r0 = *road_state;
    let ghost a0 = *army_state;
    let ghost st = rng.spec_state();
    let ghost inc = rng.spec_increment();
    if let Some((card, payload)) = choose_dev_play(board, state) {
        let entry = apply_dev_play(
            state,
            army_state,
            card,
            payload,
            with_log,
            Ghost(*board),
            Ghost(*road_state),
            Ghost(rng.spec_state()),
            Ghost(rng.spec_increment()),
        );
        proof {
            match dev_kind(card, payload) {
                Some(kind) => {
                    let a = ValueAction { player, kind };
                    assert(policy_move(*board, s0, r0, a0) == PolicyMove::Act(a)) by {
                        reveal(policy_move);
                    }
                    lemma_act_step(*board, s0, *state, r0, *road_state, a0, *army_state, st, inc, rng.spec_state(), a);
                },
                None => {
                    assert(policy_move(*board, s0, r0, a0) is Pass) by {
                        reveal(policy_move);
                    }
                    lemma_still_step(*board, s0, *state, r0, a0, st, inc, StepResult::Other);
                },
            }
        }
        return (StepResult::Other, entry);
    }
    if !state.has_rolled[player as usize] {
        let first = roll_die(rng) as u32;
        let second = roll_die(rng) as u32;
        apply_roll(board, state, (first, second));
        let text = if with_log {
            let mut t = decimal_string(first as u64);
            proof {
                reveal_strlit(",");
            }
            t.append(",");
            let b = decimal_string(second as u64);
            t.append(b.as_str());
            Some(t)
        } else {
            None
        };
        let entry = entry_if(with_log, "ROLL", text);
        proof {
            let a = ValueAction { player, kind: ValueActionKind::Roll };
            assert(policy_move(*board, s0, r0, a0) == PolicyMove::Act(a)) by {
                reveal(policy_move);
            }
            lemma_act_step(*board, s0, *state, r0, *road_state, a0, *army_state, st, inc, rng.spec_state(), a);
        }
        return (StepResult::Other, entry);
    }
    build_or_trade_step(board, state, rng, road_state, army_state, with_log)
}

/// Open play after the roll with no development card to play: a city, a settlement, a road, a development
/// card bought, a maritime trade, a trade offer, or the end of the turn.
#[verifier::spinoff_prover]
#[verifier::rlimit(80)]
fn build_or_trade_step(board: &Board, state: &mut State, rng: &mut Pcg64, road_state: &mut RoadState, army_state: &mut ArmyState, with_log: bool) -> (step: (StepResult, Option<String>))
    requires
        board.wf(),
        step_ready(*old(state)),
        old(state).current_prompt == ActionPrompt::PlayTurn,
        !old(state).is_road_building,
        dev_play_choice(*board, *old(state)) is None,
        old(state).has_rolled@[old(state).turn_player as int],
        old(road_state).wf(),
        old(army_state).wf(),
    ensures
        final(road_state).wf(),
        final(army_state).wf(),
        step.0 != StepResult::Illegal,
        step.0 == StepResult::EndTurn ==> final(state).num_turns == old(state).num_turns + 1,
        step.0 != StepResult::EndTurn ==> final(state).num_turns == old(state).num_turns,
        !with_log ==> step.1 is None,
        totals_kept(*final(state), *old(state)),
        policy_step_done(
            *board,
            *old(state),
            *final(state),
            *old(road_state),
            *final(road_state),
            *old(army_state),
            *final(army_state),
            old(rng).spec_state(),
            old(rng).spec_increment(),
            final(rng).spec_state(),
            step.0,
        ),
        final(rng).spec_increment() == old(rng).spec_increment(),
        with_log ==> line_of(step.1) == policy_line(
            *board,
            *old(state),
            *final(state),
            *old(road_state),
            *old(army_state),
            old(rng).spec_state(),
            old(rng).spec_increment(),
        ),
{
    let player = state.turn_player;
    let ghost s0 = *state;
    let ghost r0 = *road_state;
    let ghost a0 = *army_state;
    let ghost st = rng.spec_state();
    let ghost inc = rng.spec_increment();
    if let Some(node) = choose_build_city(board, state, player) {
        proof {
            lemma_first_where_holds(crate::policy::city_choice_pred(*state, player), NODE_COUNT as int);
        }
        apply_build_city(board, state, player, node);
        let text = if with_log { Some(decimal_string(node as u64)) } else { None };
        let entry = entry_if(with_log, "BUILD_CITY", text);
        proof {
            let a = ValueAction { player, kind: ValueActionKind::BuildCity(node) };
            assert(policy_move(*board, s0, r0, a0) == PolicyMove::Act(a)) by {
                reveal(policy_move);
            }
            lemma_act_step(*board, s0, *state, r0, *road_state, a0, *army_state, st, inc, rng.spec_state(), a);
        }
        return (StepResult::Other, entry);
    }
    if let Some(node) = choose_build_settlement(board, state, player) {
        proof {
            lemma_first_where_holds(crate::policy::settlement_choice_pred(*board, *state, player), NODE_COUNT as int);
        }
        apply_build_settlement(board, state, road_state, player, node);
        let text = if with_log { Some(decimal_string(node as u64)) } else { None };
        let entry = entry_if(with_log, "BUILD_SETTLEMENT", text);
        proof {
            let a = ValueAction { player, kind: ValueActionKind::BuildSettlement(node) };
            assert(policy_move(*board, s0, r0, a0) == PolicyMove::Act(a)) by {
                reveal(policy_move);
            }
            lemma_act_step(*board, s0, *state, r0, *road_state, a0, *army_state, st, inc, rng.spec_state(), a);
        }
        return (StepResult::Other, entry);
    }
    if let Some(edge) = choose_build_road(board, state, player) {
        proof {
            lemma_first_where_holds(crate::policy::road_choice_pred(*board, *state, player), EDGE_COUNT as int);
        }
        apply_build_road(board, state, road_state, player, edge, false);
        let text = if with_log { Some(decimal_string(edge as u64)) } else { None };
        let entry = entry_if(with_log, "BUILD_ROAD", text);
        proof {
            let a = ValueAction { player, kind: ValueActionKind::BuildRoad(edge) };
            assert(policy_move(*board, s0, r0, a0) == PolicyMove::Act(a)) by {
                reveal(policy_move);
            }
            lemma_act_step(*board, s0, *state, r0, *road_state, a0, *army_state, st, inc, rng.spec_state(), a);
        }
        return (StepResult::Other, entry);
    }
    if can_buy_dev_card(state, player) {
        let card = buy_dev_card(state, player);
        let text = if with_log { Some(format_dev_card(card)) } else { None };
        let entry = entry_if(with_log, "BUY_DEV_CARD", text);
        proof {
            let a = ValueAction { player, kind: ValueActionKind::BuyDevCard };
            assert(policy_move(*board, s0, r0, a0) == PolicyMove::Act(a)) by {
                reveal(policy_move);
            }
            lemma_act_step(*board, s0, *state, r0, *road_state, a0, *army_state, st, inc, rng.spec_state(), a);
        }
        return (StepResult::Other, entry);
    }
    if let Some((offer, rate, ask)) = choose_maritime_trade(board, state, player) {
        proof {
            lemma_first_resource_holds(crate::policy::maritime_offer_ok(*board, *state, player));
            lemma_first_resource_holds(crate::policy::bank_has_other(*state, offer));
        }
        apply_maritime_trade(state, player, offer, rate, ask);
        let text = if with_log { Some(format_maritime_payload(offer, rate, ask)) } else { None };
        let entry = entry_if(with_log, "MARITIME_TRADE", text);
        proof {
            let a = ValueAction { player, kind: ValueActionKind::MaritimeTrade { offer, rate, ask } };
            assert(policy_move(*board, s0, r0, a0) == PolicyMove::Act(a)) by {
                reveal(policy_move);
            }
            lemma_act_step(*board, s0, *state, r0, *road_state, a0, *army_state, st, inc, rng.spec_state(), a);
        }
        return (StepResult::Other, entry);
    }
    if !state.trade_offered_this_turn {
        if let Some(trade) = choose_domestic_trade(state, player) {
            apply_offer_trade(state, player, &trade);
            let text = if with_log { Some(format_trade_payload(trade)) } else { None };
            let entry = entry_if(with_log, "OFFER_TRADE", text);
            proof {
                let (offer, ask) = domestic_choice(s0, player)->0;
                assert(policy_move(*board, s0, r0, a0) == PolicyMove::Offer(offer, ask)) by {
                    reveal(policy_move);
                }
                lemma_offer_step(*board, s0, *state, r0, a0, st, inc, offer, ask, trade);
            }
            return (StepResult::Other, entry);
        }
    }
    apply_end_turn(state, player);
    let entry = entry_if(with_log, "END_TURN", None);
    proof {
        let a = ValueAction { player, kind: ValueActionKind::EndTurn };
        assert(policy_move(*board, s0, r0, a0) == PolicyMove::Act(a)) by {
            reveal(policy_move);
        }
        lemma_act_step(*board, s0, *state, r0, *road_state, a0, *army_state, st, inc, rng.spec_state(), a);
    }
    (StepResult::EndTurn, entry)
}


/// Whether the trade is covered reads only the hands, the trade, the acceptances, the offering player and the prompt.
proof fn lemma_trade_ok_same(a: State, b: State)
    requires
        a.player_resources == b.player_resources,
        a.current_trade == b.current_trade,
        a.acceptees == b.acceptees,
        a.trade_offering_player == b.trade_offering_player,
        a.current_prompt == b.current_prompt,
    ensures
        trade_ok(a) == trade_ok(b),
{
    assert forall|p: u8| trade_covered(a, p) <==> trade_covered(b, p) by {
        if trade_covered(a, p) {
            assert forall|k: int| 0 <= k < RESOURCE_COUNT implies #[trigger] hand_at(b, b.trade_offering_player as int, k) >= b.current_trade@[k] by {
                assert(hand_at(a, a.trade_offering_player as int, k) >= a.current_trade@[k]);
            }
            assert forall|k: int| 0 <= k < RESOURCE_COUNT implies #[trigger] hand_at(b, p as int, k) >= b.current_trade@[RESOURCE_COUNT + k] by {
                assert(hand_at(a, p as int, k) >= a.current_trade@[RESOURCE_COUNT + k]);
            }
        }
        if trade_covered(b, p) {
            assert forall|k: int| 0 <= k < RESOURCE_COUNT implies #[trigger] hand_at(a, a.trade_offering_player as int, k) >= a.current_trade@[k] by {
                assert(hand_at(b, b.trade_offering_player as int, k) >= b.current_trade@[k]);
            }
            assert forall|k: int| 0 <= k < RESOURCE_COUNT implies #[trigger] hand_at(a, p as int, k) >= a.current_trade@[RESOURCE_COUNT + k] by {
                assert(hand_at(b, p as int, k) >= b.current_trade@[RESOURCE_COUNT + k]);
            }
        }
    }
}


/// One step of the game: the acting player answers the current prompt.
#[verifier::spinoff_prover]
#[verifier::rlimit(80)]
pub(crate) fn policy_step(board: &Board, state: &mut State, rng: &mut Pcg64, road_state: &mut RoadState, army_state: &mut ArmyState, with_log: bool) -> (step: (StepResult, Option<String>))
    requires
        board.wf(),
        step_ready(*old(state)),
        old(road_state).wf(),
        old(army_state).wf(),
    ensures
        final(road_state).wf(),
        final(army_state).wf(),
        step.0 == StepResult::Illegal ==> *final(state) == *old(state),
        step.0 == StepResult::EndTurn ==> final(state).num_turns == old(state).num_turns + 1,
        final(state).num_turns == old(state).num_turns || final(state).num_turns == old(state).num_turns + 1,
        !with_log ==> step.1 is None,
        totals_kept(*final(state), *old(state)),
        policy_step_done(
            *board,
            *old(state),
            *final(state),
            *old(road_state),
            *final(road_state),
            *old(army_state),
            *final(army_state),
            old(rng).spec_state(),
            old(rng).spec_increment(),
            final(rng).spec_state(),
            step.0,
        ),
        final(rng).spec_increment() == old(rng).spec_increment(),
        with_log ==> line_of(step.1) == policy_line(
            *board,
            *old(state),
            *final(state),
            *old(road_state),
            *old(army_state),
            old(rng).spec_state(),
            old(rng).spec_increment(),
        ),
{
    let ghost s0 = *state;
    let ghost r0 = *road_state;
    let ghost a0 = *army_state;
    let ghost st = rng.spec_state();
    let ghost inc = rng.spec_increment();
    let ap = state.active_player;
    match state.current_prompt {
        ActionPrompt::BuildInitialSettlement => {
            match choose_initial_settlement(board, state) {
                None => {
                    proof {
                        assert(policy_move(*board, s0, r0, a0) is Illegal) by {
                            reveal(policy_move);
                        }
                        lemma_still_step(*board, s0, s0, r0, a0, st, inc, StepResult::Illegal);
                    }
                    (StepResult::Illegal, None)
                },
                Some(node) => {
                    proof {
                        lemma_first_where_holds(crate::policy::initial_settlement_pred(*board, *state), NODE_COUNT as int);
                        assert(policy_move(*board, s0, r0, a0) == PolicyMove::OpeningSettlement(node)) by {
                            reveal(policy_move);
                        }
                    }
                    apply_initial_settlement(board, state, road_state, node);
                    let text = if with_log { Some(decimal_string(node as u64)) } else { None };
                    let entry = entry_if(with_log, "BUILD_SETTLEMENT", text);
                    proof {
                        lemma_opening_step(*board, s0, *state, r0, *road_state, a0, st, inc);
                    }
                    (StepResult::Other, entry)
                },
            }
        },
        ActionPrompt::BuildInitialRoad => {
            match choose_initial_road(board, state) {
                None => {
                    proof {
                        assert(policy_move(*board, s0, r0, a0) is Illegal) by {
                            reveal(policy_move);
                        }
                        lemma_still_step(*board, s0, s0, r0, a0, st, inc, StepResult::Illegal);
                    }
                    (StepResult::Illegal, None)
                },
                Some(edge) => {
                    proof {
                        lemma_first_where_holds(crate::policy::initial_road_slot(*board, *state), 3);
                        assert(policy_move(*board, s0, r0, a0) == PolicyMove::OpeningRoad(edge)) by {
                            reveal(policy_move);
                        }
                    }
                    apply_initial_road(board, state, road_state, edge);
                    let text = if with_log { Some(decimal_string(edge as u64)) } else { None };
                    let entry = entry_if(with_log, "BUILD_ROAD", text);
                    proof {
                        lemma_opening_step(*board, s0, *state, r0, *road_state, a0, st, inc);
                    }
                    (StepResult::Other, entry)
                },
            }
        },
        ActionPrompt::Discard => {
            let player = state.active_player;
            let discard = choose_discard(state, player, rng);
            apply_discard(state, player, &discard);
            let text = if with_log { Some(format_counts(&discard)) } else { None };
            let entry = entry_if(with_log, "DISCARD", text);
            proof {
                let a = ValueAction { player: ap, kind: ValueActionKind::Discard(None) };
                assert(policy_move(*board, s0, r0, a0) == PolicyMove::Act(a)) by {
                    reveal(policy_move);
                }
                assert(discard@ =~= discarded(s0.player_resources@[player as int], st, inc));
                lemma_act_step(*board, s0, *state, r0, *road_state, a0, *army_state, st, inc, rng.spec_state(), a);
            }
            (StepResult::Other, entry)
        },
        ActionPrompt::MoveRobber => {
            let player = state.active_player;
            let (tile, victim, resource) = choose_robber_move(board, state, road_state, army_state, player, rng);
            apply_move_robber(state, tile, victim, resource);
            let text = if with_log { Some(format_robber_payload(tile, victim, resource)) } else { None };
            let entry = entry_if(with_log, "MOVE_ROBBER", text);
            proof {
                let a = ValueAction { player: ap, kind: ValueActionKind::MoveRobber { tile, victim, resource: None } };
                assert(policy_move(*board, s0, r0, a0) == PolicyMove::Act(a)) by {
                    reveal(policy_move);
                }
                lemma_act_step(*board, s0, *state, r0, *road_state, a0, *army_state, st, inc, rng.spec_state(), a);
            }
            (StepResult::Other, entry)
        },
        ActionPrompt::DecideTrade => {
            let player = state.active_player;
            if can_accept_trade(state, player) {
                apply_accept_trade(state, player);
                let text = if with_log { Some(format_trade_payload(state.current_trade)) } else { None };
                let entry = entry_if(with_log, "ACCEPT_TRADE", text);
                proof {
                    let a = ValueAction { player: ap, kind: ValueActionKind::AcceptTrade };
                    assert(policy_move(*board, s0, r0, a0) == PolicyMove::Act(a)) by {
                        reveal(policy_move);
                    }
                    lemma_act_step(*board, s0, *state, r0, *road_state, a0, *army_state, st, inc, rng.spec_state(), a);
                }
                (StepResult::Other, entry)
            } else {
                apply_reject_trade(state, player);
                let text = if with_log { Some(format_trade_payload(state.current_trade)) } else { None };
                let entry = entry_if(with_log, "REJECT_TRADE", text);
                proof {
                    let a = ValueAction { player: ap, kind: ValueActionKind::RejectTrade };
                    assert(policy_move(*board, s0, r0, a0) == PolicyMove::Act(a)) by {
                        reveal(policy_move);
                    }
                    lemma_act_step(*board, s0, *state, r0, *road_state, a0, *army_state, st, inc, rng.spec_state(), a);
                }
                (StepResult::Other, entry)
            }
        },
        ActionPrompt::DecideAcceptees => {
            if let Some(partner) = crate::engine::first_acceptee(state) {
                proof {
                    assert(state.acceptees@[partner as int]);
                }
                let trade = state.current_trade;
                apply_confirm_trade(state, partner);
                let text = if with_log { Some(format_confirm_trade_payload(trade, partner)) } else { None };
                let entry = entry_if(with_log, "CONFIRM_TRADE", text);
                proof {
                    let a = ValueAction { player: ap, kind: ValueActionKind::ConfirmTrade(partner) };
                    assert(policy_move(*board, s0, r0, a0) == PolicyMove::Act(a)) by {
                        reveal(policy_move);
                    }
                    lemma_act_step(*board, s0, *state, r0, *road_state, a0, *army_state, st, inc, rng.spec_state(), a);
                }
                (StepResult::Other, entry)
            } else {
                apply_cancel_trade(state);
                let entry = entry_if(with_log, "CANCEL_TRADE", None);
                proof {
                    let a = ValueAction { player: ap, kind: ValueActionKind::CancelTrade };
                    assert(policy_move(*board, s0, r0, a0) == PolicyMove::Act(a)) by {
                        reveal(policy_move);
                    }
                    lemma_act_step(*board, s0, *state, r0, *road_state, a0, *army_state, st, inc, rng.spec_state(), a);
                }
                (StepResult::Other, entry)
            }
        },
        ActionPrompt::PlayTurn => play_turn_step(board, state, rng, road_state, army_state, with_log),
    }
}


/// Every hand holds at most 25 victory point cards.
fn victory_cards_ok(state: &State) -> (ok: bool)
    ensures
        ok == victory_cards_bounded(*state),
{
    let vp = DevCard::VictoryPoint.as_index();
    let mut p: usize = 0;
    while p < PLAYER_COUNT
        invariant
            p <= PLAYER_COUNT,
            vp == dev_card_index(DevCard::VictoryPoint),
            forall|q: int| 0 <= q < p ==> #[trigger] state.dev_cards_in_hand@[q]@[vp as int] <= 25,
        decreases PLAYER_COUNT - p,
    {
        if state.dev_cards_in_hand[p][vp] > 25 {
            return false;
        }
        p = p + 1;
    }
    true
}

/// The winner of a finished game: the first seat with ten points, else the first seat with the most points.
/// A state whose ids or victory cards are out of range credits seat 0.
pub(crate) fn game_winner(state: &State, road_state: &RoadState, army_state: &ArmyState) -> (winner: PlayerId)
    requires
        road_state.wf(),
        army_state.wf(),
    ensures
        is_player(winner),
        credited(*state, *road_state, *army_state, winner as int),
{
    if !ids_in_range(state) || !victory_cards_ok(state) {
        return 0;
    }
    match check_winner(state, road_state, army_state) {
        Some(w) => w,
        None => select_winner(state, road_state, army_state),
    }
}


/// An earlier measure in the lexicographic order, spelled out component by component.
pub open spec fn measure_lower(a: Seq<nat>, b: Seq<nat>) -> bool {
    ||| a[0] < b[0]
    ||| a[0] == b[0] && a[1] < b[1]
    ||| a[0] == b[0] && a[1] == b[1] && a[2] < b[2]
    ||| a[0] == b[0] && a[1] == b[1] && a[2] == b[2] && a[3] < b[3]
    ||| a[0] == b[0] && a[1] == b[1] && a[2] == b[2] && a[3] == b[3] && a[4] < b[4]
    ||| a[0] == b[0] && a[1] == b[1] && a[2] == b[2] && a[3] == b[3] && a[4] == b[4] && a[5] < b[5]
    ||| a[0] == b[0] && a[1] == b[1] && a[2] == b[2] && a[3] == b[3] && a[4] == b[4] && a[5] == b[5] && a[6] < b[6]
    ||| a[0] == b[0] && a[1] == b[1] && a[2] == b[2] && a[3] == b[3] && a[4] == b[4] && a[5] == b[5] && a[6] == b[6] && a[7]
        < b[7]
}

proof fn lemma_lex_before_lower(a: Seq<nat>, b: Seq<nat>)
    requires
        a.len() == 8,
        b.len() == 8,
        lex_before(a, b),
    ensures
        measure_lower(a, b),
{
    let i = choose|i: int| 0 <= i < a.len() && i < b.len() && #[trigger] a[i] < b[i] && forall|j: int| 0 <= j < i ==> a[j] == b[j];
    if i > 0 { assert(a[0] == b[0]); }
    if i > 1 { assert(a[1] == b[1]); }
    if i > 2 { assert(a[2] == b[2]); }
    if i > 3 { assert(a[3] == b[3]); }
    if i > 4 { assert(a[4] == b[4]); }
    if i > 5 { assert(a[5] == b[5]); }
    if i > 6 { assert(a[6] == b[6]); }
}

/// Whether the step lowered the measure, from the measures taken before and after it.
pub(crate) fn step_lowered(before: &[u64; 8], after: &[u64; 8], Ghost(old_state): Ghost<State>, Ghost(new_state): Ghost<State>, Ghost(max_turns): Ghost<u16>) -> (lowered: bool)
    requires
        forall|i: int| 0 <= i < 8 ==> #[trigger] before@[i] as nat == step_measure(old_state, max_turns)[i],
        forall|i: int| 0 <= i < 8 ==> #[trigger] after@[i] as nat == step_measure(new_state, max_turns)[i],
    ensures
        lowered == measure_lower(step_measure(new_state, max_turns), step_measure(old_state, max_turns)),
{
    let lowered = lex_decreased(before, after);
    proof {
        let a = Seq::new(8, |i: int| after@[i] as nat);
        let b = Seq::new(8, |i: int| before@[i] as nat);
        assert(a =~= step_measure(new_state, max_turns));
        assert(b =~= step_measure(old_state, max_turns));
        if lowered {
            lemma_lex_before_lower(a, b);
        } else if measure_lower(a, b) {
            lemma_lower_lex_before(a, b);
        }
    }
    lowered
}

proof fn lemma_lower_lex_before(a: Seq<nat>, b: Seq<nat>)
    requires
        a.len() == 8,
        b.len() == 8,
        measure_lower(a, b),
    ensures
        lex_before(a, b),
{
    if a[0] < b[0] {
        assert(a[0] < b[0] && forall|j: int| 0 <= j < 0 ==> a[j] == b[j]);
    } else if a[1] < b[1] && a[0] == b[0] {
        assert(a[1] < b[1] && forall|j: int| 0 <= j < 1 ==> a[j] == b[j]);
    } else if a[2] < b[2] && a[0] == b[0] && a[1] == b[1] {
        assert(a[2] < b[2] && forall|j: int| 0 <= j < 2 ==> a[j] == b[j]);
    } else if a[3] < b[3] && a[0] == b[0] && a[1] == b[1] && a[2] == b[2] {
        assert(a[3] < b[3] && forall|j: int| 0 <= j < 3 ==> a[j] == b[j]);
    } else if a[4] < b[4] && a[0] == b[0] && a[1] == b[1] && a[2] == b[2] && a[3] == b[3] {
        assert(a[4] < b[4] && forall|j: int| 0 <= j < 4 ==> a[j] == b[j]);
    } else if a[5] < b[5] && a[0] == b[0] && a[1] == b[1] && a[2] == b[2] && a[3] == b[3] && a[4] == b[4] {
        assert(a[5] < b[5] && forall|j: int| 0 <= j < 5 ==> a[j] == b[j]);
    } else if a[6] < b[6] && a[0] == b[0] && a[1] == b[1] && a[2] == b[2] && a[3] == b[3] && a[4] == b[4] && a[5] == b[5] {
        assert(a[6] < b[6] && forall|j: int| 0 <= j < 6 ==> a[j] == b[j]);
    } else {
        assert(a[7] < b[7] && forall|j: int| 0 <= j < 7 ==> a[j] == b[j]);
    }
}

} // verus!
