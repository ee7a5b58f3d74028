use vstd::prelude::*;

use crate::board::Board;
use crate::production::{lemma_roll_paid_ignores_flags, roll_paid};
use crate::rules::{building_count, buildings_upto, lemma_buildings_upto_bound, DEV_CARD_COST};
use crate::game::{check_step_ready, game_winner, measure_now, policy_step, step_lowered};
use crate::playout::{
    count_of, credited, game_played, games_played, log_played, stats_played, sum_counter, game_run, game_start, game_stats, goes_on, kept, may_step, policy_line, snapshot_of,
    step_taken, texts, Snapshot,
};
use crate::rng::rng_for_stream;
use crate::scoring::check_winner;
use crate::state::{is_owner, is_player, lemma_with_bank_resource, lemma_with_player_resource, State};
use crate::stats::{counter, Stats, COUNTERS};
use crate::types::{
    dev_card_index, resource_at, resource_index, ActionPrompt, BuildingLevel, DevCard, NodeId,
    PlayerId, Resource, TileId, TurnPhase, DEV_CARD_COUNT, INVALID_NODE, NODE_COUNT, NO_PLAYER,
    PLAYER_COUNT, RESOURCE_COUNT, TILE_COUNT,
};
use vstd::array::spec_array_update;

verus! {

/// `a` with entry `(i, j)` replaced by `v`.
pub open spec fn set2<T, const N: usize, const M: usize>(a: [[T; M]; N], i: int, j: int, v: T) -> [[T; M]; N] {
    spec_array_update(a, i, spec_array_update(a@[i], j, v))
}

/// The number of cards in `player`'s hand.
pub open spec fn hand_total(s: State, player: int) -> int {
    let h = s.player_resources@[player]@;
    h[0] + h[1] + h[2] + h[3] + h[4]
}

/// The number of cards of resource `r` in all hands and the bank together.
pub open spec fn resource_total(s: State, r: int) -> int {
    s.player_resources@[0]@[r] + s.player_resources@[1]@[r] + s.player_resources@[2]@[r]
        + s.player_resources@[3]@[r] + s.bank_resources@[r]
}

/// Every resource has as many cards, in hands and bank together, in `new` as in `old`.
pub open spec fn totals_kept(new: State, old: State) -> bool {
    forall|r: int| 0 <= r < RESOURCE_COUNT ==> #[trigger] resource_total(new, r) == resource_total(old, r)
}

/// The longest-road standing: each player's best length, and the holder of the card with its length.
#[derive(Copy, Clone, Debug)]
pub struct RoadState {
    pub(crate) lengths: [u8; PLAYER_COUNT],
    pub(crate) owner: Option<PlayerId>,
    pub(crate) length: u8,
}

/// The largest-army standing: the holder of the card and the army size it was taken with.
#[derive(Copy, Clone, Debug)]
pub struct ArmyState {
    pub(crate) owner: Option<PlayerId>,
    pub(crate) size: u8,
}

impl RoadState {
    pub open(crate) spec fn lengths_view(&self) -> Seq<u8> {
        self.lengths@
    }

    pub open(crate) spec fn owner_view(&self) -> Option<PlayerId> {
        self.owner
    }

    pub open(crate) spec fn length_view(&self) -> u8 {
        self.length
    }

    pub fn empty() -> (road: Self)
        ensures
            road.lengths_view() == Seq::new(PLAYER_COUNT as nat, |i: int| 0u8),
            road.owner_view() is None,
            road.length_view() == 0,
    {
        let road = Self { lengths: [0u8; PLAYER_COUNT], owner: None, length: 0 };
        assert(road.lengths_view() =~= Seq::new(PLAYER_COUNT as nat, |i: int| 0u8));
        road
    }

    pub fn length_for_player(&self, player: PlayerId) -> (length: u8)
        requires
            is_player(player),
        ensures
            length == self.lengths_view()[player as int],
    {
        self.lengths[player as usize]
    }

    pub fn owner(&self) -> (owner: Option<PlayerId>)
        ensures
            owner == self.owner_view(),
    {
        self.owner
    }

    pub fn length(&self) -> (length: u8)
        ensures
            length == self.length_view(),
    {
        self.length
    }
}

impl ArmyState {
    pub open(crate) spec fn owner_view(&self) -> Option<PlayerId> {
        self.owner
    }

    pub open(crate) spec fn size_view(&self) -> u8 {
        self.size
    }

    pub fn empty() -> (army: Self)
        ensures
            army.owner_view() is None,
            army.size_view() == 0,
    {
        Self { owner: None, size: 0 }
    }

    pub fn owner(&self) -> (owner: Option<PlayerId>)
        ensures
            owner == self.owner_view(),
    {
        self.owner
    }

    pub fn size(&self) -> (size: u8)
        ensures
            size == self.size_view(),
    {
        self.size
    }
}

#[derive(Copy, Clone, Debug, PartialEq, Eq, Structural)]
pub enum StepResult {
    EndTurn,
    Other,
    Illegal,
}

#[derive(Copy, Clone, Debug)]
pub struct SimConfig {
    pub max_turns: u16,
}

impl Default for SimConfig {
    fn default() -> (config: Self)
        ensures
            config.max_turns == 2000,
    {
        Self { max_turns: 2000 }
    }
}

/// The player `direction` seats after `player`, around the table.
pub open spec fn spec_next_player(player: PlayerId, direction: i8) -> PlayerId {
    ((player + direction + PLAYER_COUNT) % (PLAYER_COUNT as int)) as PlayerId
}

pub(crate) fn next_player(player: PlayerId, direction: i8) -> (next: PlayerId)
    requires
        is_player(player),
        -4 <= direction <= 4,
    ensures
        next == spec_next_player(player, direction),
        is_player(next),
{
    let count = PLAYER_COUNT as i8;
    let mut idx = player as i8 + direction;
    if idx < 0 {
        idx += count;
    }
    (idx % count) as u8
}

/// The state after the turn passes `direction` seats on: that player plays and acts, and the turn count grows.
pub open spec fn advanced_turn(s: State, direction: i8) -> State {
    let next = spec_next_player(s.turn_player, direction);
    State { turn_player: next, active_player: next, num_turns: (s.num_turns + 1) as u32, ..s }
}

pub(crate) fn advance_turn(state: &mut State, direction: i8)
    requires
        is_player(old(state).turn_player),
        -4 <= direction <= 4,
        old(state).num_turns < u32::MAX,
    ensures
        *final(state) == advanced_turn(*old(state), direction),
{
    let next = next_player(state.turn_player, direction);
    state.turn_player = next;
    state.active_player = next;
    state.num_turns += 1;
}

/// The cards whose ownership at the start of a turn matters for playing them (victory points excluded).
pub open spec fn is_playable_card(c: int) -> bool {
    c == dev_card_index(DevCard::Knight) || c == dev_card_index(DevCard::Monopoly)
        || c == dev_card_index(DevCard::YearOfPlenty) || c == dev_card_index(DevCard::RoadBuilding)
}

/// The state after `player`'s turn is tidied: no dev card played or roll made, no trade offered,
/// and the playable cards in hand now count as held since the start of a turn.
pub open spec fn cleaned_turn(s: State, player: int) -> State {
    State {
        has_played_dev: spec_array_update(s.has_played_dev, player, false),
        has_rolled: spec_array_update(s.has_rolled, player, false),
        trade_offered_this_turn: false,
        ..s
    }
}

pub(crate) fn clean_turn(state: &mut State, player: PlayerId)
    requires
        is_player(player),
    ensures
        *final(state) == (State { dev_owned_at_start: final(state).dev_owned_at_start, ..cleaned_turn(*old(state), player as int) }),
        forall|q: int, c: int|
            0 <= q < PLAYER_COUNT && 0 <= c < DEV_CARD_COUNT ==> #[trigger] final(state).dev_owned_at_start@[q]@[c]
                == if q == player && is_playable_card(c) {
                old(state).dev_cards_in_hand@[q]@[c] > 0
            } else {
                old(state).dev_owned_at_start@[q]@[c]
            },
{
    let p = player as usize;
    state.has_played_dev[p] = false;
    state.has_rolled[p] = false;
    state.trade_offered_this_turn = false;
    let cards = [DevCard::Knight, DevCard::Monopoly, DevCard::YearOfPlenty, DevCard::RoadBuilding];
    let mut i: usize = 0;
    while i < 4
        invariant
            i <= 4,
            p == player,
            is_player(player),
            cards@ == seq![DevCard::Knight, DevCard::Monopoly, DevCard::YearOfPlenty, DevCard::RoadBuilding],
            *state == (State { dev_owned_at_start: state.dev_owned_at_start, ..cleaned_turn(*old(state), player as int) }),
            forall|q: int, c: int|
                0 <= q < PLAYER_COUNT && 0 <= c < DEV_CARD_COUNT ==> #[trigger] state.dev_owned_at_start@[q]@[c]
                    == if q == player && exists|k: int| 0 <= k < i && dev_card_index(cards@[k]) == c {
                    old(state).dev_cards_in_hand@[q]@[c] > 0
                } else {
                    old(state).dev_owned_at_start@[q]@[c]
                },
        decreases 4 - i,
    {
        let idx = cards[i].as_index();
        let held = state.dev_cards_in_hand[p][idx] > 0;
        state.dev_owned_at_start[p][idx] = held;
        i = i + 1;
        proof {
            assert forall|q: int, c: int|
                0 <= q < PLAYER_COUNT && 0 <= c < DEV_CARD_COUNT implies #[trigger] state.dev_owned_at_start@[q]@[c]
                    == if q == player && exists|k: int| 0 <= k < i && dev_card_index(cards@[k]) == c {
                    old(state).dev_cards_in_hand@[q]@[c] > 0
                } else {
                    old(state).dev_owned_at_start@[q]@[c]
                } by {
                if q == player && c == idx {
                    assert(dev_card_index(cards@[i - 1]) == c);
                }
                if q == player && c != idx {
                    if exists|k: int| 0 <= k < i && dev_card_index(cards@[k]) == c {
                        let k = choose|k: int| 0 <= k < i && dev_card_index(cards@[k]) == c;
                        assert(k != i - 1);
                    }
                }
            }
        }
    }
    proof {
        assert forall|c: int|
            0 <= c < DEV_CARD_COUNT implies (exists|k: int| 0 <= k < 4 && dev_card_index(cards@[k]) == c)
                == #[trigger] is_playable_card(c) by {
            if c == 0 {
                assert(dev_card_index(cards@[0]) == c);
            } else if c == 2 {
                assert(dev_card_index(cards@[1]) == c);
            } else if c == 1 {
                assert(dev_card_index(cards@[2]) == c);
            } else if c == 3 {
                assert(dev_card_index(cards@[3]) == c);
            }
        }
    }
}

/// The count of resource index `r` in `player`'s hand.
pub open spec fn hand_at(s: State, player: int, r: int) -> int {
    s.player_resources@[player]@[r] as int
}

/// The bank's count of resource index `r`.
pub open spec fn bank_at(s: State, r: int) -> int {
    s.bank_resources@[r] as int
}

/// Every resource has at most 127 cards in hands and bank together, so any single count or move fits a signed byte.
pub open spec fn resources_bounded(s: State) -> bool {
    forall|r: int| 0 <= r < RESOURCE_COUNT ==> #[trigger] resource_total(s, r) <= 127
}

/// The state equals `old` but for its hands and bank.
pub open spec fn only_resources_changed(new: State, old: State) -> bool {
    new == (State { player_resources: new.player_resources, bank_resources: new.bank_resources, ..old })
}

/// Moving `cost` from `player`'s hand to the bank.
pub open spec fn cost_paid(new: State, old: State, player: int, cost: [u8; RESOURCE_COUNT]) -> bool {
    &&& only_resources_changed(new, old)
    &&& forall|q: int, r: int|
        0 <= q < PLAYER_COUNT && 0 <= r < RESOURCE_COUNT ==> #[trigger] hand_at(new, q, r) == hand_at(old, q, r) - if q
            == player {
            cost@[r] as int
        } else {
            0
        }
    &&& forall|r: int| 0 <= r < RESOURCE_COUNT ==> #[trigger] bank_at(new, r) == bank_at(old, r) + cost@[r]
}


/// `delta` added at (player, resource) of the hands; nothing else changes.
pub open spec fn hands_moved(new: State, old: State, player: int, r: int, delta: int) -> bool {
    forall|q: int, k: int|
        0 <= q < PLAYER_COUNT && 0 <= k < RESOURCE_COUNT ==> #[trigger] hand_at(new, q, k) == hand_at(old, q, k) + if q
            == player && k == r {
            delta
        } else {
            0
        }
}

/// `delta` added at `r` of the bank; nothing else changes.
pub open spec fn bank_moved(new: State, old: State, r: int, delta: int) -> bool {
    forall|k: int| 0 <= k < RESOURCE_COUNT ==> #[trigger] bank_at(new, k) == bank_at(old, k) + if k == r {
        delta
    } else {
        0
    }
}

/// Moves `amount` of `resource` between `player`'s hand and the bank: to the bank if `to_bank`, else from it.
pub(crate) fn move_with_bank(state: &mut State, player: PlayerId, resource: Resource, amount: u8, to_bank: bool)
    requires
        is_player(player),
        amount <= 127,
        to_bank ==> hand_at(*old(state), player as int, resource_index(resource)) >= amount,
        to_bank ==> bank_at(*old(state), resource_index(resource)) + amount <= 255,
        !to_bank ==> bank_at(*old(state), resource_index(resource)) >= amount,
        !to_bank ==> hand_at(*old(state), player as int, resource_index(resource)) + amount <= 255,
    ensures
        only_resources_changed(*final(state), *old(state)),
        hands_moved(*final(state), *old(state), player as int, resource_index(resource), if to_bank { -amount } else { amount as int }),
        bank_moved(*final(state), *old(state), resource_index(resource), if to_bank { amount as int } else { -amount }),
        forall|r: int| 0 <= r < RESOURCE_COUNT ==> #[trigger] resource_total(*final(state), r) == resource_total(*old(state), r),
{
    let signed = amount as i8;
    let ghost before = *state;
    if to_bank {
        state.adjust_resource_kernel(player, resource, -signed);
        state.adjust_bank_kernel(resource, signed);
    } else {
        state.adjust_bank_kernel(resource, -signed);
        state.adjust_resource_kernel(player, resource, signed);
    }
    proof {
        let ri = resource_index(resource);
        assert forall|q: int, k: int|
            0 <= q < PLAYER_COUNT && 0 <= k < RESOURCE_COUNT implies #[trigger] hand_at(*state, q, k) == hand_at(before, q, k) + if q
                == player && k == ri {
                if to_bank { -amount } else { amount as int }
            } else {
                0
            } by {
            assert(state.player_resources@[q]@[k] == hand_at(*state, q, k));
            assert(before.player_resources@[q]@[k] == hand_at(before, q, k));
        }
        assert forall|k: int| 0 <= k < RESOURCE_COUNT implies #[trigger] bank_at(*state, k) == bank_at(before, k) + if k == ri {
            if to_bank { amount as int } else { -amount }
        } else {
            0
        } by {
            assert(state.bank_resources@[k] == bank_at(*state, k));
            assert(before.bank_resources@[k] == bank_at(before, k));
        }
        assert forall|r: int| 0 <= r < RESOURCE_COUNT implies #[trigger] resource_total(*state, r) == resource_total(before, r) by {
            assert(hand_at(*state, 0, r) + hand_at(*state, 1, r) + hand_at(*state, 2, r) + hand_at(*state, 3, r) + bank_at(*state, r)
                == hand_at(before, 0, r) + hand_at(before, 1, r) + hand_at(before, 2, r) + hand_at(before, 3, r) + bank_at(before, r));
        }
    }
}

/// Moves `amount` of `resource` from `from`'s hand to `to`'s hand.
fn move_between_hands(state: &mut State, from: PlayerId, to: PlayerId, resource: Resource, amount: u8)
    requires
        is_player(from),
        is_player(to),
        amount <= 127,
        hand_at(*old(state), from as int, resource_index(resource)) >= amount,
        from != to ==> hand_at(*old(state), to as int, resource_index(resource)) + amount <= 255,
    ensures
        only_resources_changed(*final(state), *old(state)),
        forall|k: int| 0 <= k < RESOURCE_COUNT ==> #[trigger] bank_at(*final(state), k) == bank_at(*old(state), k),
        forall|q: int, k: int|
            0 <= q < PLAYER_COUNT && 0 <= k < RESOURCE_COUNT ==> #[trigger] hand_at(*final(state), q, k) == hand_at(*old(state), q, k)
                + if k == resource_index(resource) {
                (if q == to { amount as int } else { 0 }) - (if q == from { amount as int } else { 0 })
            } else {
                0
            },
        forall|r: int| 0 <= r < RESOURCE_COUNT ==> #[trigger] resource_total(*final(state), r) == resource_total(*old(state), r),
{
    let signed = amount as i8;
    let ghost before = *state;
    state.adjust_resource_kernel(from, resource, -signed);
    let ghost middle = *state;
    state.adjust_resource_kernel(to, resource, signed);
    proof {
        let ri = resource_index(resource);
        assert forall|q: int, k: int|
            0 <= q < PLAYER_COUNT && 0 <= k < RESOURCE_COUNT implies #[trigger] hand_at(*state, q, k) == hand_at(before, q, k)
                + if k == ri {
                (if q == to { amount as int } else { 0 }) - (if q == from { amount as int } else { 0 })
            } else {
                0
            } by {
            assert(state.player_resources@[q]@[k] == hand_at(*state, q, k));
            assert(middle.player_resources@[q]@[k] == hand_at(middle, q, k));
            assert(before.player_resources@[q]@[k] == hand_at(before, q, k));
        }
        assert forall|k: int| 0 <= k < RESOURCE_COUNT implies #[trigger] bank_at(*state, k) == bank_at(before, k) by {
        }
        assert forall|r: int| 0 <= r < RESOURCE_COUNT implies #[trigger] resource_total(*state, r) == resource_total(before, r) by {
            assert(hand_at(*state, 0, r) + hand_at(*state, 1, r) + hand_at(*state, 2, r) + hand_at(*state, 3, r) + bank_at(*state, r)
                == hand_at(before, 0, r) + hand_at(before, 1, r) + hand_at(before, 2, r) + hand_at(before, 3, r) + bank_at(before, r));
        }
    }
}

pub(crate) fn pay_cost(state: &mut State, player: PlayerId, cost: &[u8; RESOURCE_COUNT])
    requires
        is_player(player),
        resources_bounded(*old(state)),
        forall|r: int| 0 <= r < RESOURCE_COUNT ==> #[trigger] hand_at(*old(state), player as int, r) >= cost@[r],
    ensures
        cost_paid(*final(state), *old(state), player as int, *cost),
        resources_bounded(*final(state)),
        forall|r: int| 0 <= r < RESOURCE_COUNT ==> #[trigger] resource_total(*final(state), r) == resource_total(*old(state), r),
{
    let mut idx: usize = 0;
    while idx < RESOURCE_COUNT
        invariant
            idx <= RESOURCE_COUNT,
            is_player(player),
            resources_bounded(*old(state)),
            forall|r: int| 0 <= r < RESOURCE_COUNT ==> #[trigger] hand_at(*old(state), player as int, r) >= cost@[r],
            only_resources_changed(*state, *old(state)),
            forall|r: int| 0 <= r < RESOURCE_COUNT ==> #[trigger] resource_total(*state, r) == resource_total(*old(state), r),
            forall|q: int, r: int|
                0 <= q < PLAYER_COUNT && 0 <= r < RESOURCE_COUNT ==> #[trigger] hand_at(*state, q, r) == hand_at(*old(state), q, r)
                    - if q == player && r < idx {
                    cost@[r] as int
                } else {
                    0
                },
            forall|r: int|
                0 <= r < RESOURCE_COUNT ==> #[trigger] bank_at(*state, r) == bank_at(*old(state), r) + if r < idx {
                    cost@[r] as int
                } else {
                    0
                },
        decreases RESOURCE_COUNT - idx,
    {
        let amount = cost[idx];
        if amount != 0 {
            let resource = Resource::from_index(idx).unwrap();
            proof {
                assert(resource_total(*old(state), idx as int) <= 127);
                assert(hand_at(*state, player as int, idx as int) == hand_at(*old(state), player as int, idx as int));
                assert(bank_at(*state, idx as int) == bank_at(*old(state), idx as int));
                assert(amount <= 127);
            }
            move_with_bank(state, player, resource, amount, true);
        }
        idx = idx + 1;
    }
}

/// `player` may play `card` now: no card played this turn, and the card in hand since the start of the turn.
pub open spec fn may_play_dev(s: State, player: PlayerId, card: DevCard) -> bool {
    &&& !s.has_played_dev@[player as int]
    &&& s.dev_cards_in_hand@[player as int]@[dev_card_index(card)] > 0
    &&& s.dev_owned_at_start@[player as int]@[dev_card_index(card)]
}

pub(crate) fn can_play_dev(state: &State, player: PlayerId, card: DevCard) -> (ok: bool)
    requires
        is_player(player),
    ensures
        ok == may_play_dev(*state, player, card),
{
    if state.has_played_dev[player as usize] {
        return false;
    }
    let idx = card.as_index();
    if state.dev_cards_in_hand[player as usize][idx] == 0 {
        return false;
    }
    state.dev_owned_at_start[player as usize][idx]
}

/// The state after `player` plays `card`: if one is in hand, it moves to the played pile and the player has played this turn.
pub open spec fn dev_marked_played(s: State, player: int, card: DevCard) -> State {
    let c = dev_card_index(card);
    if s.dev_cards_in_hand@[player]@[c] == 0 {
        s
    } else {
        State {
            dev_cards_in_hand: set2(s.dev_cards_in_hand, player, c, (s.dev_cards_in_hand@[player]@[c] - 1) as u8),
            dev_cards_played: set2(s.dev_cards_played, player, c, (s.dev_cards_played@[player]@[c] + 1) as u8),
            has_played_dev: spec_array_update(s.has_played_dev, player, true),
            ..s
        }
    }
}

pub(crate) fn mark_dev_played(state: &mut State, player: PlayerId, card: DevCard)
    requires
        is_player(player),
        old(state).dev_cards_played@[player as int]@[dev_card_index(card)] < 255,
    ensures
        *final(state) == dev_marked_played(*old(state), player as int, card),
{
    let idx = card.as_index();
    let p = player as usize;
    if state.dev_cards_in_hand[p][idx] == 0 {
        return;
    }
    state.dev_cards_in_hand[p][idx] -= 1;
    state.dev_cards_played[p][idx] += 1;
    state.has_played_dev[p] = true;
    proof {
        let o = *old(state);
        assert(state.dev_cards_in_hand@[p as int] =~= spec_array_update(o.dev_cards_in_hand@[p as int], idx as int, (o.dev_cards_in_hand@[p as int]@[idx as int] - 1) as u8));
        assert(state.dev_cards_in_hand =~= set2(o.dev_cards_in_hand, p as int, idx as int, (o.dev_cards_in_hand@[p as int]@[idx as int] - 1) as u8));
        assert(state.dev_cards_played@[p as int] =~= spec_array_update(o.dev_cards_played@[p as int], idx as int, (o.dev_cards_played@[p as int]@[idx as int] + 1) as u8));
        assert(state.dev_cards_played =~= set2(o.dev_cards_played, p as int, idx as int, (o.dev_cards_played@[p as int]@[idx as int] + 1) as u8));
        assert(*state =~= dev_marked_played(o, p as int, card));
    }
}

fn reset_trade_state(state: &mut State)
    ensures
        *final(state) == (State { current_trade: final(state).current_trade, acceptees: final(state).acceptees, is_resolving_trade: false, ..*old(state) }),
        forall|i: int| 0 <= i < 10 ==> #[trigger] final(state).current_trade@[i] == 0,
        forall|p: int| 0 <= p < PLAYER_COUNT ==> !#[trigger] final(state).acceptees@[p],
{
    state.is_resolving_trade = false;
    state.current_trade = [0; 10];
    state.acceptees = [false; PLAYER_COUNT];
}

/// `player` holds every card that the trade asks for.
pub open spec fn can_meet_ask(s: State, player: PlayerId) -> bool {
    forall|r: int| 0 <= r < RESOURCE_COUNT ==> hand_at(s, player as int, r) >= #[trigger] s.current_trade@[RESOURCE_COUNT + r]
}

pub(crate) fn can_accept_trade(state: &State, player: PlayerId) -> (ok: bool)
    requires
        is_player(player),
    ensures
        ok == can_meet_ask(*state, player),
{
    let mut idx: usize = 0;
    while idx < RESOURCE_COUNT
        invariant
            idx <= RESOURCE_COUNT,
            is_player(player),
            forall|r: int| 0 <= r < idx ==> hand_at(*state, player as int, r) >= #[trigger] state.current_trade@[RESOURCE_COUNT + r],
        decreases RESOURCE_COUNT - idx,
    {
        if state.player_resources[player as usize][idx] < state.current_trade[RESOURCE_COUNT + idx] {
            return false;
        }
        idx = idx + 1;
    }
    true
}

/// The lowest player who accepted the trade, if any.
pub open spec fn spec_first_acceptee(s: State) -> Option<PlayerId> {
    if s.acceptees@[0] {
        Some(0u8)
    } else if s.acceptees@[1] {
        Some(1u8)
    } else if s.acceptees@[2] {
        Some(2u8)
    } else if s.acceptees@[3] {
        Some(3u8)
    } else {
        None
    }
}

pub(crate) fn first_acceptee(state: &State) -> (first: Option<PlayerId>)
    ensures
        first == spec_first_acceptee(*state),
{
    let mut idx: usize = 0;
    while idx < PLAYER_COUNT
        invariant
            idx <= PLAYER_COUNT,
            forall|p: int| 0 <= p < idx ==> !#[trigger] state.acceptees@[p],
        decreases PLAYER_COUNT - idx,
    {
        if state.acceptees[idx] {
            return Some(idx as u8);
        }
        idx = idx + 1;
    }
    None
}

/// The next seat after `player` that answers a trade offer, if any.
pub open spec fn spec_next_trade_responder(player: PlayerId) -> Option<PlayerId> {
    if player + 1 >= PLAYER_COUNT {
        None
    } else {
        Some((player + 1) as PlayerId)
    }
}

fn next_trade_responder(state: &State, player: PlayerId) -> (next: Option<PlayerId>)
    ensures
        next == spec_next_trade_responder(player),
{
    let next = player as usize + 1;
    if next >= PLAYER_COUNT {
        None
    } else {
        Some(next as u8)
    }
}

/// The first seat that answers an offer made by `offering`.
pub open spec fn spec_first_trade_responder(offering: PlayerId) -> PlayerId {
    if offering == 0 {
        1
    } else {
        0
    }
}

fn first_trade_responder(offering: PlayerId) -> (first: Option<PlayerId>)
    ensures
        first == Some(spec_first_trade_responder(offering)),
{
    let mut idx: usize = 0;
    while idx < PLAYER_COUNT
        invariant
            idx <= PLAYER_COUNT,
            idx == 0 || (idx == 1 && offering == 0),
        decreases PLAYER_COUNT - idx,
    {
        if idx as u8 != offering {
            return Some(idx as u8);
        }
        idx = idx + 1;
    }
    None
}

/// The state after `player` offers `trade` to the others.
pub open spec fn trade_offered(s: State, player: PlayerId, trade: [u8; 10]) -> State {
    State {
        is_resolving_trade: true,
        current_trade: trade,
        trade_offering_player: player,
        trade_offered_this_turn: true,
        active_player: spec_first_trade_responder(player),
        current_prompt: ActionPrompt::DecideTrade,
        ..s
    }
}

pub(crate) fn apply_offer_trade(state: &mut State, player: PlayerId, trade: &[u8; 10])
    ensures
        *final(state) == (State { acceptees: final(state).acceptees, ..trade_offered(*old(state), player, *trade) }),
        forall|p: int| 0 <= p < PLAYER_COUNT ==> !#[trigger] final(state).acceptees@[p],
        totals_kept(*final(state), *old(state)),
{
    state.is_resolving_trade = true;
    state.current_trade = *trade;
    state.trade_offering_player = player;
    state.acceptees = [false; PLAYER_COUNT];
    state.trade_offered_this_turn = true;
    state.active_player = match first_trade_responder(player) {
        Some(p) => p,
        None => player,
    };
    state.current_prompt = ActionPrompt::DecideTrade;
}

/// `new` is `old` after `player` accepts the offered trade and the next player is asked, else the offering player
/// decides on the acceptances.
pub open spec fn accept_done(new: State, old: State, player: PlayerId) -> bool {
    &&& new.acceptees == spec_array_update(old.acceptees, player as int, true)
    &&& new == (State {
        acceptees: new.acceptees,
        active_player: match spec_next_trade_responder(player) {
            Some(next) => next,
            None => old.trade_offering_player,
        },
        current_prompt: match spec_next_trade_responder(player) {
            Some(_) => old.current_prompt,
            None => ActionPrompt::DecideAcceptees,
        },
        ..old
    })
}

pub(crate) fn apply_accept_trade(state: &mut State, player: PlayerId)
    requires
        is_player(player),
    ensures
        accept_done(*final(state), *old(state), player),
        totals_kept(*final(state), *old(state)),
{
    state.acceptees[player as usize] = true;
    match next_trade_responder(state, player) {
        Some(next) => {
            state.active_player = next;
        },
        None => {
            state.active_player = state.trade_offering_player;
            state.current_prompt = ActionPrompt::DecideAcceptees;
        },
    }
}

/// Some player accepted the trade.
pub open spec fn any_acceptee(s: State) -> bool {
    exists|p: int| 0 <= p < PLAYER_COUNT && #[trigger] s.acceptees@[p]
}

/// `new` is `old` after `player` refuses the offered trade: the next player is asked, else the offering player
/// decides on the acceptances, else, with none, the trade is cleared and the turn goes on.
pub open spec fn reject_done(new: State, old: State, player: PlayerId) -> bool {
    &&& spec_next_trade_responder(player) matches Some(next) ==> new == (State { active_player: next, ..old })
    &&& spec_next_trade_responder(player) is None && any_acceptee(old) ==> new == (State {
        active_player: old.trade_offering_player,
        current_prompt: ActionPrompt::DecideAcceptees,
        ..old
    })
    &&& spec_next_trade_responder(player) is None && !any_acceptee(old) ==> {
        &&& new == (State {
            current_trade: new.current_trade,
            acceptees: new.acceptees,
            is_resolving_trade: false,
            active_player: old.turn_player,
            current_prompt: ActionPrompt::PlayTurn,
            ..old
        })
        &&& forall|i: int| 0 <= i < 10 ==> #[trigger] new.current_trade@[i] == 0
        &&& forall|p: int| 0 <= p < PLAYER_COUNT ==> !#[trigger] new.acceptees@[p]
    }
}

pub(crate) fn apply_reject_trade(state: &mut State, player: PlayerId)
    ensures
        reject_done(*final(state), *old(state), player),
        totals_kept(*final(state), *old(state)),
{
    if let Some(next) = next_trade_responder(state, player) {
        state.active_player = next;
        return;
    }
    let mut any = false;
    let mut idx: usize = 0;
    while idx < PLAYER_COUNT
        invariant
            idx <= PLAYER_COUNT,
            any == exists|p: int| 0 <= p < idx && #[trigger] state.acceptees@[p],
        decreases PLAYER_COUNT - idx,
    {
        if state.acceptees[idx] {
            any = true;
        }
        idx = idx + 1;
    }
    if any {
        state.active_player = state.trade_offering_player;
        state.current_prompt = ActionPrompt::DecideAcceptees;
    } else {
        reset_trade_state(state);
        state.active_player = state.turn_player;
        state.current_prompt = ActionPrompt::PlayTurn;
    }
}

/// `new` is `old` after the offered trade is cancelled: it is cleared and the turn player goes on.
pub open spec fn cancel_done(new: State, old: State) -> bool {
    &&& new == (State {
        current_trade: new.current_trade,
        acceptees: new.acceptees,
        is_resolving_trade: false,
        active_player: old.turn_player,
        current_prompt: ActionPrompt::PlayTurn,
        ..old
    })
    &&& forall|i: int| 0 <= i < 10 ==> #[trigger] new.current_trade@[i] == 0
    &&& forall|p: int| 0 <= p < PLAYER_COUNT ==> !#[trigger] new.acceptees@[p]
}

pub(crate) fn apply_cancel_trade(state: &mut State)
    ensures
        cancel_done(*final(state), *old(state)),
        totals_kept(*final(state), *old(state)),
{
    reset_trade_state(state);
    state.active_player = state.turn_player;
    state.current_prompt = ActionPrompt::PlayTurn;
}

/// The number of cards in `player`'s hand, as the byte that the game keeps.
pub open spec fn resource_total_byte(s: State, player: int) -> u8 {
    (hand_total(s, player) % 256) as u8
}

pub fn player_resource_total(state: &State, player: PlayerId) -> (total: u8)
    requires
        is_player(player),
    ensures
        total == resource_total_byte(*state, player as int),
{
    let hand = &state.player_resources[player as usize];
    let sum: u32 = hand[0] as u32 + hand[1] as u32 + hand[2] as u32 + hand[3] as u32 + hand[4] as u32;
    (sum % 256) as u8
}

/// The player can pay for a development card and the deck is not empty.
pub open spec fn may_buy_dev_card(s: State, player: PlayerId) -> bool {
    &&& s.dev_deck@.len() > 0
    &&& hand_at(s, player as int, resource_index(Resource::Wool)) >= 1
    &&& hand_at(s, player as int, resource_index(Resource::Grain)) >= 1
    &&& hand_at(s, player as int, resource_index(Resource::Ore)) >= 1
}

pub(crate) fn can_buy_dev_card(state: &State, player: PlayerId) -> (ok: bool)
    requires
        is_player(player),
    ensures
        ok == may_buy_dev_card(*state, player),
{
    if state.dev_deck.is_empty() {
        return false;
    }
    let hand = &state.player_resources[player as usize];
    hand[Resource::Wool.as_index()] >= 1 && hand[Resource::Grain.as_index()] >= 1 && hand[Resource::Ore.as_index()] >= 1
}

/// Every development card count is below 255, so one more fits.
pub open spec fn dev_counts_below_max(s: State) -> bool {
    forall|p: int, c: int|
        0 <= p < PLAYER_COUNT && 0 <= c < DEV_CARD_COUNT ==> {
            &&& #[trigger] s.dev_cards_in_hand@[p]@[c] < 255
            &&& s.dev_cards_played@[p]@[c] < 255
        }
}

/// `new` is `old` after `player` pays for the development card on top of the deck, `card`, and takes it.
pub open spec fn dev_card_bought(new: State, old: State, player: PlayerId, card: DevCard) -> bool {
    &&& card == old.dev_deck@.last()
    &&& new.dev_deck@ == old.dev_deck@.drop_last()
    &&& new.dev_deck.slots() == old.dev_deck.slots()
    &&& new.dev_deck.wf()
    &&& new.dev_cards_in_hand == set2(
        old.dev_cards_in_hand,
        player as int,
        dev_card_index(card),
        (old.dev_cards_in_hand@[player as int]@[dev_card_index(card)] + 1) as u8,
    )
    &&& cost_paid(
        State { dev_deck: old.dev_deck, dev_cards_in_hand: old.dev_cards_in_hand, ..new },
        old,
        player as int,
        DEV_CARD_COST,
    )
}

pub(crate) fn buy_dev_card(state: &mut State, player: PlayerId) -> (card: DevCard)
    requires
        is_player(player),
        resources_bounded(*old(state)),
        may_buy_dev_card(*old(state), player),
        dev_counts_below_max(*old(state)),
    ensures
        dev_card_bought(*final(state), *old(state), player, card),
        resources_bounded(*final(state)),
        totals_kept(*final(state), *old(state)),
{
    proof {
        assert forall|r: int| 0 <= r < RESOURCE_COUNT implies #[trigger] hand_at(*old(state), player as int, r) >= DEV_CARD_COST@[r] by {
            if r == 2 {
                assert(resource_index(Resource::Ore) == 2);
            } else if r == 3 {
                assert(resource_index(Resource::Grain) == 3);
            } else if r == 4 {
                assert(resource_index(Resource::Wool) == 4);
            }
        }
    }
    let cost = DEV_CARD_COST;
    pay_cost(state, player, &cost);
    let ghost paid = *state;
    let card = match state.dev_deck.pop() {
        Some(card) => card,
        None => DevCard::Knight,
    };
    let idx = card.as_index();
    state.dev_cards_in_hand[player as usize][idx] += 1;
    proof {
        let o = *old(state);
        assert(state.dev_cards_in_hand@[player as int] =~= spec_array_update(o.dev_cards_in_hand@[player as int], idx as int, (o.dev_cards_in_hand@[player as int]@[idx as int] + 1) as u8));
        assert(state.dev_cards_in_hand =~= set2(o.dev_cards_in_hand, player as int, idx as int, (o.dev_cards_in_hand@[player as int]@[idx as int] + 1) as u8));
        assert((State { dev_deck: o.dev_deck, dev_cards_in_hand: o.dev_cards_in_hand, ..*state }) =~= paid);
        assert(state.player_resources == paid.player_resources);
        assert(state.bank_resources == paid.bank_resources);
        assert forall|r: int| 0 <= r < RESOURCE_COUNT implies #[trigger] resource_total(*state, r) == resource_total(o, r) by {
            assert(hand_at(paid, 0, r) == hand_at(o, 0, r) - if 0 == player { DEV_CARD_COST@[r] as int } else { 0 });
            assert(hand_at(paid, 1, r) == hand_at(o, 1, r) - if 1 == player { DEV_CARD_COST@[r] as int } else { 0 });
            assert(hand_at(paid, 2, r) == hand_at(o, 2, r) - if 2 == player { DEV_CARD_COST@[r] as int } else { 0 });
            assert(hand_at(paid, 3, r) == hand_at(o, 3, r) - if 3 == player { DEV_CARD_COST@[r] as int } else { 0 });
            assert(bank_at(paid, r) == bank_at(o, r) + DEV_CARD_COST@[r]);
            assert(resource_total(*state, r) == resource_total(paid, r));
        }
    }
    card
}

/// The state after `player` draws one card of resource index `r` from the bank, if the bank has one.
pub open spec fn bank_draw(s: State, player: int, r: int) -> State {
    if s.bank_resources@[r] > 0 {
        s.with_player_resource(player, r, (s.player_resources@[player]@[r] + 1) as u8).with_bank_resource(
            r,
            (s.bank_resources@[r] - 1) as u8,
        )
    } else {
        s
    }
}

/// Drawing from the bank keeps the number of cards of every resource.
proof fn lemma_bank_draw_totals(s: State, player: int, r: int)
    requires
        0 <= player < PLAYER_COUNT,
        0 <= r < RESOURCE_COUNT,
        s.player_resources@[player]@[r] < 255,
    ensures
        forall|k: int| 0 <= k < RESOURCE_COUNT ==> #[trigger] resource_total(bank_draw(s, player, r), k) == resource_total(s, k),
        bank_draw(s, player, r) == (State {
            player_resources: bank_draw(s, player, r).player_resources,
            bank_resources: bank_draw(s, player, r).bank_resources,
            ..s
        }),
{
    if s.bank_resources@[r] > 0 {
        let mid = s.with_player_resource(player, r, (s.player_resources@[player]@[r] + 1) as u8);
        lemma_with_player_resource(s, player, r, (s.player_resources@[player]@[r] + 1) as u8);
        lemma_with_bank_resource(mid, r, (s.bank_resources@[r] - 1) as u8);
        assert forall|k: int| 0 <= k < RESOURCE_COUNT implies #[trigger] resource_total(bank_draw(s, player, r), k) == resource_total(s, k) by {
            let t = bank_draw(s, player, r);
            assert(t.player_resources == mid.player_resources);
            assert(t.player_resources@[0]@[k] == mid.player_resources@[0]@[k]);
        }
    }
}

/// Draws one card of `resource` from the bank into `player`'s hand, if the bank has one.
pub(crate) fn draw_from_bank(state: &mut State, player: PlayerId, resource: Resource)
    requires
        is_player(player),
        resources_bounded(*old(state)),
    ensures
        *final(state) == bank_draw(*old(state), player as int, resource_index(resource)),
        resources_bounded(*final(state)),
        totals_kept(*final(state), *old(state)),
{
    let ghost o = *state;
    let ghost ri = resource_index(resource);
    proof {
        assert(resource_total(o, ri) <= 127);
        assert(o.player_resources@[player as int]@[ri] <= resource_total(o, ri));
        lemma_bank_draw_totals(o, player as int, ri);
    }
    if state.bank_resources[resource.as_index()] > 0 {
        state.adjust_resource_kernel(player, resource, 1);
        state.adjust_bank_kernel(resource, -1);
    }
    proof {
        assert forall|k: int| 0 <= k < RESOURCE_COUNT implies #[trigger] resource_total(*state, k) <= 127 by {
            assert(resource_total(*state, k) == resource_total(o, k));
        }
    }
}

/// The hands and bank after a year of plenty: a draw of `first`, then of `second` if one is named.
pub open spec fn plenty_drawn(s: State, player: int, first: Resource, second: Option<Resource>) -> State {
    let after_first = bank_draw(s, player, resource_index(first));
    match second {
        Some(r) => bank_draw(after_first, player, resource_index(r)),
        None => after_first,
    }
}

pub(crate) fn apply_year_of_plenty(state: &mut State, first: Resource, second: Option<Resource>)
    requires
        is_player(old(state).turn_player),
        resources_bounded(*old(state)),
        dev_counts_below_max(*old(state)),
    ensures
        *final(state) == dev_marked_played(
            plenty_drawn(*old(state), old(state).turn_player as int, first, second),
            old(state).turn_player as int,
            DevCard::YearOfPlenty,
        ),
        resources_bounded(*final(state)),
        totals_kept(*final(state), *old(state)),
{
    let tp = state.turn_player;
    draw_from_bank(state, tp, first);
    if let Some(second) = second {
        draw_from_bank(state, tp, second);
    }
    let ghost drawn = *state;
    mark_dev_played(state, tp, DevCard::YearOfPlenty);
    proof {
        assert(state.player_resources == drawn.player_resources);
        assert(state.bank_resources == drawn.bank_resources);
        assert forall|r: int| 0 <= r < RESOURCE_COUNT implies #[trigger] resource_total(*state, r) <= 127 by {
            assert(resource_total(*state, r) == resource_total(drawn, r));
        }
    }
}

/// Takes every card of `resource` out of `player`'s hand and returns how many there were.
fn take_all(state: &mut State, player: PlayerId, resource: Resource) -> (count: u8)
    requires
        is_player(player),
        hand_at(*old(state), player as int, resource_index(resource)) <= 127,
    ensures
        count as int == hand_at(*old(state), player as int, resource_index(resource)),
        *final(state) == (State { player_resources: final(state).player_resources, ..*old(state) }),
        forall|q: int, k: int|
            0 <= q < PLAYER_COUNT && 0 <= k < RESOURCE_COUNT ==> #[trigger] hand_at(*final(state), q, k) == if q == player
                && k == resource_index(resource) {
                0
            } else {
                hand_at(*old(state), q, k)
            },
{
    let count = state.player_resources[player as usize][resource.as_index()];
    if count > 0 {
        state.adjust_resource_kernel(player, resource, -(count as i8));
        proof {
            assert forall|q: int, k: int|
                0 <= q < PLAYER_COUNT && 0 <= k < RESOURCE_COUNT implies #[trigger] hand_at(*state, q, k) == if q == player
                    && k == resource_index(resource) {
                    0
                } else {
                    hand_at(*old(state), q, k)
                } by {
                assert(state.player_resources@[q]@[k] == hand_at(*state, q, k));
                assert(old(state).player_resources@[q]@[k] == hand_at(*old(state), q, k));
            }
        }
    }
    count
}

/// Gathering every card of resource index `ri` into `player`'s hand keeps the totals.
proof fn lemma_monopoly_totals(o: State, taken: State, player: int, ri: int)
    requires
        0 <= player < PLAYER_COUNT,
        0 <= ri < RESOURCE_COUNT,
        resources_bounded(o),
        taken.bank_resources == o.bank_resources,
        forall|q: int, k: int|
            0 <= q < PLAYER_COUNT && 0 <= k < RESOURCE_COUNT ==> #[trigger] hand_at(taken, q, k) == if k != ri {
                hand_at(o, q, k)
            } else if q == player {
                resource_total(o, ri) - bank_at(o, ri)
            } else {
                0
            },
    ensures
        resources_bounded(taken),
        totals_kept(taken, o),
{
    assert forall|r: int| 0 <= r < RESOURCE_COUNT implies #[trigger] resource_total(taken, r) == resource_total(o, r) by {
        assert(hand_at(taken, 0, r) == if r != ri { hand_at(o, 0, r) } else if player == 0 { resource_total(o, ri) - bank_at(o, ri) } else { 0 });
        assert(hand_at(taken, 1, r) == if r != ri { hand_at(o, 1, r) } else if player == 1 { resource_total(o, ri) - bank_at(o, ri) } else { 0 });
        assert(hand_at(taken, 2, r) == if r != ri { hand_at(o, 2, r) } else if player == 2 { resource_total(o, ri) - bank_at(o, ri) } else { 0 });
        assert(hand_at(taken, 3, r) == if r != ri { hand_at(o, 3, r) } else if player == 3 { resource_total(o, ri) - bank_at(o, ri) } else { 0 });
        assert(resource_total(taken, r) == hand_at(taken, 0, r) + hand_at(taken, 1, r) + hand_at(taken, 2, r) + hand_at(taken, 3, r) + bank_at(taken, r));
        assert(resource_total(o, r) == hand_at(o, 0, r) + hand_at(o, 1, r) + hand_at(o, 2, r) + hand_at(o, 3, r) + bank_at(o, r));
    }
}

/// The hands after every other player's cards of resource index `ri` go to `player`.
pub open spec fn monopoly_hands_hold(new: State, o: State, player: int, ri: int) -> bool {
    forall|q: int, k: int|
        0 <= q < PLAYER_COUNT && 0 <= k < RESOURCE_COUNT ==> #[trigger] hand_at(new, q, k) == if k != ri {
            hand_at(o, q, k)
        } else if q == player {
            resource_total(o, ri) - bank_at(o, ri)
        } else {
            0
        }
}

/// Takes every other player's cards of `resource` out of their hands and returns how many.
fn collect_from_others(state: &mut State, player: PlayerId, resource: Resource) -> (total: u8)
    requires
        is_player(player),
        resources_bounded(*old(state)),
    ensures
        *final(state) == (State { player_resources: final(state).player_resources, ..*old(state) }),
        hand_at(*old(state), player as int, resource_index(resource)) + total == resource_total(*old(state), resource_index(resource))
            - bank_at(*old(state), resource_index(resource)),
        forall|q: int, k: int|
            0 <= q < PLAYER_COUNT && 0 <= k < RESOURCE_COUNT ==> #[trigger] hand_at(*final(state), q, k) == if k == resource_index(resource)
                && q != player {
                0
            } else {
                hand_at(*old(state), q, k)
            },
{
    let ghost o = *state;
    let ghost ri = resource_index(resource);
    let mut total: u8 = 0;
    let mut other: usize = 0;
    proof {
        assert(resource_total(o, ri) <= 127);
    }
    while other < PLAYER_COUNT
        invariant
            other <= PLAYER_COUNT,
            is_player(player),
            ri == resource_index(resource),
            resource_total(o, ri) <= 127,
            *state == (State { player_resources: state.player_resources, ..o }),
            total as int == (if 0 < other && player != 0 { hand_at(o, 0, ri) } else { 0 })
                + (if 1 < other && player != 1 { hand_at(o, 1, ri) } else { 0 })
                + (if 2 < other && player != 2 { hand_at(o, 2, ri) } else { 0 })
                + (if 3 < other && player != 3 { hand_at(o, 3, ri) } else { 0 }),
            forall|q: int, k: int|
                0 <= q < PLAYER_COUNT && 0 <= k < RESOURCE_COUNT ==> #[trigger] hand_at(*state, q, k) == if k == ri && q < other
                    && q != player {
                    0
                } else {
                    hand_at(o, q, k)
                },
        decreases PLAYER_COUNT - other,
    {
        if other as u8 != player {
            proof {
                assert(hand_at(*state, other as int, ri) == hand_at(o, other as int, ri));
                assert(hand_at(o, 0, ri) + hand_at(o, 1, ri) + hand_at(o, 2, ri) + hand_at(o, 3, ri) + bank_at(o, ri) <= 127);
            }
            let count = take_all(state, other as u8, resource);
            total += count;
        }
        other = other + 1;
    }
    proof {
        assert(hand_at(o, 0, ri) + hand_at(o, 1, ri) + hand_at(o, 2, ri) + hand_at(o, 3, ri) + bank_at(o, ri) == resource_total(o, ri));
    }
    total
}

/// `new` is `old` after the turn player plays a monopoly on `resource` and takes every other player's cards of it.
pub open spec fn monopoly_done(new: State, old: State, resource: Resource) -> bool {
    &&& new == dev_marked_played(
        State { player_resources: new.player_resources, ..old },
        old.turn_player as int,
        DevCard::Monopoly,
    )
    &&& monopoly_hands_hold(new, old, old.turn_player as int, resource_index(resource))
}

pub(crate) fn apply_monopoly(state: &mut State, resource: Resource)
    requires
        is_player(old(state).turn_player),
        resources_bounded(*old(state)),
        dev_counts_below_max(*old(state)),
    ensures
        monopoly_done(*final(state), *old(state), resource),
        resources_bounded(*final(state)),
        totals_kept(*final(state), *old(state)),
{
    let ghost o = *state;
    let ghost ri = resource_index(resource);
    let tp = state.turn_player;
    let total = collect_from_others(state, tp, resource);
    let ghost collected = *state;
    proof {
        assert(hand_at(collected, tp as int, ri) == hand_at(o, tp as int, ri));
    }
    if total > 0 {
        state.adjust_resource_kernel(tp, resource, total as i8);
        proof {
            assert forall|q: int, k: int|
                0 <= q < PLAYER_COUNT && 0 <= k < RESOURCE_COUNT implies #[trigger] hand_at(*state, q, k) == hand_at(collected, q, k)
                    + if q == tp && k == ri { total as int } else { 0 } by {
                assert(state.player_resources@[q]@[k] == hand_at(*state, q, k));
                assert(collected.player_resources@[q]@[k] == hand_at(collected, q, k));
            }
        }
    }
    let ghost taken = *state;
    proof {
        assert forall|q: int, k: int|
            0 <= q < PLAYER_COUNT && 0 <= k < RESOURCE_COUNT implies #[trigger] hand_at(taken, q, k) == if k != ri {
                hand_at(o, q, k)
            } else if q == tp {
                resource_total(o, ri) - bank_at(o, ri)
            } else {
                0
            } by {
            assert(hand_at(collected, q, k) == if k == ri && q != tp { 0 } else { hand_at(o, q, k) });
        }
        assert(taken == (State { player_resources: taken.player_resources, ..o }));
        lemma_monopoly_totals(o, taken, tp as int, ri);
        assert(o.dev_cards_in_hand@[tp as int]@[dev_card_index(DevCard::Monopoly)] < 255);
    }
    mark_dev_played(state, tp, DevCard::Monopoly);
    proof {
        assert(state.player_resources == taken.player_resources);
        assert(state.bank_resources == taken.bank_resources);
        assert forall|r: int| 0 <= r < RESOURCE_COUNT implies #[trigger] resource_total(*state, r) == resource_total(o, r) by {
            assert(resource_total(*state, r) == resource_total(taken, r));
        }
        assert forall|q: int, k: int|
            0 <= q < PLAYER_COUNT && 0 <= k < RESOURCE_COUNT implies #[trigger] hand_at(*state, q, k) == hand_at(taken, q, k) by {
        }
    }
}

pub(crate) fn apply_road_building(state: &mut State)
    requires
        is_player(old(state).turn_player),
        dev_counts_below_max(*old(state)),
    ensures
        *final(state) == (State {
            is_road_building: true,
            free_roads_available: 2,
            ..dev_marked_played(*old(state), old(state).turn_player as int, DevCard::RoadBuilding)
        }),
        totals_kept(*final(state), *old(state)),
{
    mark_dev_played(state, state.turn_player, DevCard::RoadBuilding);
    state.is_road_building = true;
    state.free_roads_available = 2;
}

impl ArmyState {
    /// The holder, if any, is a player.
    pub open spec fn wf(&self) -> bool {
        self.owner_view() matches Some(p) ==> is_player(p)
    }
}

impl RoadState {
    /// The holder, if any, is a player.
    pub open spec fn wf(&self) -> bool {
        self.owner_view() matches Some(p) ==> is_player(p)
    }
}

/// The largest army after `player` plays a knight, giving `candidate` knights: the holder's size follows its knights;
/// another player takes the card with three or more knights, when there is no holder or it beats the holder's `previous_size`.
pub open spec fn army_after(army: ArmyState, player: PlayerId, candidate: u8, previous_owner: Option<PlayerId>, previous_size: u8) -> (Option<PlayerId>, u8) {
    if previous_owner == Some(player) {
        (army.owner_view(), candidate)
    } else if candidate < 3 {
        (army.owner_view(), army.size_view())
    } else {
        match previous_owner {
            None => (Some(player), candidate),
            Some(_) => if candidate > previous_size {
                (Some(player), candidate)
            } else {
                (army.owner_view(), army.size_view())
            },
        }
    }
}

/// The Largest Army card goes only to three or more knights: after `player` plays a knight, bringing its knights
/// to `candidate`, the card changes hands (or is first given) only to `player`, only with at least three knights
/// and, when someone held it, more than the holder's army; the card's size is then `candidate`.
pub proof fn lemma_largest_army_needs_three(
    army: ArmyState,
    player: PlayerId,
    candidate: u8,
    previous_owner: Option<PlayerId>,
    previous_size: u8,
)
    requires
        previous_owner == army.owner_view(),
    ensures
        army_after(army, player, candidate, previous_owner, previous_size).0 != army.owner_view() ==> {
            &&& army_after(army, player, candidate, previous_owner, previous_size).0 == Some(player)
            &&& candidate >= 3
            &&& previous_owner is Some ==> candidate > previous_size
            &&& army_after(army, player, candidate, previous_owner, previous_size).1 == candidate
        },
        candidate < 3 && previous_owner != Some(player) ==> army_after(army, player, candidate, previous_owner, previous_size)
            == (army.owner_view(), army.size_view()),
{
}

/// After a knight, a new holder of the Largest Army card is the turn player with at least three knights played.
pub proof fn lemma_knight_army_needs_three(new: State, old: State, new_army: ArmyState, old_army: ArmyState)
    requires
        knight_done(new, old, new_army, old_army),
    ensures
        new_army.owner_view() != old_army.owner_view() ==> new_army.owner_view() == Some(old.turn_player)
            && new.dev_cards_played@[old.turn_player as int]@[dev_card_index(DevCard::Knight)] >= 3,
{
    let candidate = new.dev_cards_played@[old.turn_player as int]@[dev_card_index(DevCard::Knight)];
    let previous_size = match old_army.owner_view() {
        Some(owner) => old.dev_cards_played@[owner as int]@[dev_card_index(DevCard::Knight)],
        None => 0,
    };
    lemma_largest_army_needs_three(old_army, old.turn_player, candidate, old_army.owner_view(), previous_size);
}

fn update_largest_army(state: &State, army_state: &mut ArmyState, player: PlayerId, previous_owner: Option<PlayerId>, previous_size: u8)
    requires
        is_player(player),
    ensures
        (final(army_state).owner_view(), final(army_state).size_view()) == army_after(
            *old(army_state),
            player,
            state.dev_cards_played@[player as int]@[dev_card_index(DevCard::Knight)],
            previous_owner,
            previous_size,
        ),
        previous_owner == old(army_state).owner_view() && final(army_state).owner_view() != old(army_state).owner_view()
            ==> final(army_state).owner_view() == Some(player) && state.dev_cards_played@[player as int]@[dev_card_index(
            DevCard::Knight,
        )] >= 3,
{
    let candidate_size = state.dev_cards_played[player as usize][DevCard::Knight.as_index()];
    if previous_owner == Some(player) {
        army_state.size = candidate_size;
        return;
    }
    if candidate_size < 3 {
        return;
    }
    match previous_owner {
        None => {
            army_state.owner = Some(player);
            army_state.size = candidate_size;
        },
        Some(_) => {
            if candidate_size > previous_size {
                army_state.owner = Some(player);
                army_state.size = candidate_size;
            }
        },
    }
}

/// `new` is `old` after the turn player plays a knight, and the largest-army standing takes the new army size.
pub open spec fn knight_done(new: State, old: State, new_army: ArmyState, old_army: ArmyState) -> bool {
    &&& new == dev_marked_played(old, old.turn_player as int, DevCard::Knight)
    &&& (new_army.owner_view(), new_army.size_view()) == army_after(
        old_army,
        old.turn_player,
        new.dev_cards_played@[old.turn_player as int]@[dev_card_index(DevCard::Knight)],
        old_army.owner_view(),
        match old_army.owner_view() {
            Some(owner) => old.dev_cards_played@[owner as int]@[dev_card_index(DevCard::Knight)],
            None => 0,
        },
    )
}

pub(crate) fn apply_knight(state: &mut State, army_state: &mut ArmyState)
    requires
        is_player(old(state).turn_player),
        dev_counts_below_max(*old(state)),
        old(army_state).wf(),
    ensures
        knight_done(*final(state), *old(state), *final(army_state), *old(army_state)),
        final(army_state).wf(),
        totals_kept(*final(state), *old(state)),
{
    let player = state.turn_player;
    let previous_owner = army_state.owner;
    let previous_size = match previous_owner {
        Some(owner) => state.dev_cards_played[owner as usize][DevCard::Knight.as_index()],
        None => 0,
    };
    proof {
        assert(state.dev_cards_in_hand@[player as int]@[dev_card_index(DevCard::Knight)] < 255);
    }
    mark_dev_played(state, player, DevCard::Knight);
    update_largest_army(state, army_state, player, previous_owner, previous_size);
}

/// `new` is `old` after `player` gives `rate` cards of `offer` to the bank for one card of `ask`.
pub open spec fn maritime_done(new: State, old: State, player: PlayerId, offer: Resource, rate: u8, ask: Resource) -> bool {
    &&& only_resources_changed(new, old)
    &&& forall|q: int, k: int|
        0 <= q < PLAYER_COUNT && 0 <= k < RESOURCE_COUNT ==> #[trigger] hand_at(new, q, k) == hand_at(old, q, k)
            - (if q == player && k == resource_index(offer) { rate as int } else { 0 })
            + (if q == player && k == resource_index(ask) { 1int } else { 0 })
    &&& forall|k: int|
        0 <= k < RESOURCE_COUNT ==> #[trigger] bank_at(new, k) == bank_at(old, k)
            + (if k == resource_index(offer) { rate as int } else { 0 })
            - (if k == resource_index(ask) { 1int } else { 0 })
}

pub(crate) fn apply_maritime_trade(state: &mut State, player: PlayerId, offer: Resource, rate: u8, ask: Resource)
    requires
        is_player(player),
        resources_bounded(*old(state)),
        rate <= 127,
        hand_at(*old(state), player as int, resource_index(offer)) >= rate,
        bank_at(*old(state), resource_index(ask)) + (if offer == ask { rate as int } else { 0 }) >= 1,
    ensures
        maritime_done(*final(state), *old(state), player, offer, rate, ask),
        resources_bounded(*final(state)),
        totals_kept(*final(state), *old(state)),
{
    let ghost o = *state;
    proof {
        assert(resource_total(o, resource_index(offer)) <= 127);
        assert(resource_total(o, resource_index(ask)) <= 127);
    }
    move_with_bank(state, player, offer, rate, true);
    move_with_bank(state, player, ask, 1, false);
    proof {
        assert forall|r: int| 0 <= r < RESOURCE_COUNT implies #[trigger] resource_total(*state, r) <= 127 by {
            assert(resource_total(*state, r) == resource_total(o, r));
        }
    }
}


/// `counts` moved card by card from `from`'s hand to `to`'s hand; the bank and all else unchanged.
pub open spec fn counts_moved(new: State, old: State, from: int, to: int, counts: [u8; RESOURCE_COUNT]) -> bool {
    &&& only_resources_changed(new, old)
    &&& forall|k: int| 0 <= k < RESOURCE_COUNT ==> #[trigger] bank_at(new, k) == bank_at(old, k)
    &&& forall|q: int, k: int|
        0 <= q < PLAYER_COUNT && 0 <= k < RESOURCE_COUNT ==> #[trigger] hand_at(new, q, k) == hand_at(old, q, k)
            + (if q == to { counts@[k] as int } else { 0 }) - (if q == from { counts@[k] as int } else { 0 })
}

/// Moves every count of `counts` from `from`'s hand to `to`'s hand.
fn transfer_counts(state: &mut State, from: PlayerId, to: PlayerId, counts: &[u8; RESOURCE_COUNT])
    requires
        is_player(from),
        is_player(to),
        resources_bounded(*old(state)),
        forall|k: int| 0 <= k < RESOURCE_COUNT ==> #[trigger] hand_at(*old(state), from as int, k) >= counts@[k],
    ensures
        counts_moved(*final(state), *old(state), from as int, to as int, *counts),
        resources_bounded(*final(state)),
        forall|r: int| 0 <= r < RESOURCE_COUNT ==> #[trigger] resource_total(*final(state), r) == resource_total(*old(state), r),
{
    let ghost o = *state;
    let mut idx: usize = 0;
    while idx < RESOURCE_COUNT
        invariant
            idx <= RESOURCE_COUNT,
            is_player(from),
            is_player(to),
            resources_bounded(o),
            forall|k: int| 0 <= k < RESOURCE_COUNT ==> #[trigger] hand_at(o, from as int, k) >= counts@[k],
            only_resources_changed(*state, o),
            forall|k: int| 0 <= k < RESOURCE_COUNT ==> #[trigger] bank_at(*state, k) == bank_at(o, k),
            forall|r: int| 0 <= r < RESOURCE_COUNT ==> #[trigger] resource_total(*state, r) == resource_total(o, r),
            forall|q: int, k: int|
                0 <= q < PLAYER_COUNT && 0 <= k < RESOURCE_COUNT ==> #[trigger] hand_at(*state, q, k) == hand_at(o, q, k)
                    + (if q == to && k < idx { counts@[k] as int } else { 0 }) - (if q == from && k < idx { counts@[k] as int } else { 0 }),
        decreases RESOURCE_COUNT - idx,
    {
        let amount = counts[idx];
        if amount != 0 {
            let resource = Resource::from_index(idx).unwrap();
            proof {
                assert(resource_total(o, idx as int) <= 127);
                assert(hand_at(*state, from as int, idx as int) == hand_at(o, from as int, idx as int));
                assert(hand_at(*state, to as int, idx as int) <= resource_total(*state, idx as int));
                assert(resource_total(*state, idx as int) == hand_at(*state, 0, idx as int) + hand_at(*state, 1, idx as int)
                    + hand_at(*state, 2, idx as int) + hand_at(*state, 3, idx as int) + bank_at(*state, idx as int));
            }
            move_between_hands(state, from, to, resource, amount);
        }
        idx = idx + 1;
    }
    proof {
        assert forall|r: int| 0 <= r < RESOURCE_COUNT implies #[trigger] resource_total(*state, r) <= 127 by {
            assert(resource_total(o, r) <= 127);
        }
    }
}

/// The offered half of a trade: the counts the offering player gives.
pub open spec fn trade_offer(trade: [u8; 10]) -> [u8; RESOURCE_COUNT] {
    [trade@[0], trade@[1], trade@[2], trade@[3], trade@[4]]
}

/// The asked half of a trade: the counts the offering player receives.
pub open spec fn trade_ask(trade: [u8; 10]) -> [u8; RESOURCE_COUNT] {
    [trade@[5], trade@[6], trade@[7], trade@[8], trade@[9]]
}

fn split_trade(trade: &[u8; 10]) -> (halves: ([u8; RESOURCE_COUNT], [u8; RESOURCE_COUNT]))
    ensures
        halves.0 == trade_offer(*trade),
        halves.1 == trade_ask(*trade),
{
    let offer = [trade[0], trade[1], trade[2], trade[3], trade[4]];
    let ask = [trade[5], trade[6], trade[7], trade[8], trade[9]];
    proof {
        assert(offer@ =~= trade_offer(*trade)@);
        assert(ask@ =~= trade_ask(*trade)@);
    }
    (offer, ask)
}

/// The offering player holds what it offers, and `partner` holds what the trade asks.
pub open spec fn trade_covered(s: State, partner: PlayerId) -> bool {
    &&& forall|k: int| 0 <= k < RESOURCE_COUNT ==> #[trigger] hand_at(s, s.trade_offering_player as int, k) >= s.current_trade@[k]
    &&& forall|k: int| 0 <= k < RESOURCE_COUNT ==> #[trigger] hand_at(s, partner as int, k) >= s.current_trade@[RESOURCE_COUNT + k]
}

/// The state after a trade is settled or dropped: no trade on the table, and the turn player to act.
pub open spec fn trade_closed(new: State, old: State) -> bool {
    &&& new == (State {
        player_resources: new.player_resources,
        current_trade: new.current_trade,
        acceptees: new.acceptees,
        is_resolving_trade: false,
        active_player: old.turn_player,
        current_prompt: ActionPrompt::PlayTurn,
        ..old
    })
    &&& forall|i: int| 0 <= i < 10 ==> #[trigger] new.current_trade@[i] == 0
    &&& forall|p: int| 0 <= p < PLAYER_COUNT ==> !#[trigger] new.acceptees@[p]
}

/// `new` is `old` after the offered trade is made with `partner` and closed.
pub open spec fn confirm_done(new: State, old: State, partner: PlayerId) -> bool {
    &&& trade_closed(new, old)
    &&& forall|q: int, k: int|
        0 <= q < PLAYER_COUNT && 0 <= k < RESOURCE_COUNT ==> #[trigger] hand_at(new, q, k) == hand_at(old, q, k)
            + (if q == partner { old.current_trade@[k] - old.current_trade@[RESOURCE_COUNT + k] } else { 0 })
            + (if q == old.trade_offering_player {
                old.current_trade@[RESOURCE_COUNT + k] - old.current_trade@[k]
            } else {
                0
            })
}

pub(crate) fn apply_confirm_trade(state: &mut State, partner: PlayerId)
    requires
        is_player(partner),
        is_player(old(state).trade_offering_player),
        resources_bounded(*old(state)),
        trade_covered(*old(state), partner),
    ensures
        confirm_done(*final(state), *old(state), partner),
        resources_bounded(*final(state)),
        forall|r: int| 0 <= r < RESOURCE_COUNT ==> #[trigger] resource_total(*final(state), r) == resource_total(*old(state), r),
{
    let ghost o = *state;
    let offering = state.trade_offering_player;
    let (offer, ask) = split_trade(&state.current_trade);
    proof {
        assert forall|k: int| 0 <= k < RESOURCE_COUNT implies #[trigger] hand_at(o, offering as int, k) >= offer@[k] by {
            assert(offer@[k] == o.current_trade@[k]);
        }
    }
    transfer_counts(state, offering, partner, &offer);
    let ghost mid = *state;
    proof {
        assert forall|k: int| 0 <= k < RESOURCE_COUNT implies #[trigger] hand_at(mid, partner as int, k) >= ask@[k] by {
            assert(ask@[k] == o.current_trade@[RESOURCE_COUNT + k]);
            assert(hand_at(o, partner as int, k) >= o.current_trade@[RESOURCE_COUNT + k]);
        }
    }
    transfer_counts(state, partner, offering, &ask);
    let ghost swapped = *state;
    proof {
        assert forall|q: int, k: int|
            0 <= q < PLAYER_COUNT && 0 <= k < RESOURCE_COUNT implies #[trigger] hand_at(swapped, q, k) == hand_at(o, q, k)
                + (if q == partner { o.current_trade@[k] - o.current_trade@[RESOURCE_COUNT + k] } else { 0 })
                + (if q == offering { o.current_trade@[RESOURCE_COUNT + k] - o.current_trade@[k] } else { 0 }) by {
            assert(offer@[k] == o.current_trade@[k]);
            assert(ask@[k] == o.current_trade@[RESOURCE_COUNT + k]);
            assert(hand_at(mid, q, k) == hand_at(o, q, k) + (if q == partner { offer@[k] as int } else { 0 })
                - (if q == offering { offer@[k] as int } else { 0 }));
        }
    }
    proof {
        assert forall|k: int| 0 <= k < RESOURCE_COUNT implies #[trigger] swapped.bank_resources@[k] == o.bank_resources@[k] by {
            assert(bank_at(swapped, k) == bank_at(mid, k));
            assert(bank_at(mid, k) == bank_at(o, k));
        }
        assert(swapped.bank_resources =~= o.bank_resources);
    }
    reset_trade_state(state);
    state.active_player = state.turn_player;
    state.current_prompt = ActionPrompt::PlayTurn;
    proof {
        assert(state.player_resources == swapped.player_resources);
        assert(state.bank_resources == swapped.bank_resources);
        assert forall|r: int| 0 <= r < RESOURCE_COUNT implies #[trigger] resource_total(*state, r) == resource_total(o, r) by {
            assert(resource_total(*state, r) == resource_total(swapped, r));
            assert(resource_total(mid, r) == resource_total(o, r));
        }
        assert forall|q: int, k: int|
            0 <= q < PLAYER_COUNT && 0 <= k < RESOURCE_COUNT implies #[trigger] hand_at(*state, q, k) == hand_at(swapped, q, k) by {
        }
    }
}

/// `player` holds more than seven cards and discards half when a seven is rolled.
pub open spec fn must_discard(s: State, player: int) -> bool {
    resource_total_byte(s, player) > 7
}

/// The first seat after `current` that must discard, if any.
pub open spec fn spec_next_discarder_after(s: State, current: int) -> Option<PlayerId> {
    if current < 0 && must_discard(s, 0) {
        Some(0u8)
    } else if current < 1 && must_discard(s, 1) {
        Some(1u8)
    } else if current < 2 && must_discard(s, 2) {
        Some(2u8)
    } else if current < 3 && must_discard(s, 3) {
        Some(3u8)
    } else {
        None
    }
}

fn next_discarder_after(state: &State, current: PlayerId) -> (next: Option<PlayerId>)
    ensures
        next == spec_next_discarder_after(*state, current as int),
{
    let mut idx: usize = current as usize + 1;
    while idx < PLAYER_COUNT
        invariant
            current < idx,
            forall|p: int| current < p < idx && p < PLAYER_COUNT ==> !#[trigger] must_discard(*state, p),
        decreases PLAYER_COUNT - idx,
    {
        if player_resource_total(state, idx as u8) > 7 {
            return Some(idx as u8);
        }
        idx = idx + 1;
    }
    None
}

/// The first seat that must discard, or the turn player when none must.
pub open spec fn spec_first_discarder(s: State) -> PlayerId {
    match spec_next_discarder_after(s, -1) {
        Some(p) => p,
        None => s.turn_player,
    }
}

fn first_discarder(state: &State) -> (first: PlayerId)
    ensures
        first == spec_first_discarder(*state),
{
    let mut idx: usize = 0;
    while idx < PLAYER_COUNT
        invariant
            forall|p: int| 0 <= p < idx && p < PLAYER_COUNT ==> !#[trigger] must_discard(*state, p),
        decreases PLAYER_COUNT - idx,
    {
        if player_resource_total(state, idx as u8) > 7 {
            return idx as u8;
        }
        idx = idx + 1;
    }
    state.turn_player
}

/// The state after the discarding player is done: the next discarder acts, or, when none is left,
/// the turn player moves the robber.
pub open spec fn after_discard(s: State, current: int) -> State {
    match spec_next_discarder_after(s, current) {
        Some(next) => State { active_player: next, ..s },
        None => State {
            active_player: s.turn_player,
            current_prompt: ActionPrompt::MoveRobber,
            is_discarding: false,
            is_moving_robber: true,
            ..s
        },
    }
}

/// `new` is `old` after `player` discards `counts` to the bank and the next player with too many cards is asked,
/// or, when none is left, the turn player moves the robber.
pub open spec fn discard_done(new: State, old: State, player: PlayerId, counts: [u8; RESOURCE_COUNT]) -> bool {
    let paid = State {
        player_resources: new.player_resources,
        bank_resources: new.bank_resources,
        ..old
    };
    &&& cost_paid(paid, old, player as int, counts)
    &&& new == after_discard(paid, old.active_player as int)
    
}

pub(crate) fn apply_discard(state: &mut State, player: PlayerId, counts: &[u8; RESOURCE_COUNT])
    requires
        is_player(player),
        resources_bounded(*old(state)),
        forall|r: int| 0 <= r < RESOURCE_COUNT ==> #[trigger] hand_at(*old(state), player as int, r) >= counts@[r],
    ensures
        discard_done(*final(state), *old(state), player, *counts),
        resources_bounded(*final(state)),
        forall|r: int| 0 <= r < RESOURCE_COUNT ==> #[trigger] resource_total(*final(state), r) == resource_total(*old(state), r),
{
    pay_cost(state, player, counts);
    let ghost paid = *state;
    if let Some(next) = next_discarder_after(state, state.active_player) {
        state.active_player = next;
    } else {
        state.active_player = state.turn_player;
        state.current_prompt = ActionPrompt::MoveRobber;
        state.is_discarding = false;
        state.is_moving_robber = true;
    }
    proof {
        assert(paid == (State { player_resources: state.player_resources, bank_resources: state.bank_resources, ..*old(state) }));
        assert forall|r: int| 0 <= r < RESOURCE_COUNT implies #[trigger] resource_total(*state, r) == resource_total(*old(state), r) by {
            assert(resource_total(*state, r) == resource_total(paid, r));
        }
    }
}

/// The state after the robber moves to `tile`: one card of `resource` passes from `victim` to the turn
/// player when both are named and the victim holds one, and play goes on.
pub open spec fn robber_moved(s: State, tile: TileId, victim: Option<PlayerId>, resource: Option<Resource>) -> State {
    let moved = s.with_robber(tile);
    let stolen = match (victim, resource) {
        (Some(v), Some(r)) => if moved.player_resources@[v as int]@[resource_index(r)] > 0 {
            let taken = moved.with_player_resource(v as int, resource_index(r), (moved.player_resources@[v as int]@[resource_index(r)] - 1) as u8);
            taken.with_player_resource(
                s.turn_player as int,
                resource_index(r),
                (taken.player_resources@[s.turn_player as int]@[resource_index(r)] + 1) as u8,
            )
        } else {
            moved
        },
        _ => moved,
    };
    State { current_prompt: ActionPrompt::PlayTurn, is_moving_robber: false, turn_phase: TurnPhase::Main, ..stolen }
}

pub(crate) fn apply_move_robber(state: &mut State, tile: TileId, victim: Option<PlayerId>, resource: Option<Resource>)
    requires
        is_player(old(state).turn_player),
        victim matches Some(v) ==> is_player(v),
        resources_bounded(*old(state)),
    ensures
        *final(state) == robber_moved(*old(state), tile, victim, resource),
        forall|r: int| 0 <= r < RESOURCE_COUNT ==> #[trigger] resource_total(*final(state), r) == resource_total(*old(state), r),
        resources_bounded(*final(state)),
{
    let ghost o = *state;
    state.move_robber_kernel(tile);
    proof {
        assert forall|r: int| 0 <= r < RESOURCE_COUNT implies #[trigger] resource_total(*state, r) == resource_total(o, r) by {
        }
    }
    if let (Some(victim), Some(resource)) = (victim, resource) {
        if state.player_resources[victim as usize][resource.as_index()] > 0 {
            proof {
                let ri = resource_index(resource);
                assert(resource_total(o, ri) <= 127);
                assert(hand_at(*state, victim as int, ri) == hand_at(o, victim as int, ri));
            }
            move_between_hands(state, victim, state.turn_player, resource, 1);
            proof {
                let ri = resource_index(resource);
                let moved = o.with_robber(tile);
                let taken = moved.with_player_resource(victim as int, ri, (moved.player_resources@[victim as int]@[ri] - 1) as u8);
                let given = taken.with_player_resource(
                    o.turn_player as int,
                    ri,
                    (taken.player_resources@[o.turn_player as int]@[ri] + 1) as u8,
                );
                lemma_with_player_resource(moved, victim as int, ri, (moved.player_resources@[victim as int]@[ri] - 1) as u8);
                lemma_with_player_resource(taken, o.turn_player as int, ri, (taken.player_resources@[o.turn_player as int]@[ri] + 1) as u8);
                assert forall|q: int| 0 <= q < PLAYER_COUNT implies #[trigger] state.player_resources@[q] =~= given.player_resources@[q] by {
                    assert forall|k: int| 0 <= k < RESOURCE_COUNT implies state.player_resources@[q]@[k] == given.player_resources@[q]@[k] by {
                        assert(hand_at(*state, q, k) == state.player_resources@[q]@[k]);
                    }
                }
                assert(state.player_resources =~= given.player_resources);
                assert forall|k: int| 0 <= k < RESOURCE_COUNT implies #[trigger] state.bank_resources@[k] == o.bank_resources@[k] by {
                    assert(bank_at(*state, k) == bank_at(o, k));
                }
                assert(state.bank_resources =~= o.bank_resources);
                assert(*state == given);
            }
        }
    }
    let ghost stolen = *state;
    proof {
        assert forall|r: int| 0 <= r < RESOURCE_COUNT implies #[trigger] resource_total(stolen, r) == resource_total(o, r) by {
        }
    }
    state.current_prompt = ActionPrompt::PlayTurn;
    state.is_moving_robber = false;
    state.turn_phase = TurnPhase::Main;
    proof {
        assert(state.player_resources == stolen.player_resources);
        assert(state.bank_resources == stolen.bank_resources);
        assert forall|r: int| 0 <= r < RESOURCE_COUNT implies #[trigger] resource_total(*state, r) == resource_total(o, r) by {
            assert(resource_total(*state, r) == resource_total(stolen, r));
        }
    }
}

/// The state after `player` ends the turn: its turn is tidied and the next seat plays, starting with a roll.
pub open spec fn turn_ended(s: State, player: int, owned_at_start: [[bool; DEV_CARD_COUNT]; PLAYER_COUNT]) -> State {
    let cleaned = State { dev_owned_at_start: owned_at_start, ..cleaned_turn(s, player) };
    State {
        current_prompt: ActionPrompt::PlayTurn,
        turn_phase: TurnPhase::Roll,
        ..advanced_turn(cleaned, 1)
    }
}

/// `new` is `old` after `player` ends the turn: the player's turn flags are cleared, the cards it holds become
/// playable, and the next seat rolls.
pub open spec fn end_turn_done(new: State, old: State, player: PlayerId) -> bool {
    &&& new == turn_ended(old, player as int, new.dev_owned_at_start)
    &&& forall|q: int, c: int|
        0 <= q < PLAYER_COUNT && 0 <= c < DEV_CARD_COUNT ==> #[trigger] new.dev_owned_at_start@[q]@[c]
            == if q == player && is_playable_card(c) {
            old.dev_cards_in_hand@[q]@[c] > 0
        } else {
            old.dev_owned_at_start@[q]@[c]
        }
}

pub(crate) fn apply_end_turn(state: &mut State, player: PlayerId)
    requires
        is_player(player),
        is_player(old(state).turn_player),
        old(state).num_turns < u32::MAX,
    ensures
        end_turn_done(*final(state), *old(state), player),
        totals_kept(*final(state), *old(state)),
{
    clean_turn(state, player);
    advance_turn(state, 1);
    state.current_prompt = ActionPrompt::PlayTurn;
    state.turn_phase = TurnPhase::Roll;
}


/// Some player must discard.
pub open spec fn any_must_discard(s: State) -> bool {
    exists|p: int| 0 <= p < PLAYER_COUNT && #[trigger] must_discard(s, p)
}

/// The dice total as the game keeps it.
pub open spec fn roll_total_byte(roll: (u32, u32)) -> u8 {
    ((roll.0 + roll.1) % 256) as u8
}

/// The state after a seven with the turn player marked as rolled: discards first when someone holds
/// more than seven cards, else the robber moves.
pub open spec fn seven_rolled(s: State) -> State {
    if any_must_discard(s) {
        State { active_player: spec_first_discarder(s), current_prompt: ActionPrompt::Discard, is_discarding: true, ..s }
    } else {
        State { current_prompt: ActionPrompt::MoveRobber, is_moving_robber: true, active_player: s.turn_player, ..s }
    }
}

/// `new` is `old` after the turn player rolls `roll`: a seven sends the players with too many cards to discard, or
/// the turn player to the robber; any other total pays every building on the tiles with that number.
pub open spec fn roll_done(board: Board, new: State, old: State, roll: (u32, u32)) -> bool {
    let o = old;
    let marked = State { has_rolled: spec_array_update(o.has_rolled, o.turn_player as int, true), ..o };
    let total = roll_total_byte(roll);
    &&& total == 7 ==> new == seven_rolled(marked)
    &&& total != 7 ==> {
        &&& new == (State {
            player_resources: new.player_resources,
            bank_resources: new.bank_resources,
            current_prompt: ActionPrompt::PlayTurn,
            turn_phase: TurnPhase::Main,
            ..marked
        })
        &&& forall|q: int, k: int|
            0 <= q < PLAYER_COUNT && 0 <= k < RESOURCE_COUNT ==> #[trigger] hand_at(new, q, k) == hand_at(o, q, k)
                + roll_paid(board, o, total, q, k)
        &&& forall|k: int|
            0 <= k < RESOURCE_COUNT ==> #[trigger] bank_at(new, k) == bank_at(o, k) - (roll_paid(board, o, total, 0, k)
                + roll_paid(board, o, total, 1, k) + roll_paid(board, o, total, 2, k) + roll_paid(board, o, total, 3, k))
    }
    
}

pub(crate) fn apply_roll(board: &Board, state: &mut State, roll: (u32, u32))
    requires
        board.wf(),
        old(state).wf(),
        resources_bounded(*old(state)),
        roll.0 + roll.1 <= u32::MAX,
    ensures
        roll_done(*board, *final(state), *old(state), roll),
        final(state).wf(),
        resources_bounded(*final(state)),
        forall|r: int| 0 <= r < RESOURCE_COUNT ==> #[trigger] resource_total(*final(state), r) == resource_total(*old(state), r),
{
    let player = state.turn_player;
    state.has_rolled[player as usize] = true;
    let ghost marked = *state;
    proof {
        assert(marked == (State { has_rolled: marked.has_rolled, ..*old(state) }));
        assert(marked.wf());
        assert forall|r: int| 0 <= r < RESOURCE_COUNT implies #[trigger] resource_total(marked, r) <= 127 by {
            assert(resource_total(marked, r) == resource_total(*old(state), r));
        }
    }
    let total = ((roll.0 + roll.1) % 256) as u8;
    if total == 7 {
        let mut any_discard = false;
        let mut idx: usize = 0;
        while idx < PLAYER_COUNT
            invariant
                idx <= PLAYER_COUNT,
                any_discard == exists|p: int| 0 <= p < idx && #[trigger] must_discard(*state, p),
            decreases PLAYER_COUNT - idx,
        {
            let over = player_resource_total(state, idx as u8) > 7;
            proof {
                assert(over == must_discard(*state, idx as int));
            }
            if !any_discard && over {
                any_discard = true;
            }
            idx = idx + 1;
            proof {
                if any_discard && !over {
                    let p = choose|p: int| 0 <= p < idx - 1 && #[trigger] must_discard(*state, p);
                    assert(0 <= p < idx && must_discard(*state, p));
                }
            }
        }
        proof {
            if any_discard {
                let p = choose|p: int| 0 <= p < idx && #[trigger] must_discard(*state, p);
                assert(0 <= p < PLAYER_COUNT && must_discard(*state, p));
            }
        }
        if any_discard {
            state.active_player = first_discarder(state);
            state.current_prompt = ActionPrompt::Discard;
            state.is_discarding = true;
        } else {
            state.current_prompt = ActionPrompt::MoveRobber;
            state.is_moving_robber = true;
            state.active_player = player;
        }
        proof {
            assert(marked.player_resources == old(state).player_resources);
            assert forall|r: int| 0 <= r < RESOURCE_COUNT implies #[trigger] resource_total(*state, r) == resource_total(*old(state), r) by {
            }
        }
    } else {
        crate::production::distribute_resources(board, state, total);
        let ghost distributed = *state;
        state.current_prompt = ActionPrompt::PlayTurn;
        state.turn_phase = TurnPhase::Main;
        proof {
            assert(state.player_resources == distributed.player_resources);
            assert(state.bank_resources == distributed.bank_resources);
            assert forall|r: int| 0 <= r < RESOURCE_COUNT implies #[trigger] resource_total(*state, r) == resource_total(*old(state), r) by {
                assert(resource_total(marked, r) == resource_total(*old(state), r));
                assert(resource_total(distributed, r) == resource_total(marked, r));
                assert(resource_total(*state, r) == resource_total(distributed, r));
            }
            assert forall|q: int, k: int|
                0 <= q < PLAYER_COUNT && 0 <= k < RESOURCE_COUNT implies #[trigger] hand_at(*state, q, k) == hand_at(distributed, q, k) by {
            }
            assert forall|k: int| 0 <= k < RESOURCE_COUNT implies #[trigger] bank_at(*state, k) == bank_at(distributed, k) by {
            }
            assert(marked.player_resources == old(state).player_resources);
            assert(marked.bank_resources == old(state).bank_resources);
            assert forall|q: int, k: int|
                0 <= q < PLAYER_COUNT && 0 <= k < RESOURCE_COUNT implies #[trigger] roll_paid(*board, marked, total, q, k) == roll_paid(
                    *board,
                    *old(state),
                    total,
                    q,
                    k,
                ) by {
                lemma_roll_paid_ignores_flags(*board, marked, *old(state), total, q, k);
            }
        }
    }
}


/// The number of wins counted over all seats.
pub open spec fn wins_total(stats: Stats) -> int {
    stats.wins@[0] + stats.wins@[1] + stats.wins@[2] + stats.wins@[3]
}

/// Plays one game from `base_seed` until a player wins, a step is illegal, or the turn limit is reached; gives
/// its stats and, when asked, the log of every action.
fn simulate_one_with_log(base_seed: u64, config: &SimConfig, worker_id: u64, with_log: bool) -> (out: (Stats, Vec<String>))
    ensures
        out.0.games == 1,
        wins_total(out.0) == 1,
        out.0.turns <= config.max_turns,
        out.0.illegal_actions <= 1,
        !with_log ==> out.1@.len() == 0,
        exists|log: Seq<Seq<char>>|
            #[trigger] game_played(base_seed, (worker_id << 32u64) | 0u64, config.max_turns, out.0, log) && (with_log
                ==> log == texts(out.1@)),
{
    let board = Board::standard();
    let stream = (worker_id << 32u64) | 0;
    let mut rng = rng_for_stream(base_seed, stream);
    let mut state = State::new_with_rng_and_board(&mut rng, &board);
    let mut stats = Stats::default();
    stats.games = 1;
    let mut road_state = RoadState::empty();
    let mut army_state = ArmyState::empty();
    let mut log: Vec<String> = Vec::new();
    let max_turns = config.max_turns;
    let ghost mut trace: Seq<Snapshot> = seq![snapshot_of(state, road_state, army_state, rng.spec_state())];
    let ghost mut results: Seq<StepResult> = Seq::empty();
    let ghost mut lines: Seq<Option<Seq<char>>> = Seq::empty();
    proof {
        reveal(game_start);
        assert(game_start(board, base_seed, stream, trace[0]));
        assert(texts(log@) =~= kept(lines));
    }
    loop
        invariant_except_break
            stats.illegal_actions == 0,
            forall|k: int| 0 <= k < results.len() ==> goes_on(#[trigger] trace[k], trace[k + 1], results[k], max_turns),
        invariant
            board.wf(),
            board.is_standard(),
            road_state.wf(),
            army_state.wf(),
            stats.games == 1,
            stats.turns <= state.num_turns,
            stats.turns <= max_turns,
            stats.illegal_actions <= 1,
            forall|p: int| 0 <= p < PLAYER_COUNT ==> #[trigger] stats.wins@[p] == 0,
            !with_log ==> log@.len() == 0,
            rng.spec_increment() == 1,
            trace.len() == results.len() + 1,
            lines.len() == results.len(),
            trace.last() == snapshot_of(state, road_state, army_state, rng.spec_state()),
            game_start(board, base_seed, stream, trace[0]),
            forall|k: int|
                0 <= k < results.len() ==> may_step(#[trigger] trace[k], max_turns) && step_taken(board, trace, results, lines, k),
            stats.turns == count_of(results, StepResult::EndTurn),
            stats.illegal_actions == count_of(results, StepResult::Illegal),
            with_log ==> texts(log@) == kept(lines),
        ensures
            road_state.wf(),
            army_state.wf(),
            stats.games == 1,
            stats.turns <= max_turns,
            stats.illegal_actions <= 1,
            forall|p: int| 0 <= p < PLAYER_COUNT ==> #[trigger] stats.wins@[p] == 0,
            !with_log ==> log@.len() == 0,
            trace.last() == snapshot_of(state, road_state, army_state, rng.spec_state()),
            game_run(board, base_seed, stream, max_turns, trace, results, lines),
            stats.turns == count_of(results, StepResult::EndTurn),
            stats.illegal_actions == count_of(results, StepResult::Illegal),
            with_log ==> texts(log@) == kept(lines),
        decreases
            crate::game::turns_left(state, max_turns),
            crate::game::roll_pending(state),
            crate::game::dev_play_pending(state),
            crate::game::build_room(state),
            state.dev_deck@.len(),
            crate::game::offer_pending(state),
            crate::game::prompt_rank(state),
            crate::game::turn_hand(state),
    {
        proof {
            reveal(may_step);
            reveal(goes_on);
        }
        if state.num_turns >= max_turns as u32 {
            break;
        }
        if !check_step_ready(&state) {
            break;
        }
        let ghost before_state = state;
        let ghost prev = trace.last();
        let ghost prior_trace = trace;
        let ghost prior_results = results;
        let ghost prior_lines = lines;
        let ghost prior_log = log@;
        let before = measure_now(&state, max_turns);
        let (outcome, entry) = policy_step(&board, &mut state, &mut rng, &mut road_state, &mut army_state, with_log);
        proof {
            let line = policy_line(board, prev.state, state, prev.roads, prev.army, prev.rng, 1);
            trace = prior_trace.push(snapshot_of(state, road_state, army_state, rng.spec_state()));
            results = prior_results.push(outcome);
            lines = prior_lines.push(line);
            let n = prior_results.len() as int;
            assert(trace[n] == prev);
            assert forall|k: int| 0 <= k < results.len() implies may_step(#[trigger] trace[k], max_turns) && step_taken(
                board,
                trace,
                results,
                lines,
                k,
            ) by {
                if k < n {
                    assert(prior_trace[k] == trace[k]);
                    assert(step_taken(board, prior_trace, prior_results, prior_lines, k));
                    assert(prior_trace[k + 1] == trace[k + 1]);
                }
            }
            assert forall|k: int| 0 <= k < n implies goes_on(#[trigger] trace[k], trace[k + 1], results[k], max_turns) by {
                assert(prior_trace[k] == trace[k]);
                assert(prior_trace[k + 1] == trace[k + 1]);
            }
            assert(results.drop_last() =~= prior_results);
            assert(lines.drop_last() =~= prior_lines);
        }
        if let Some(line) = entry {
            log.push(line);
            proof {
                assert(texts(log@) =~= texts(prior_log).push(line@));
            }
        }
        match outcome {
            StepResult::EndTurn => {
                stats.turns = stats.turns + 1;
            },
            StepResult::Illegal => {
                stats.illegal_actions = stats.illegal_actions + 1;
                break;
            },
            StepResult::Other => {},
        }
        if !check_step_ready(&state) {
            break;
        }
        if check_winner(&state, &road_state, &army_state).is_some() {
            break;
        }
        let after = measure_now(&state, max_turns);
        if !step_lowered(&before, &after, Ghost(before_state), Ghost(state), Ghost(max_turns)) {
            break;
        }
    }
    let winner = game_winner(&state, &road_state, &army_state);
    stats.wins[winner as usize] = stats.wins[winner as usize] + 1;
    proof {
        let last = trace.last();
        assert(forall|p: int| 0 <= p < PLAYER_COUNT ==> #[trigger] stats.wins@[p] == if p == winner as int { 1u64 } else { 0u64 });
        assert(credited(last.state, last.roads, last.army, winner as int));
        assert(game_stats(stats, trace, results));
        assert(game_played(base_seed, stream, max_turns, stats, kept(lines)));
    }
    (stats, log)
}

/// Plays one game per seed and adds up their stats.
pub fn simulate_many(seeds: &[u64], config: &SimConfig) -> (stats: Stats)
    requires
        seeds@.len() <= 0x1_0000_0000_0000,
    ensures
        stats.games == seeds@.len(),
        wins_total(stats) == seeds@.len(),
        stats.turns <= seeds@.len() * config.max_turns,
        stats.illegal_actions <= seeds@.len(),
        exists|games: Seq<Stats>|
            #[trigger] games_played(seeds@, config.max_turns, games) && forall|c: int|
                0 <= c < COUNTERS ==> #[trigger] counter(stats, c) == sum_counter(games, c),
{
    let mut stats = Stats::default();
    let mut i: usize = 0;
    let ghost mut games: Seq<Stats> = Seq::empty();
    proof {
        assert((0u64 << 32u64) | 0u64 == 0u64) by (bit_vector);
    }
    while i < seeds.len()
        invariant
            i <= seeds@.len(),
            seeds@.len() <= 0x1_0000_0000_0000,
            (0u64 << 32u64) | 0u64 == 0u64,
            stats.games == i,
            wins_total(stats) == i,
            stats.turns <= i * config.max_turns,
            stats.illegal_actions <= i,
            forall|p: int| 0 <= p < PLAYER_COUNT ==> #[trigger] stats.wins@[p] <= i,
            games.len() == i,
            forall|k: int| 0 <= k < i ==> stats_played(seeds@[k], 0, config.max_turns, #[trigger] games[k]),
            forall|c: int| 0 <= c < COUNTERS ==> #[trigger] counter(stats, c) == sum_counter(games, c),
            games_played(seeds@.take(i as int), config.max_turns, games),
        decreases seeds@.len() - i,
    {
        let (game_stats, _) = simulate_one_with_log(seeds[i], config, 0, false);
        proof {
            assert forall|p: int| 0 <= p < PLAYER_COUNT implies #[trigger] game_stats.wins@[p] <= 1 by {
            }
            assert(i * config.max_turns + config.max_turns == (i + 1) * config.max_turns) by (nonlinear_arith);
            assert((i + 1) * config.max_turns <= 0x1_0000_0000_0000 * 0xffff) by (nonlinear_arith)
                requires
                    i + 1 <= 0x1_0000_0000_0000,
                    config.max_turns <= 0xffff,
            ;
            assert(stats.can_merge(&game_stats)) by {
                assert forall|c: int| 0 <= c < crate::stats::COUNTERS implies #[trigger] crate::stats::counter(stats, c)
                    + crate::stats::counter(game_stats, c) <= u64::MAX by {
                    if c >= 3 {
                        assert(stats.wins@[c - 3] <= i);
                        assert(game_stats.wins@[c - 3] <= 1);
                    }
                }
            }
        }
        let ghost prev = stats;
        let ghost prior_games = games;
        stats.merge(&game_stats);
        proof {
            games = prior_games.push(game_stats);
            assert(games.drop_last() =~= prior_games);
            assert(stats_played(seeds@[i as int], 0, config.max_turns, games[i as int]));
            assert forall|k: int| 0 <= k < i + 1 implies stats_played(seeds@[k], 0, config.max_turns, #[trigger] games[k]) by {
                if k < i {
                    assert(games[k] == prior_games[k]);
                }
            }
            assert forall|c: int| 0 <= c < COUNTERS implies #[trigger] counter(stats, c) == sum_counter(games, c) by {
                assert(counter(stats, c) == counter(prev, c) + counter(game_stats, c));
            }
            assert(crate::stats::counter(stats, 0) == crate::stats::counter(prev, 0) + crate::stats::counter(game_stats, 0));
            assert(crate::stats::counter(stats, 1) == crate::stats::counter(prev, 1) + crate::stats::counter(game_stats, 1));
            assert(crate::stats::counter(stats, 2) == crate::stats::counter(prev, 2) + crate::stats::counter(game_stats, 2));
            assert(crate::stats::counter(stats, 3) == crate::stats::counter(prev, 3) + crate::stats::counter(game_stats, 3));
            assert(crate::stats::counter(stats, 4) == crate::stats::counter(prev, 4) + crate::stats::counter(game_stats, 4));
            assert(crate::stats::counter(stats, 5) == crate::stats::counter(prev, 5) + crate::stats::counter(game_stats, 5));
            assert(crate::stats::counter(stats, 6) == crate::stats::counter(prev, 6) + crate::stats::counter(game_stats, 6));
            assert forall|p: int| 0 <= p < PLAYER_COUNT implies #[trigger] stats.wins@[p] <= i + 1 by {
                assert(crate::stats::counter(stats, 3 + p) == crate::stats::counter(prev, 3 + p) + crate::stats::counter(game_stats, 3 + p));
            }
        }
        i = i + 1;
        proof {
            assert(games_played(seeds@.take(i as int), config.max_turns, games));
        }
    }
    proof {
        assert(seeds@.take(i as int) =~= seeds@);
    }
    stats
}


/// Plays one game per seed and gives each game's log of actions.
pub fn simulate_policy_log(seeds: &[u64], config: &SimConfig) -> (logs: Vec<Vec<String>>)
    ensures
        logs@.len() == seeds@.len(),
        forall|i: int| 0 <= i < seeds@.len() ==> log_played(seeds@[i], 0, config.max_turns, texts(#[trigger] logs@[i]@)),
{
    let mut logs: Vec<Vec<String>> = Vec::new();
    let mut i: usize = 0;
    proof {
        assert((0u64 << 32u64) | 0u64 == 0u64) by (bit_vector);
    }
    while i < seeds.len()
        invariant
            i <= seeds@.len(),
            (0u64 << 32u64) | 0u64 == 0u64,
            logs@.len() == i,
            forall|k: int| 0 <= k < i ==> log_played(seeds@[k], 0, config.max_turns, texts(#[trigger] logs@[k]@)),
        decreases seeds@.len() - i,
    {
        let (game_stats, log) = simulate_one_with_log(seeds[i], config, 0, true);
        proof {
            let l = choose|l: Seq<Seq<char>>|
                #[trigger] game_played(seeds@[i as int], 0, config.max_turns, game_stats, l) && l == texts(log@);
            assert(game_played(seeds@[i as int], 0, config.max_turns, game_stats, texts(log@)));
        }
        let ghost prior = logs@;
        logs.push(log);
        proof {
            assert forall|k: int| 0 <= k < i + 1 implies log_played(seeds@[k], 0, config.max_turns, texts(#[trigger] logs@[k]@)) by {
                if k < i {
                    assert(logs@[k] == prior[k]);
                }
            }
        }
        i = i + 1;
    }
    logs
}

} // verus!
