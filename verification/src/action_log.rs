use vstd::prelude::*;
use vstd::string::*;

use crate::board::{spec_tile_coords, tile_coords, Board};
use crate::engine::{totals_kept, ArmyState, RoadState};
use crate::game::step_ready;
use crate::log_format::{decimal, dev_card_name, format_dev_card, format_resource, push_decimal, resource_name};
use crate::policy::{hand_cards, hand_deck};
use crate::rng::{lemma_shuffled_len, next_u64_mod, pcg_step, shuffle_with_rng, shuffled, Pcg64};
use crate::robber::random_resource_from_counts;
use crate::state::State;
use crate::types::{DevCard, NodeId, PlayerId, Resource, RESOURCE_COUNT};
use crate::value_player::{
    apply_value_action, card_drawn, die_after, rng_after_action, value_action_applicable, value_action_done, ValueAction,
    ValueActionKind,
};

verus! {

/// The colour that names a seat in the action log.
pub open spec fn color_name(player: PlayerId) -> Seq<char> {
    if player == 0 {
        "RED"@
    } else if player == 1 {
        "BLUE"@
    } else if player == 2 {
        "ORANGE"@
    } else if player == 3 {
        "WHITE"@
    } else {
        "UNKNOWN"@
    }
}

fn format_color(player: PlayerId) -> (s: String)
    ensures
        s@ == color_name(player),
{
    let name = if player == 0 {
        "RED"
    } else if player == 1 {
        "BLUE"
    } else if player == 2 {
        "ORANGE"
    } else if player == 3 {
        "WHITE"
    } else {
        "UNKNOWN"
    };
    String::from_str(name)
}

/// A signed number in decimal, with a minus sign when negative.
pub open spec fn signed_decimal(n: int) -> Seq<char> {
    if n < 0 {
        "-"@ + decimal((-n) as nat)
    } else {
        decimal(n as nat)
    }
}

fn push_signed(out: &mut String, n: i8)
    ensures
        final(out)@ == old(out)@ + signed_decimal(n as int),
{
    if n < 0 {
        out.append("-");
        let magnitude: u64 = (0i16 - n as i16) as u64;
        push_decimal(out, magnitude);
    } else {
        push_decimal(out, n as u64);
    }
}

/// Items joined by a comma and a space.
pub open spec fn joined(items: Seq<Seq<char>>) -> Seq<char>
    decreases items.len(),
{
    if items.len() == 0 {
        Seq::empty()
    } else if items.len() == 1 {
        items[0]
    } else {
        joined(items.drop_last()) + ", "@ + items.last()
    }
}

/// A resource's name, or `None` for no resource.
pub open spec fn name_or_none(resource: Option<Resource>) -> Seq<char> {
    match resource {
        Some(r) => resource_name(r),
        None => "None"@,
    }
}

fn format_name_or_none(resource: Option<Resource>) -> (s: String)
    ensures
        s@ == name_or_none(resource),
{
    match resource {
        Some(r) => format_resource(r),
        None => String::from_str("None"),
    }
}

/// The items of a maritime trade: the offered resource once per card given, `None` up to four, then the asked
/// resource.
pub open spec fn trade_items(offer: Resource, rate: u8, ask: Resource) -> Seq<Seq<char>> {
    Seq::new(rate as nat, |i: int| resource_name(offer)) + Seq::new(
        if rate < 4 { (4 - rate) as nat } else { 0 },
        |i: int| "None"@,
    ) + seq![resource_name(ask)]
}

fn push_item(out: &mut String, items: Ghost<Seq<Seq<char>>>, first: bool, item: &String)
    requires
        old(out)@ == joined(items@),
        first == (items@.len() == 0),
    ensures
        final(out)@ == joined(items@.push(item@)),
{
    let ghost all = items@.push(item@);
    if !first {
        out.append(", ");
        assert(all.drop_last() =~= items@);
    } else {
        assert(joined(items@) =~= Seq::<char>::empty());
    }
    out.append(item.as_str());
    proof {
        if items@.len() > 0 {
            assert(final(out)@ =~= joined(all));
        } else {
            assert(final(out)@ =~= joined(all));
        }
    }
}

/// The maritime trade as the log writes it: its items in brackets.
pub open spec fn trade_listing(offer: Resource, rate: u8, ask: Resource) -> Seq<char> {
    "("@ + joined(trade_items(offer, rate, ask)) + ")"@
}

fn format_trade_listing(offer: Resource, rate: u8, ask: Resource) -> (s: String)
    ensures
        s@ == trade_listing(offer, rate, ask),
{
    let mut body = String::new();
    let ghost mut items: Seq<Seq<char>> = Seq::empty();
    let offer_name = format_resource(offer);
    let none_name = String::from_str("None");
    let mut i: u8 = 0;
    while i < rate
        invariant
            i <= rate,
            offer_name@ == resource_name(offer),
            items == Seq::new(i as nat, |k: int| resource_name(offer)),
            body@ == joined(items),
        decreases rate - i,
    {
        push_item(&mut body, Ghost(items), i == 0, &offer_name);
        proof {
            items = items.push(offer_name@);
            assert(items =~= Seq::new((i + 1) as nat, |k: int| resource_name(offer)));
        }
        i = i + 1;
    }
    let ghost offered = items;
    if rate < 4 {
        let mut j: u8 = rate;
        while j < 4
            invariant
                rate <= j <= 4,
                none_name@ == "None"@,
                items.len() == j,
                items == offered + Seq::new((j - rate) as nat, |k: int| "None"@),
                offered == Seq::new(rate as nat, |k: int| resource_name(offer)),
                body@ == joined(items),
            decreases 4 - j,
        {
            push_item(&mut body, Ghost(items), j == 0, &none_name);
            proof {
                items = items.push(none_name@);
                assert(items =~= offered + Seq::new((j + 1 - rate) as nat, |k: int| "None"@));
            }
            j = j + 1;
        }
    }
    proof {
        assert(items =~= offered + Seq::new(if rate < 4 { (4 - rate) as nat } else { 0 }, |k: int| "None"@));
    }
    let ask_name = format_resource(ask);
    push_item(&mut body, Ghost(items), false, &ask_name);
    proof {
        assert(items.push(ask_name@) =~= trade_items(offer, rate, ask));
    }
    let mut out = String::from_str("(");
    out.append(body.as_str());
    out.append(")");
    out
}

/// The cards a random discard from the generator at `(state, increment)` gives up from `hand`, in the order
/// they were drawn.
pub open spec fn discard_sample(hand: [u8; RESOURCE_COUNT], state: u128, increment: u128) -> Seq<Resource> {
    let to_discard = (hand@[0] + hand@[1] + hand@[2] + hand@[3] + hand@[4]) / 2;
    if to_discard == 0 {
        Seq::empty()
    } else {
        shuffled(hand_cards(hand), state, increment).0.take(to_discard)
    }
}

/// Draws the cards a random discard gives up from `hand`, in the order they are drawn.
fn random_discard_sample(hand: &[u8; RESOURCE_COUNT], rng: &mut Pcg64) -> (sample: Vec<Resource>)
    ensures
        sample@ == discard_sample(*hand, old(rng).spec_state(), old(rng).spec_increment()),
{
    let total: usize = hand[0] as usize + hand[1] as usize + hand[2] as usize + hand[3] as usize + hand[4] as usize;
    let to_discard = total / 2;
    if to_discard == 0 {
        return Vec::new();
    }
    let mut deck = hand_deck(hand);
    let ghost before = deck@;
    shuffle_with_rng(deck.as_mut_slice(), rng);
    proof {
        crate::policy::lemma_hand_cards_len(*hand);
        lemma_shuffled_len(before, old(rng).spec_state(), old(rng).spec_increment());
    }
    let mut sample: Vec<Resource> = Vec::new();
    let mut n: usize = 0;
    while n < to_discard
        invariant
            n <= to_discard,
            to_discard <= deck@.len(),
            sample@ == deck@.take(n as int),
        decreases to_discard - n,
    {
        sample.push(deck[n]);
        n = n + 1;
        proof {
            assert(sample@ =~= deck@.take(n as int));
        }
    }
    sample
}

/// The names of the discarded cards, joined.
pub open spec fn sample_names(sample: Seq<Resource>) -> Seq<char> {
    joined(sample.map_values(|r: Resource| resource_name(r)))
}

fn format_sample(sample: &Vec<Resource>) -> (s: String)
    ensures
        s@ == sample_names(sample@),
{
    let mut out = String::new();
    let ghost mut items: Seq<Seq<char>> = Seq::empty();
    let mut i: usize = 0;
    while i < sample.len()
        invariant
            i <= sample@.len(),
            items == sample@.take(i as int).map_values(|r: Resource| resource_name(r)),
            out@ == joined(items),
        decreases sample@.len() - i,
    {
        let name = format_resource(sample[i]);
        push_item(&mut out, Ghost(items), i == 0, &name);
        proof {
            items = items.push(name@);
            assert(items =~= sample@.take(i as int + 1).map_values(|r: Resource| resource_name(r)));
        }
        i = i + 1;
    }
    proof {
        assert(sample@.take(sample@.len() as int) =~= sample@);
    }
    out
}

/// The end nodes of an edge, lower first.
pub open spec fn sorted_ends(board: Board, edge: int) -> (NodeId, NodeId) {
    let nodes = board.edge_nodes@[edge];
    if nodes@[0] <= nodes@[1] {
        (nodes@[0], nodes@[1])
    } else {
        (nodes@[1], nodes@[0])
    }
}

/// What the log says of `action` after the colour: taken on `s`, with the generator at `(state, increment)`
/// supplying the dice, the discarded cards and the stolen card.
pub open spec fn action_words(board: Board, s: State, action: ValueAction, state: u128, increment: u128) -> Seq<char> {
    match action.kind {
        ValueActionKind::BuildSettlement(node) => "BUILD_SETTLEMENT "@ + decimal(node as nat),
        ValueActionKind::BuildRoad(edge) => {
            let (a, b) = sorted_ends(board, edge as int);
            "BUILD_ROAD ("@ + decimal(a as nat) + ", "@ + decimal(b as nat) + ")"@
        },
        ValueActionKind::BuildCity(node) => "BUILD_CITY "@ + decimal(node as nat),
        ValueActionKind::Roll => "ROLL ("@ + decimal(die_after(state, increment) as nat) + ", "@ + decimal(
            die_after(pcg_step(state, increment), increment) as nat,
        ) + ")"@,
        ValueActionKind::EndTurn => "END_TURN"@,
        ValueActionKind::Discard(counts) => match counts {
            Some(_) => "DISCARD"@,
            None => "DISCARD ["@ + sample_names(
                discard_sample(s.player_resources@[action.player as int], state, increment),
            ) + "]"@,
        },
        ValueActionKind::MoveRobber { tile, victim, resource } => {
            let stolen = match (victim, resource) {
                (Some(v), None) => card_drawn(s.player_resources@[v as int], state, increment),
                _ => resource,
            };
            let (x, y, z) = spec_tile_coords(tile);
            "MOVE_ROBBER ("@ + signed_decimal(x as int) + ", "@ + signed_decimal(y as int) + ", "@ + signed_decimal(
                z as int,
            ) + ") "@ + match victim {
                Some(v) => color_name(v),
                None => "None"@,
            } + " "@ + name_or_none(stolen)
        },
        ValueActionKind::PlayYearOfPlenty(first, second) => "PLAY_YEAR_OF_PLENTY ("@ + resource_name(first) + ", "@
            + name_or_none(second) + ")"@,
        ValueActionKind::PlayMonopoly(r) => "PLAY_MONOPOLY "@ + resource_name(r),
        ValueActionKind::PlayKnight => "PLAY_KNIGHT_CARD"@,
        ValueActionKind::PlayRoadBuilding => "PLAY_ROAD_BUILDING"@,
        ValueActionKind::MaritimeTrade { offer, rate, ask } => "MARITIME_TRADE "@ + trade_listing(offer, rate, ask),
        ValueActionKind::BuyDevCard => "BUY_DEVELOPMENT_CARD "@ + dev_card_name(
            if s.dev_deck@.len() > 0 {
                s.dev_deck@.last()
            } else {
                DevCard::Knight
            },
        ),
        ValueActionKind::AcceptTrade => "ACCEPT_TRADE"@,
        ValueActionKind::RejectTrade => "REJECT_TRADE"@,
        ValueActionKind::ConfirmTrade(partner) => "CONFIRM_TRADE "@ + color_name(partner),
        ValueActionKind::CancelTrade => "CANCEL_TRADE"@,
    }
}

/// The log line of `action` taken on `s`: the colour of its player, a space, and what it did.
pub open spec fn action_line(board: Board, s: State, action: ValueAction, state: u128, increment: u128) -> Seq<char> {
    color_name(action.player) + " "@ + action_words(board, s, action, state, increment)
}

/// What the log says of `action` after the colour, read before it is applied.
#[verifier::spinoff_prover]
#[verifier::rlimit(40)]
fn format_action_words(board: &Board, state: &State, action: &ValueAction, rng: &Pcg64) -> (words: String)
    requires
        board.wf(),
        value_action_applicable(*state, *action),
    ensures
        words@ == action_words(*board, *state, *action, rng.spec_state(), rng.spec_increment()),
{
    let mut preview = rng.fork();
    let mut out = String::new();
    match action.kind {
        ValueActionKind::BuildSettlement(node) => {
            out.append("BUILD_SETTLEMENT ");
            push_decimal(&mut out, node as u64);
        },
        ValueActionKind::BuildRoad(edge) => {
            let nodes = board.edge_nodes[edge as usize];
            let (a, b) = if nodes[0] <= nodes[1] {
                (nodes[0], nodes[1])
            } else {
                (nodes[1], nodes[0])
            };
            out.append("BUILD_ROAD (");
            push_decimal(&mut out, a as u64);
            out.append(", ");
            push_decimal(&mut out, b as u64);
            out.append(")");
        },
        ValueActionKind::BuildCity(node) => {
            out.append("BUILD_CITY ");
            push_decimal(&mut out, node as u64);
        },
        ValueActionKind::Roll => {
            let first = next_u64_mod(&mut preview, 6) + 1;
            let second = next_u64_mod(&mut preview, 6) + 1;
            out.append("ROLL (");
            push_decimal(&mut out, first);
            out.append(", ");
            push_decimal(&mut out, second);
            out.append(")");
        },
        ValueActionKind::EndTurn => {
            out.append("END_TURN");
        },
        ValueActionKind::Discard(counts) => {
            if counts.is_some() {
                out.append("DISCARD");
            } else {
                let sample = random_discard_sample(&state.player_resources[action.player as usize], &mut preview);
                let names = format_sample(&sample);
                out.append("DISCARD [");
                out.append(names.as_str());
                out.append("]");
            }
        },
        ValueActionKind::MoveRobber { tile, victim, resource } => {
            let stolen = match (victim, resource) {
                (Some(v), None) => random_resource_from_counts(&mut preview, &state.player_resources[v as usize]),
                _ => resource,
            };
            let (x, y, z) = tile_coords(tile);
            out.append("MOVE_ROBBER (");
            push_signed(&mut out, x);
            out.append(", ");
            push_signed(&mut out, y);
            out.append(", ");
            push_signed(&mut out, z);
            out.append(") ");
            match victim {
                Some(v) => {
                    let name = format_color(v);
                    out.append(name.as_str());
                },
                None => out.append("None"),
            }
            out.append(" ");
            let res = format_name_or_none(stolen);
            out.append(res.as_str());
        },
        ValueActionKind::PlayYearOfPlenty(first, second) => {
            out.append("PLAY_YEAR_OF_PLENTY (");
            let a = format_resource(first);
            out.append(a.as_str());
            out.append(", ");
            let b = format_name_or_none(second);
            out.append(b.as_str());
            out.append(")");
        },
        ValueActionKind::PlayMonopoly(r) => {
            out.append("PLAY_MONOPOLY ");
            let name = format_resource(r);
            out.append(name.as_str());
        },
        ValueActionKind::PlayKnight => {
            out.append("PLAY_KNIGHT_CARD");
        },
        ValueActionKind::PlayRoadBuilding => {
            out.append("PLAY_ROAD_BUILDING");
        },
        ValueActionKind::MaritimeTrade { offer, rate, ask } => {
            out.append("MARITIME_TRADE ");
            let listing = format_trade_listing(offer, rate, ask);
            out.append(listing.as_str());
        },
        ValueActionKind::BuyDevCard => {
            let card = match state.dev_deck.last() {
                Some(c) => *c,
                None => DevCard::Knight,
            };
            out.append("BUY_DEVELOPMENT_CARD ");
            let name = format_dev_card(card);
            out.append(name.as_str());
        },
        ValueActionKind::AcceptTrade => {
            out.append("ACCEPT_TRADE");
        },
        ValueActionKind::RejectTrade => {
            out.append("REJECT_TRADE");
        },
        ValueActionKind::ConfirmTrade(partner) => {
            out.append("CONFIRM_TRADE ");
            let name = format_color(partner);
            out.append(name.as_str());
        },
        ValueActionKind::CancelTrade => {
            out.append("CANCEL_TRADE");
        },
    }
    proof {
        assert(out@ =~= action_words(*board, *state, *action, rng.spec_state(), rng.spec_increment()));
    }
    out
}

/// Applies `action` as `apply_value_action` does and gives its log line: the colour of its player and what it
/// did, with the dice, the discarded cards and the stolen card read ahead from the generator.
pub fn apply_action_with_log(
    board: &Board,
    state: &mut State,
    road_state: &mut RoadState,
    army_state: &mut ArmyState,
    action: &ValueAction,
    rng: &mut Pcg64,
) -> (line: String)
    requires
        board.wf(),
        step_ready(*old(state)),
        old(road_state).wf(),
        old(army_state).wf(),
        value_action_applicable(*old(state), *action),
    ensures
        final(road_state).wf(),
        final(army_state).wf(),
        totals_kept(*final(state), *old(state)),
        value_action_done(
            *board,
            *final(state),
            *old(state),
            *final(road_state),
            *old(road_state),
            *final(army_state),
            *old(army_state),
            *action,
            old(rng).spec_state(),
            old(rng).spec_increment(),
        ),
        final(rng).spec_state() == rng_after_action(*old(state), *action, old(rng).spec_state(), old(rng).spec_increment()),
        final(rng).spec_increment() == old(rng).spec_increment(),
        line@ == action_line(*board, *old(state), *action, old(rng).spec_state(), old(rng).spec_increment()),
{
    let mut line = format_color(action.player);
    line.append(" ");
    let words = format_action_words(board, state, action, rng);
    line.append(words.as_str());
    apply_value_action(board, state, road_state, army_state, action, rng);
    line
}

} // verus!
