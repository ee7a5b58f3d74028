use vstd::prelude::*;

use crate::bits::lemma_same_bits;
use crate::board::Board;
use crate::building::{
    opening_road_done, opening_settlement_done, opening_settlement_placed, road_built, road_laid, settlement_built,
};
use crate::engine::{bank_at, cost_paid, hand_at, ArmyState, RoadState};
use crate::reach::reach_mask;
use crate::roads::networks_split;
use crate::state::State;
use crate::policy::discard_choice;
use crate::rng::pcg_step;
use crate::types::{DevCard, EdgeId, NodeId, PlayerId, PLAYER_COUNT, RESOURCE_COUNT};
use crate::engine::StepResult;
use crate::playout::{
    credited, game_played, game_run, game_stats, games_played, goes_on, kept, lemma_games_played_split, log_played,
    may_step, policy_base, policy_move, policy_step_done, stats_played, step_taken, sum_counter, PolicyMove, Snapshot,
};
use crate::rng::{seeded_state, shuffled};
use crate::scoring::{points_seq, spec_first_winner, total_points, victory_cards_bounded};
use crate::state::ordered_deck;
use crate::stats::Stats;
use crate::value_player::{die_after, free_road_tally, value_action_done, ValueAction, ValueActionKind};

verus! {

/// No road network list of the state has a stale slot, and the deck's count is in range: what makes a state
/// the only one with its networks and cards.
pub open spec fn tidy(s: State) -> bool {
    &&& forall|p: int| 0 <= p < PLAYER_COUNT ==> #[trigger] s.road_components@[p].canonical()
    &&& s.dev_deck.wf()
}

/// Two longest-road standings that show the same lengths, holder and length are the same.
pub proof fn lemma_roads_same(a: RoadState, b: RoadState)
    requires
        a.lengths_view() == b.lengths_view(),
        a.owner_view() == b.owner_view(),
        a.length_view() == b.length_view(),
    ensures
        a == b,
{
    assert(a.lengths =~= b.lengths);
}

/// Two largest-army standings that show the same holder and size are the same.
pub proof fn lemma_army_same(a: ArmyState, b: ArmyState)
    requires
        a.owner_view() == b.owner_view(),
        a.size_view() == b.size_view(),
    ensures
        a == b,
{
}

/// States whose hands hold the same counts have the same hands.
pub proof fn lemma_hands_same(a: State, b: State)
    requires
        forall|q: int, k: int|
            0 <= q < PLAYER_COUNT && 0 <= k < RESOURCE_COUNT ==> #[trigger] hand_at(a, q, k) == hand_at(b, q, k),
    ensures
        a.player_resources == b.player_resources,
{
    assert forall|q: int| 0 <= q < PLAYER_COUNT implies a.player_resources@[q] == b.player_resources@[q] by {
        assert forall|k: int| 0 <= k < RESOURCE_COUNT implies a.player_resources@[q]@[k] == b.player_resources@[q]@[k] by {
            assert(hand_at(a, q, k) == hand_at(b, q, k));
        }
        assert(a.player_resources@[q] =~= b.player_resources@[q]);
    }
    assert(a.player_resources =~= b.player_resources);
}

/// States whose banks hold the same counts have the same bank.
pub proof fn lemma_bank_same(a: State, b: State)
    requires
        forall|k: int| 0 <= k < RESOURCE_COUNT ==> #[trigger] bank_at(a, k) == bank_at(b, k),
    ensures
        a.bank_resources == b.bank_resources,
{
    assert forall|k: int| 0 <= k < RESOURCE_COUNT implies a.bank_resources@[k] == b.bank_resources@[k] by {
        assert(bank_at(a, k) == bank_at(b, k));
    }
    assert(a.bank_resources =~= b.bank_resources);
}

/// Paying a cost from one state gives one state.
pub proof fn lemma_cost_paid_unique(a: State, b: State, old: State, player: int, cost: [u8; RESOURCE_COUNT])
    requires
        cost_paid(a, old, player, cost),
        cost_paid(b, old, player, cost),
    ensures
        a == b,
{
    assert forall|q: int, k: int| 0 <= q < PLAYER_COUNT && 0 <= k < RESOURCE_COUNT implies #[trigger] hand_at(a, q, k)
        == hand_at(b, q, k) by {
        assert(hand_at(a, q, k) == hand_at(old, q, k) - if q == player { cost@[k] as int } else { 0 });
        assert(hand_at(b, q, k) == hand_at(old, q, k) - if q == player { cost@[k] as int } else { 0 });
    }
    assert forall|k: int| 0 <= k < RESOURCE_COUNT implies #[trigger] bank_at(a, k) == bank_at(b, k) by {
        assert(bank_at(a, k) == bank_at(old, k) + cost@[k]);
        assert(bank_at(b, k) == bank_at(old, k) + cost@[k]);
    }
    lemma_hands_same(a, b);
    lemma_bank_same(a, b);
}

/// States that agree on all but their road networks, and hold the same networks for each player, are the same.
pub proof fn lemma_networks_same(a: State, b: State)
    requires
        a == (State { road_components: a.road_components, ..b }),
        forall|q: int| 0 <= q < PLAYER_COUNT ==> #[trigger] a.road_components@[q] == b.road_components@[q],
    ensures
        a == b,
{
    assert(a.road_components =~= b.road_components);
}

/// Laying a road from one state gives one state, and keeps its networks free of stale slots.
pub proof fn lemma_road_laid_unique(board: Board, a: State, b: State, old: State, player: PlayerId, edge: EdgeId)
    requires
        tidy(old),
        road_laid(board, a, old, player, edge),
        road_laid(board, b, old, player, edge),
    ensures
        a == b,
        tidy(a),
{
    let p = player as int;
    assert forall|q: int| 0 <= q < PLAYER_COUNT implies #[trigger] a.road_components@[q] == b.road_components@[q] by {
        if q != p {
            assert(a.road_components@[q] == old.road_components@[q]);
            assert(b.road_components@[q] == old.road_components@[q]);
        } else {
            assert(old.road_components@[p].canonical());
            a.road_components@[p].lemma_canonical_same(&b.road_components@[p]);
        }
    }
    lemma_networks_same(a, b);
    assert forall|q: int| 0 <= q < PLAYER_COUNT implies #[trigger] a.road_components@[q].canonical() by {
        if q != p {
            assert(a.road_components@[q] == old.road_components@[q]);
        }
    }
}

/// A road built from one state gives one state and one longest-road standing.
pub proof fn lemma_road_built_unique(
    board: Board,
    a: State,
    b: State,
    old: State,
    a_roads: RoadState,
    b_roads: RoadState,
    old_roads: RoadState,
    player: PlayerId,
    edge: EdgeId,
    free: bool,
)
    requires
        tidy(old),
        road_built(board, a, old, a_roads, old_roads, player, edge, free),
        road_built(board, b, old, b_roads, old_roads, player, edge, free),
    ensures
        a == b,
        a_roads == b_roads,
        tidy(a),
{
    let pa = State { player_resources: a.player_resources, bank_resources: a.bank_resources, ..old };
    let pb = State { player_resources: b.player_resources, bank_resources: b.bank_resources, ..old };
    if !free {
        lemma_cost_paid_unique(pa, pb, old, player as int, crate::rules::ROAD_COST);
    }
    assert(pa == pb);
    assert(tidy(pa));
    lemma_road_laid_unique(board, a, b, pa, player, edge);
    lemma_roads_same(a_roads, b_roads);
}

/// Placing an opening settlement from one state gives one state.
#[verifier::spinoff_prover]
#[verifier::rlimit(50)]
pub proof fn lemma_opening_settlement_unique(board: Board, a: State, b: State, old: State, node: NodeId)
    requires
        tidy(old),
        old.wf(),
        opening_settlement_done(board, a, old, node),
        opening_settlement_done(board, b, old, node),
    ensures
        a == b,
        tidy(a),
{
    let pa = choose|placed: State|
        opening_settlement_placed(placed, old, node) && a == crate::building::opening_finish(board, placed, old, node);
    let pb = choose|placed: State|
        opening_settlement_placed(placed, old, node) && b == crate::building::opening_finish(board, placed, old, node);
    let p = old.active_player as int;
    assert(old.road_components@[p].canonical());
    pa.road_components@[p].lemma_canonical_same(&pb.road_components@[p]);
    assert forall|q: int| 0 <= q < PLAYER_COUNT implies #[trigger] pa.road_components@[q] == pb.road_components@[q] by {
        if q != p {
            assert(pa.road_components@[q] == old.road_components@[q]);
            assert(pb.road_components@[q] == old.road_components@[q]);
        }
    }
    assert(pa.road_components =~= pb.road_components);
    assert(pa == pb);
    assert forall|q: int| 0 <= q < PLAYER_COUNT implies #[trigger] pa.road_components@[q].canonical() by {
        if q != p {
            assert(pa.road_components@[q] == old.road_components@[q]);
        }
    }
    crate::building::lemma_opening_finish_keeps(board, pa, old, node);
}

/// Laying an opening road from one state gives one state and one longest-road standing.
pub proof fn lemma_opening_road_unique(
    board: Board,
    a: State,
    b: State,
    old: State,
    a_roads: RoadState,
    b_roads: RoadState,
    old_roads: RoadState,
    edge: EdgeId,
)
    requires
        tidy(old),
        old.wf(),
        opening_road_done(board, a, old, a_roads, old_roads, edge),
        opening_road_done(board, b, old, b_roads, old_roads, edge),
    ensures
        a == b,
        a_roads == b_roads,
        tidy(a),
{
    let ap = old.active_player;
    let la = choose|laid: State|
        {
            &&& road_laid(board, laid, old, ap, edge)
            &&& a == crate::building::opening_next(laid, crate::building::settlements_upto(old, crate::types::NODE_COUNT as int))
            &&& (a_roads.lengths_view(), a_roads.owner_view(), a_roads.length_view()) == crate::roads::road_after_build(
                old_roads,
                ap,
                crate::roads::spec_longest_road(board, laid, ap) as u8,
            )
        };
    let lb = choose|laid: State|
        {
            &&& road_laid(board, laid, old, ap, edge)
            &&& b == crate::building::opening_next(laid, crate::building::settlements_upto(old, crate::types::NODE_COUNT as int))
            &&& (b_roads.lengths_view(), b_roads.owner_view(), b_roads.length_view()) == crate::roads::road_after_build(
                old_roads,
                ap,
                crate::roads::spec_longest_road(board, laid, ap) as u8,
            )
        };
    lemma_road_laid_unique(board, la, lb, old, ap, edge);
    lemma_roads_same(a_roads, b_roads);
}

/// A network split in two at a node gives one list of networks.
pub proof fn lemma_networks_split_unique(
    board: Board,
    s: State,
    q: PlayerId,
    node: NodeId,
    a: NodeId,
    c: NodeId,
    before: Seq<u64>,
    x: Seq<u64>,
    y: Seq<u64>,
)
    requires
        networks_split(board, s, q, node, a, c, before, x),
        networks_split(board, s, q, node, a, c, before, y),
    ensures
        x == y,
{
    let (xa, xc) = choose|ma: u64, mc: u64|
        #![trigger reach_mask(board, s, q, a as int, ma), reach_mask(board, s, q, c as int, mc)]
        reach_mask(board, s, q, a as int, ma) && reach_mask(board, s, q, c as int, mc) && x == crate::roads::without_network(
            before,
            node,
        ).push(ma).push(mc);
    let (ya, yc) = choose|ma: u64, mc: u64|
        #![trigger reach_mask(board, s, q, a as int, ma), reach_mask(board, s, q, c as int, mc)]
        reach_mask(board, s, q, a as int, ma) && reach_mask(board, s, q, c as int, mc) && y == crate::roads::without_network(
            before,
            node,
        ).push(ma).push(mc);
    assert forall|n: int| #[trigger] crate::bits::has_bit(xa, n) == crate::bits::has_bit(ya, n) by {
        assert(crate::bits::has_bit(xa, n) == (0 <= n < crate::types::NODE_COUNT && crate::reach::reaches_from(board, s, q, a as int, n)));
        assert(crate::bits::has_bit(ya, n) == (0 <= n < crate::types::NODE_COUNT && crate::reach::reaches_from(board, s, q, a as int, n)));
    }
    assert forall|n: int| #[trigger] crate::bits::has_bit(xc, n) == crate::bits::has_bit(yc, n) by {
        assert(crate::bits::has_bit(xc, n) == (0 <= n < crate::types::NODE_COUNT && crate::reach::reaches_from(board, s, q, c as int, n)));
        assert(crate::bits::has_bit(yc, n) == (0 <= n < crate::types::NODE_COUNT && crate::reach::reaches_from(board, s, q, c as int, n)));
    }
    lemma_same_bits(xa, ya);
    lemma_same_bits(xc, yc);
}

/// A settlement built from one state gives one state and one longest-road standing.
#[verifier::spinoff_prover]
#[verifier::rlimit(50)]
pub proof fn lemma_settlement_built_unique(
    board: Board,
    a: State,
    b: State,
    old: State,
    a_roads: RoadState,
    b_roads: RoadState,
    old_roads: RoadState,
    player: PlayerId,
    node: NodeId,
)
    requires
        tidy(old),
        settlement_built(board, a, old, a_roads, old_roads, player, node),
        settlement_built(board, b, old, b_roads, old_roads, player, node),
    ensures
        a == b,
        a_roads == b_roads,
        tidy(a),
{
    let pa = State { player_resources: a.player_resources, bank_resources: a.bank_resources, ..old };
    let pb = State { player_resources: b.player_resources, bank_resources: b.bank_resources, ..old };
    lemma_cost_paid_unique(pa, pb, old, player as int, crate::rules::SETTLEMENT_COST);
    let built = pa.with_building(node as int, player, crate::types::BuildingLevel::Settlement);
    assert forall|q: int| 0 <= q < PLAYER_COUNT implies #[trigger] a.road_components@[q] == b.road_components@[q] by {
        assert(old.road_components@[q].canonical());
        if crate::roads::road_cut(board, built, node, player, q) {
            lemma_networks_split_unique(
                board,
                built,
                q as PlayerId,
                node,
                crate::roads::road_ends_upto(board, built, node, q, 3)[0],
                crate::roads::road_ends_upto(board, built, node, q, 3)[1],
                old.road_components@[q]@,
                a.road_components@[q]@,
                b.road_components@[q]@,
            );
            a.road_components@[q].lemma_canonical_same(&b.road_components@[q]);
        }
    }
    lemma_networks_same(a, b);
    assert forall|p: int| 0 <= p < PLAYER_COUNT implies #[trigger] a.road_components@[p].canonical() by {
        assert(old.road_components@[p].canonical());
    }
    lemma_roads_same(a_roads, b_roads);
}

/// Two trades with nothing in them are the same.
proof fn lemma_trade_cleared(a: State, b: State)
    requires
        forall|i: int| 0 <= i < 10 ==> #[trigger] a.current_trade@[i] == 0,
        forall|i: int| 0 <= i < 10 ==> #[trigger] b.current_trade@[i] == 0,
        forall|p: int| 0 <= p < PLAYER_COUNT ==> !#[trigger] a.acceptees@[p],
        forall|p: int| 0 <= p < PLAYER_COUNT ==> !#[trigger] b.acceptees@[p],
    ensures
        a.current_trade == b.current_trade,
        a.acceptees == b.acceptees,
{
    assert(a.current_trade =~= b.current_trade);
    assert(a.acceptees =~= b.acceptees);
}

/// Ending a turn from one state gives one state.
proof fn lemma_end_turn_unique(a: State, b: State, old: State, player: PlayerId)
    requires
        crate::engine::end_turn_done(a, old, player),
        crate::engine::end_turn_done(b, old, player),
    ensures
        a == b,
{
    assert forall|q: int| 0 <= q < PLAYER_COUNT implies a.dev_owned_at_start@[q] == b.dev_owned_at_start@[q] by {
        assert forall|c: int| 0 <= c < crate::types::DEV_CARD_COUNT implies a.dev_owned_at_start@[q]@[c]
            == b.dev_owned_at_start@[q]@[c] by {
            assert(a.dev_owned_at_start@[q]@[c] == b.dev_owned_at_start@[q]@[c]);
        }
        assert(a.dev_owned_at_start@[q] =~= b.dev_owned_at_start@[q]);
    }
    assert(a.dev_owned_at_start =~= b.dev_owned_at_start);
}

/// Buying a development card from one state gives one state.
proof fn lemma_dev_bought_unique(a: State, b: State, old: State, player: PlayerId, card: DevCard)
    requires
        crate::engine::dev_card_bought(a, old, player, card),
        crate::engine::dev_card_bought(b, old, player, card),
    ensures
        a == b,
{
    a.dev_deck.lemma_same_value(&b.dev_deck);
    lemma_cost_paid_unique(
        State { dev_deck: old.dev_deck, dev_cards_in_hand: old.dev_cards_in_hand, ..a },
        State { dev_deck: old.dev_deck, dev_cards_in_hand: old.dev_cards_in_hand, ..b },
        old,
        player as int,
        crate::rules::DEV_CARD_COST,
    );
}

/// An action taken from one tidy state, with the generator at one place, gives one state and one pair of
/// standings, and keeps the state tidy. The plain, kernel and reversible apply paths all promise
/// `value_action_done`, so on one state and generator they end alike.
#[verifier::spinoff_prover]
#[verifier::rlimit(80)]
pub proof fn lemma_action_unique(
    board: Board,
    a: State,
    b: State,
    old: State,
    a_roads: RoadState,
    b_roads: RoadState,
    old_roads: RoadState,
    a_army: ArmyState,
    b_army: ArmyState,
    old_army: ArmyState,
    action: ValueAction,
    st: u128,
    inc: u128,
)
    requires
        tidy(old),
        old.wf(),
        value_action_done(board, a, old, a_roads, old_roads, a_army, old_army, action, st, inc),
        value_action_done(board, b, old, b_roads, old_roads, b_army, old_army, action, st, inc),
    ensures
        a == b,
        a_roads == b_roads,
        a_army == b_army,
        tidy(a),
{
    let player = action.player;
    match action.kind {
        ValueActionKind::BuildSettlement(node) => {
            if crate::value_player::opening_settlement_turn(old) {
                lemma_opening_settlement_unique(board, a, b, old, node);
            } else {
                lemma_settlement_built_unique(board, a, b, old, a_roads, b_roads, old_roads, player, node);
            }
        },
        ValueActionKind::BuildRoad(edge) => {
            if crate::value_player::opening_road_turn(old) {
                lemma_opening_road_unique(board, a, b, old, a_roads, b_roads, old_roads, edge);
            } else if old.is_road_building {
                let la = choose|laid: State|
                    road_built(board, laid, old, a_roads, old_roads, player, edge, true) && a == free_road_tally(
                        board,
                        laid,
                        player,
                    );
                let lb = choose|laid: State|
                    road_built(board, laid, old, b_roads, old_roads, player, edge, true) && b == free_road_tally(
                        board,
                        laid,
                        player,
                    );
                lemma_road_built_unique(board, la, lb, old, a_roads, b_roads, old_roads, player, edge, true);
            } else {
                lemma_road_built_unique(board, a, b, old, a_roads, b_roads, old_roads, player, edge, false);
            }
        },
        ValueActionKind::BuildCity(node) => {
            let pa = State { player_resources: a.player_resources, bank_resources: a.bank_resources, ..old };
            let pb = State { player_resources: b.player_resources, bank_resources: b.bank_resources, ..old };
            lemma_cost_paid_unique(pa, pb, old, player as int, crate::rules::CITY_COST);
        },
        ValueActionKind::Roll => {
            let roll = (die_after(st, inc), die_after(pcg_step(st, inc), inc));
            let total = crate::engine::roll_total_byte(roll);
            if total != 7 {
                assert forall|q: int, k: int| 0 <= q < PLAYER_COUNT && 0 <= k < RESOURCE_COUNT implies #[trigger] hand_at(a, q, k)
                    == hand_at(b, q, k) by {
                    assert(hand_at(a, q, k) == hand_at(old, q, k) + crate::production::roll_paid(board, old, total, q, k));
                    assert(hand_at(b, q, k) == hand_at(old, q, k) + crate::production::roll_paid(board, old, total, q, k));
                }
                assert forall|k: int| 0 <= k < RESOURCE_COUNT implies #[trigger] bank_at(a, k) == bank_at(b, k) by {
                    assert(bank_at(a, k) == bank_at(b, k));
                }
                lemma_hands_same(a, b);
                lemma_bank_same(a, b);
            }
        },
        ValueActionKind::EndTurn => {
            lemma_end_turn_unique(a, b, old, player);
        },
        ValueActionKind::Discard(counts) => {
            match counts {
                Some(c) => {
                    let pa = State { player_resources: a.player_resources, bank_resources: a.bank_resources, ..old };
                    let pb = State { player_resources: b.player_resources, bank_resources: b.bank_resources, ..old };
                    lemma_cost_paid_unique(pa, pb, old, player as int, c);
                },
                None => {
                    let ca = choose|c: [u8; RESOURCE_COUNT]|
                        {
                            &&& forall|k: int|
                                0 <= k < RESOURCE_COUNT ==> #[trigger] c@[k] as nat == discard_choice(
                                    old.player_resources@[player as int],
                                    st,
                                    inc,
                                ).0[k]
                            &&& crate::engine::discard_done(a, old, player, c)
                        };
                    let cb = choose|c: [u8; RESOURCE_COUNT]|
                        {
                            &&& forall|k: int|
                                0 <= k < RESOURCE_COUNT ==> #[trigger] c@[k] as nat == discard_choice(
                                    old.player_resources@[player as int],
                                    st,
                                    inc,
                                ).0[k]
                            &&& crate::engine::discard_done(b, old, player, c)
                        };
                    assert forall|k: int| 0 <= k < RESOURCE_COUNT implies ca@[k] == cb@[k] by {
                        assert(ca@[k] as nat == cb@[k] as nat);
                    }
                    assert(ca =~= cb);
                    let pa = State { player_resources: a.player_resources, bank_resources: a.bank_resources, ..old };
                    let pb = State { player_resources: b.player_resources, bank_resources: b.bank_resources, ..old };
                    lemma_cost_paid_unique(pa, pb, old, player as int, ca);
                },
            }
        },
        ValueActionKind::PlayMonopoly(resource) => {
            assert forall|q: int, k: int| 0 <= q < PLAYER_COUNT && 0 <= k < RESOURCE_COUNT implies #[trigger] hand_at(a, q, k)
                == hand_at(b, q, k) by {
                assert(hand_at(a, q, k) == hand_at(b, q, k));
            }
            lemma_hands_same(a, b);
        },
        ValueActionKind::PlayKnight => {
            lemma_army_same(a_army, b_army);
        },
        ValueActionKind::MaritimeTrade { offer, rate, ask } => {
            assert forall|q: int, k: int| 0 <= q < PLAYER_COUNT && 0 <= k < RESOURCE_COUNT implies #[trigger] hand_at(a, q, k)
                == hand_at(b, q, k) by {
                assert(hand_at(a, q, k) == hand_at(b, q, k));
            }
            assert forall|k: int| 0 <= k < RESOURCE_COUNT implies #[trigger] bank_at(a, k) == bank_at(b, k) by {
                assert(bank_at(a, k) == bank_at(b, k));
            }
            lemma_hands_same(a, b);
            lemma_bank_same(a, b);
        },
        ValueActionKind::BuyDevCard => {
            lemma_dev_bought_unique(a, b, old, player, old.dev_deck@.last());
        },
        ValueActionKind::RejectTrade => {
            if crate::engine::spec_next_trade_responder(player) is None && !crate::engine::any_acceptee(old) {
                lemma_trade_cleared(a, b);
            }
        },
        ValueActionKind::ConfirmTrade(partner) => {
            assert forall|q: int, k: int| 0 <= q < PLAYER_COUNT && 0 <= k < RESOURCE_COUNT implies #[trigger] hand_at(a, q, k)
                == hand_at(b, q, k) by {
                assert(hand_at(a, q, k) == hand_at(b, q, k));
            }
            lemma_hands_same(a, b);
            lemma_trade_cleared(a, b);
        },
        ValueActionKind::CancelTrade => {
            lemma_trade_cleared(a, b);
        },
        _ => {},
    }
}

/// One step of the built-in policy from one state, with the standings and the generator at one place, gives
/// one state, one pair of standings, one generator state and one result, and keeps the state tidy.
pub proof fn lemma_step_unique(
    board: Board,
    old: State,
    a: State,
    b: State,
    old_roads: RoadState,
    a_roads: RoadState,
    b_roads: RoadState,
    old_army: ArmyState,
    a_army: ArmyState,
    b_army: ArmyState,
    st: u128,
    inc: u128,
    a_next: u128,
    b_next: u128,
    a_result: StepResult,
    b_result: StepResult,
)
    requires
        tidy(old),
        old.wf(),
        policy_step_done(board, old, a, old_roads, a_roads, old_army, a_army, st, inc, a_next, a_result),
        policy_step_done(board, old, b, old_roads, b_roads, old_army, b_army, st, inc, b_next, b_result),
    ensures
        a == b,
        a_roads == b_roads,
        a_army == b_army,
        a_next == b_next,
        a_result == b_result,
        tidy(a),
{
    reveal(policy_step_done);
    let base = policy_base(board, old);
    match policy_move(board, old, old_roads, old_army) {
        PolicyMove::Act(action) => {
            lemma_action_unique(board, a, b, base, a_roads, b_roads, old_roads, a_army, b_army, old_army, action, st, inc);
        },
        PolicyMove::OpeningSettlement(n) => {
            lemma_opening_settlement_unique(board, a, b, old, n);
        },
        PolicyMove::OpeningRoad(e) => {
            lemma_opening_road_unique(board, a, b, old, a_roads, b_roads, old_roads, e);
        },
        PolicyMove::Offer(offer, ask) => {
            assert(a.acceptees =~= b.acceptees);
        },
        _ => {},
    }
}

/// Two standard boards are the same board.
pub proof fn lemma_standard_board_unique(a: Board, b: Board)
    requires
        a.is_standard(),
        b.is_standard(),
    ensures
        a == b,
{
    assert(a.tile_resources =~= b.tile_resources);
    assert(a.tile_numbers =~= b.tile_numbers);
}

/// One seat at most is credited with the win on a state.
pub proof fn lemma_credited_unique(s: State, roads: RoadState, army: ArmyState, v: int, w: int)
    requires
        credited(s, roads, army, v),
        credited(s, roads, army, w),
    ensures
        v == w,
{
    if s.wf() && victory_cards_bounded(s) && spec_first_winner(points_seq(s, roads, army)) is None {
        if v < w {
            assert(total_points(s, roads, army, v) < total_points(s, roads, army, w));
            assert(total_points(s, roads, army, w) <= total_points(s, roads, army, v));
        } else if w < v {
            assert(total_points(s, roads, army, w) < total_points(s, roads, army, v));
            assert(total_points(s, roads, army, v) <= total_points(s, roads, army, w));
        }
    }
}

/// Two starts of a game from one seed are the same snapshot, and a tidy one.
proof fn lemma_start_agree(board: Board, seed: u64, stream: u64, a: Snapshot, b: Snapshot)
    requires
        crate::playout::game_start(board, seed, stream, a),
        crate::playout::game_start(board, seed, stream, b),
    ensures
        a == b,
        tidy(a.state),
{
    reveal(crate::playout::game_start);
    let (deck, after) = shuffled(ordered_deck(), seeded_state(seed, stream), 1);
    crate::rng::lemma_shuffled_len(ordered_deck(), seeded_state(seed, stream), 1);
    crate::state::lemma_initial_unique(a.state, b.state, deck, board.desert_tile);
    lemma_roads_same(a.roads, b.roads);
    lemma_army_same(a.army, b.army);
    assert forall|p: int| 0 <= p < PLAYER_COUNT implies #[trigger] a.state.road_components@[p].canonical() by {
        assert(!a.state.has_rolled@[p]);
    }
}

/// Two runs that agree before step `j` agree on the step and after it.
proof fn lemma_next_agree(
    board: Board,
    max_turns: u16,
    t1: Seq<Snapshot>,
    r1: Seq<StepResult>,
    l1: Seq<Option<Seq<char>>>,
    t2: Seq<Snapshot>,
    r2: Seq<StepResult>,
    l2: Seq<Option<Seq<char>>>,
    j: int,
)
    requires
        0 <= j,
        j + 1 < t1.len(),
        j + 1 < t2.len(),
        j < r1.len(),
        j < r2.len(),
        t1[j] == t2[j],
        tidy(t1[j].state),
        may_step(t1[j], max_turns),
        step_taken(board, t1, r1, l1, j),
        step_taken(board, t2, r2, l2, j),
    ensures
        t1[j + 1] == t2[j + 1],
        r1[j] == r2[j],
        l1[j] == l2[j],
        tidy(t1[j + 1].state),
{
    assert(t1[j].state.wf()) by {
        reveal(may_step);
    }
    let (a, b, c) = (t1[j], t1[j + 1], t2[j + 1]);
    lemma_step_unique(
        board,
        a.state,
        b.state,
        c.state,
        a.roads,
        b.roads,
        c.roads,
        a.army,
        b.army,
        c.army,
        a.rng,
        1,
        b.rng,
        c.rng,
        r1[j],
        r2[j],
    );
}

/// Two runs of a game from one seed agree on their first `k` steps.
#[verifier::spinoff_prover]
#[verifier::rlimit(100)]
proof fn lemma_prefix_agree(
    board: Board,
    seed: u64,
    stream: u64,
    max_turns: u16,
    t1: Seq<Snapshot>,
    r1: Seq<StepResult>,
    l1: Seq<Option<Seq<char>>>,
    t2: Seq<Snapshot>,
    r2: Seq<StepResult>,
    l2: Seq<Option<Seq<char>>>,
    k: int,
)
    requires
        game_run(board, seed, stream, max_turns, t1, r1, l1),
        game_run(board, seed, stream, max_turns, t2, r2, l2),
        0 <= k <= r1.len(),
        k <= r2.len(),
    ensures
        forall|j: int| 0 <= j <= k ==> #[trigger] t1[j] == t2[j],
        forall|j: int| 0 <= j < k ==> #[trigger] r1[j] == r2[j],
        forall|j: int| 0 <= j < k ==> #[trigger] l1[j] == l2[j],
        tidy(t1[k].state),
    decreases k,
{
    if k == 0 {
        lemma_start_agree(board, seed, stream, t1[0], t2[0]);
    } else {
        lemma_prefix_agree(board, seed, stream, max_turns, t1, r1, l1, t2, r2, l2, k - 1);
        let j = k - 1;
        assert(may_step(t1[j], max_turns) && step_taken(board, t1, r1, l1, j));
        assert(may_step(t2[j], max_turns) && step_taken(board, t2, r2, l2, j));
        assert(t1[j] == t2[j]);
        lemma_next_agree(board, max_turns, t1, r1, l1, t2, r2, l2, j);
    }
}

/// Two runs of a game from one seed are the same run.
#[verifier::spinoff_prover]
#[verifier::rlimit(100)]
pub proof fn lemma_run_unique(
    b1: Board,
    b2: Board,
    seed: u64,
    stream: u64,
    max_turns: u16,
    t1: Seq<Snapshot>,
    r1: Seq<StepResult>,
    l1: Seq<Option<Seq<char>>>,
    t2: Seq<Snapshot>,
    r2: Seq<StepResult>,
    l2: Seq<Option<Seq<char>>>,
)
    requires
        game_run(b1, seed, stream, max_turns, t1, r1, l1),
        game_run(b2, seed, stream, max_turns, t2, r2, l2),
    ensures
        t1 == t2,
        r1 == r2,
        l1 == l2,
{
    lemma_standard_board_unique(b1, b2);
    let n1 = r1.len() as int;
    let n2 = r2.len() as int;
    let m = if n1 < n2 { n1 } else { n2 };
    lemma_prefix_agree(b1, seed, stream, max_turns, t1, r1, l1, t2, r2, l2, m);
    if n1 < n2 {
        assert(may_step(t2[n1], max_turns));
        if n1 > 0 {
            assert(goes_on(t2[n1 - 1], t2[n1], r2[n1 - 1], max_turns));
            assert(t1[n1 - 1] == t2[n1 - 1]);
            assert(r1[n1 - 1] == r2[n1 - 1]);
        }
        assert(t1[n1] == t2[n1]);
        assert(false);
    }
    if n2 < n1 {
        assert(may_step(t1[n2], max_turns));
        if n2 > 0 {
            assert(goes_on(t1[n2 - 1], t1[n2], r1[n2 - 1], max_turns));
            assert(t1[n2 - 1] == t2[n2 - 1]);
            assert(r1[n2 - 1] == r2[n2 - 1]);
        }
        assert(t1[n2] == t2[n2]);
        assert(false);
    }
    assert(t1 =~= t2);
    assert(r1 =~= r2);
    assert(l1 =~= l2);
}

/// One seed gives one game: two games of the built-in policy from the same seed, stream and turn limit have the
/// same stats and the same log.
pub proof fn lemma_game_played_unique(
    seed: u64,
    stream: u64,
    max_turns: u16,
    s1: Stats,
    log1: Seq<Seq<char>>,
    s2: Stats,
    log2: Seq<Seq<char>>,
)
    requires
        game_played(seed, stream, max_turns, s1, log1),
        game_played(seed, stream, max_turns, s2, log2),
    ensures
        s1 == s2,
        log1 == log2,
{
    let (b1, t1, r1, l1) = choose|board: Board, trace: Seq<Snapshot>, results: Seq<StepResult>, lines: Seq<Option<Seq<char>>>|
        {
            &&& game_run(board, seed, stream, max_turns, trace, results, lines)
            &&& game_stats(s1, trace, results)
            &&& log1 == kept(lines)
        };
    let (b2, t2, r2, l2) = choose|board: Board, trace: Seq<Snapshot>, results: Seq<StepResult>, lines: Seq<Option<Seq<char>>>|
        {
            &&& game_run(board, seed, stream, max_turns, trace, results, lines)
            &&& game_stats(s2, trace, results)
            &&& log2 == kept(lines)
        };
    lemma_run_unique(b1, b2, seed, stream, max_turns, t1, r1, l1, t2, r2, l2);
    let last = t1.last();
    let v = choose|w: int|
        credited(last.state, last.roads, last.army, w) && forall|p: int|
            0 <= p < PLAYER_COUNT ==> #[trigger] s1.wins@[p] == if p == w { 1u64 } else { 0u64 };
    let w = choose|w: int|
        credited(last.state, last.roads, last.army, w) && forall|p: int|
            0 <= p < PLAYER_COUNT ==> #[trigger] s2.wins@[p] == if p == w { 1u64 } else { 0u64 };
    lemma_credited_unique(last.state, last.roads, last.army, v, w);
    assert(s1.wins =~= s2.wins);
}

/// The per-seed stats of a run over a list of seeds are fixed by the seeds and the turn limit.
pub proof fn lemma_games_played_unique(seeds: Seq<u64>, max_turns: u16, g1: Seq<Stats>, g2: Seq<Stats>)
    requires
        games_played(seeds, max_turns, g1),
        games_played(seeds, max_turns, g2),
    ensures
        g1 == g2,
{
    assert forall|i: int| 0 <= i < g1.len() implies g1[i] == g2[i] by {
        assert(stats_played(seeds[i], 0, max_turns, g1[i]));
        assert(stats_played(seeds[i], 0, max_turns, g2[i]));
        let l1 = choose|log: Seq<Seq<char>>| #[trigger] game_played(seeds[i], 0, max_turns, g1[i], log);
        let l2 = choose|log: Seq<Seq<char>>| #[trigger] game_played(seeds[i], 0, max_turns, g2[i], log);
        lemma_game_played_unique(seeds[i], 0, max_turns, g1[i], l1, g2[i], l2);
    }
    assert(g1 =~= g2);
}

/// The log of a game is fixed by its seed, stream and turn limit.
pub proof fn lemma_log_played_unique(seed: u64, stream: u64, max_turns: u16, log1: Seq<Seq<char>>, log2: Seq<Seq<char>>)
    requires
        log_played(seed, stream, max_turns, log1),
        log_played(seed, stream, max_turns, log2),
    ensures
        log1 == log2,
{
    let s1 = choose|stats: Stats| #[trigger] game_played(seed, stream, max_turns, stats, log1);
    let s2 = choose|stats: Stats| #[trigger] game_played(seed, stream, max_turns, stats, log2);
    lemma_game_played_unique(seed, stream, max_turns, s1, log1, s2, log2);
}

/// The stats of a run over two lists of seeds joined are the two runs' stats merged, counter by counter.
pub proof fn lemma_joined_run_merges(
    first_seeds: Seq<u64>,
    second_seeds: Seq<u64>,
    max_turns: u16,
    first: Seq<Stats>,
    second: Seq<Stats>,
    joined: Seq<Stats>,
)
    requires
        games_played(first_seeds, max_turns, first),
        games_played(second_seeds, max_turns, second),
        games_played(first_seeds + second_seeds, max_turns, joined),
    ensures
        joined == first + second,
        forall|c: int| #[trigger] sum_counter(joined, c) == sum_counter(first, c) + sum_counter(second, c),
{
    lemma_games_played_split(first_seeds, second_seeds, max_turns, first, second);
    lemma_games_played_unique(first_seeds + second_seeds, max_turns, joined, first + second);
}

} // verus!
