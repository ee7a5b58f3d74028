use vstd::prelude::*;

use crate::board::Board;
use crate::engine::may_buy_dev_card;
use crate::policy::free_road_allowed;
use crate::rules::{build_city_allowed, build_road_allowed, build_settlement_allowed};
use crate::state::{is_player, State};
use crate::types::{ActionPrompt, EdgeId, NodeId, PlayerId, EDGE_COUNT, NODE_COUNT, RESOURCE_COUNT};
use crate::value_player::{
    actions_where, city_kind, city_pred, dev_actions, free_road_pred, main_actions, maritime_actions, monopoly_actions, plenty_action,
    plenty_actions, plenty_rows, playable_actions, road_kind, road_pred, settlement_kind, settlement_pred, ValueAction,
    ValueActionKind,
};

verus! {

/// An action is in a list built from a predicate over `0..n` exactly when it is the player's action for an
/// index that the predicate holds on.
pub proof fn lemma_actions_where_has(
    player: PlayerId,
    n: int,
    pred: spec_fn(int) -> bool,
    kind: spec_fn(int) -> ValueActionKind,
    a: ValueAction,
)
    ensures
        actions_where(player, n, pred, kind).contains(a) <==> exists|i: int|
            0 <= i < n && #[trigger] pred(i) && a == (ValueAction { player, kind: kind(i) }),
    decreases n,
{
    if n > 0 {
        lemma_actions_where_has(player, n - 1, pred, kind, a);
        let before = actions_where(player, n - 1, pred, kind);
        if pred(n - 1) {
            let x = ValueAction { player, kind: kind(n - 1) };
            let all = before.push(x);
            assert(all == actions_where(player, n, pred, kind));
            if all.contains(a) {
                let j = choose|j: int| 0 <= j < all.len() && all[j] == a;
                if j < before.len() {
                    assert(before[j] == a);
                    assert(before.contains(a));
                } else {
                    assert(pred(n - 1) && a == (ValueAction { player, kind: kind(n - 1) }));
                }
            }
            if exists|i: int| 0 <= i < n && #[trigger] pred(i) && a == (ValueAction { player, kind: kind(i) }) {
                let i = choose|i: int| 0 <= i < n && #[trigger] pred(i) && a == (ValueAction { player, kind: kind(i) });
                if i < n - 1 {
                    let j = choose|j: int| 0 <= j < before.len() && before[j] == a;
                    assert(all[j] == a);
                } else {
                    assert(all[before.len() as int] == a);
                }
            }
        } else {
            if exists|i: int| 0 <= i < n && #[trigger] pred(i) && a == (ValueAction { player, kind: kind(i) }) {
                let i = choose|i: int| 0 <= i < n && #[trigger] pred(i) && a == (ValueAction { player, kind: kind(i) });
                assert(i < n - 1);
            }
        }
    }
}

/// An action is in two lists joined exactly when it is in one of them.
pub proof fn lemma_joined_has(first: Seq<ValueAction>, second: Seq<ValueAction>, a: ValueAction)
    ensures
        (first + second).contains(a) <==> first.contains(a) || second.contains(a),
{
    let all = first + second;
    if all.contains(a) {
        let j = choose|j: int| 0 <= j < all.len() && all[j] == a;
        if j < first.len() {
            assert(first[j] == a);
        } else {
            assert(second[j - first.len()] == a);
        }
    }
    if first.contains(a) {
        let j = choose|j: int| 0 <= j < first.len() && first[j] == a;
        assert(all[j] == a);
    }
    if second.contains(a) {
        let j = choose|j: int| 0 <= j < second.len() && second[j] == a;
        assert(all[first.len() + j] == a);
    }
}

/// The maritime trades offered are the player's maritime trades.
pub proof fn lemma_maritime_has(board: Board, s: State, player: PlayerId, i: int, a: ValueAction)
    requires
        maritime_actions(board, s, player, i).contains(a),
    ensures
        a.player == player,
        a.kind is MaritimeTrade,
    decreases i,
{
    if i > 0 {
        let before = maritime_actions(board, s, player, i - 1);
        let offer = crate::policy::scan_order()[i - 1];
        let rate = crate::rules::maritime_rate(board, s, player, offer);
        if s.hand(player, offer) < rate {
            lemma_maritime_has(board, s, player, i - 1, a);
        } else {
            let more = actions_where(
                player,
                RESOURCE_COUNT as int,
                crate::value_player::ask_pred(s, offer),
                crate::value_player::maritime_kind(offer, rate),
            );
            lemma_joined_has(before, more, a);
            if before.contains(a) {
                lemma_maritime_has(board, s, player, i - 1, a);
            } else {
                lemma_actions_where_has(
                    player,
                    RESOURCE_COUNT as int,
                    crate::value_player::ask_pred(s, offer),
                    crate::value_player::maritime_kind(offer, rate),
                    a,
                );
            }
        }
    }
}

/// The development card plays offered are the player's plays of a year of plenty, a monopoly, a knight or
/// road building.
pub proof fn lemma_dev_has(board: Board, s: State, player: PlayerId, a: ValueAction)
    requires
        dev_actions(board, s, player).contains(a),
    ensures
        a.player == player,
        a.kind is PlayYearOfPlenty || a.kind is PlayMonopoly || a.kind is PlayKnight || a.kind is PlayRoadBuilding,
{
    let plenty = if crate::engine::may_play_dev(s, player, crate::types::DevCard::YearOfPlenty) {
        plenty_actions(s, player)
    } else {
        Seq::empty()
    };
    let monopoly = if crate::engine::may_play_dev(s, player, crate::types::DevCard::Monopoly) {
        monopoly_actions(player)
    } else {
        Seq::empty()
    };
    let knight = if crate::engine::may_play_dev(s, player, crate::types::DevCard::Knight) {
        seq![ValueAction { player, kind: ValueActionKind::PlayKnight }]
    } else {
        Seq::empty()
    };
    let roads = if crate::engine::may_play_dev(s, player, crate::types::DevCard::RoadBuilding)
        && crate::value_player::free_road_exists(board, s, player) {
        seq![ValueAction { player, kind: ValueActionKind::PlayRoadBuilding }]
    } else {
        Seq::empty()
    };
    assert(dev_actions(board, s, player) == plenty + monopoly + knight + roads);
    lemma_joined_has(plenty + monopoly + knight, roads, a);
    lemma_joined_has(plenty + monopoly, knight, a);
    lemma_joined_has(plenty, monopoly, a);
    if plenty.contains(a) {
        let j = choose|j: int| 0 <= j < plenty.len() && plenty[j] == a;
        let rows = plenty_rows(s, RESOURCE_COUNT as int);
        assert(plenty[j] == plenty_action(player)(rows[j]));
    } else if monopoly.contains(a) {
        let j = choose|j: int| 0 <= j < monopoly.len() && monopoly[j] == a;
        assert(0 <= j < 5);
    } else if knight.contains(a) {
        let j = choose|j: int| 0 <= j < knight.len() && knight[j] == a;
    } else {
        let j = choose|j: int| 0 <= j < roads.len() && roads[j] == a;
    }
}

/// The actions after the roll split into the end of the turn, the cities, settlements and roads, the
/// development card bought, and the maritime trades.
proof fn lemma_main_has(board: Board, s: State, player: PlayerId, a: ValueAction)
    ensures
        main_actions(board, s, player).contains(a) <==> {
            ||| a == (ValueAction { player, kind: ValueActionKind::EndTurn })
            ||| actions_where(player, NODE_COUNT as int, city_pred(s, player), city_kind()).contains(a)
            ||| actions_where(player, NODE_COUNT as int, settlement_pred(board, s, player), settlement_kind()).contains(a)
            ||| actions_where(player, EDGE_COUNT as int, road_pred(board, s, player), road_kind()).contains(a)
            ||| may_buy_dev_card(s, player) && a == (ValueAction { player, kind: ValueActionKind::BuyDevCard })
            ||| maritime_actions(board, s, player, RESOURCE_COUNT as int).contains(a)
        },
{
    let end = seq![ValueAction { player, kind: ValueActionKind::EndTurn }];
    let cities = actions_where(player, NODE_COUNT as int, city_pred(s, player), city_kind());
    let settlements = actions_where(player, NODE_COUNT as int, settlement_pred(board, s, player), settlement_kind());
    let roads = actions_where(player, EDGE_COUNT as int, road_pred(board, s, player), road_kind());
    let buy = if may_buy_dev_card(s, player) {
        seq![ValueAction { player, kind: ValueActionKind::BuyDevCard }]
    } else {
        Seq::empty()
    };
    let trades = maritime_actions(board, s, player, RESOURCE_COUNT as int);
    assert(main_actions(board, s, player) == end + cities + settlements + roads + buy + trades);
    lemma_joined_has(end + cities + settlements + roads + buy, trades, a);
    lemma_joined_has(end + cities + settlements + roads, buy, a);
    lemma_joined_has(end + cities + settlements, roads, a);
    lemma_joined_has(end + cities, settlements, a);
    lemma_joined_has(end, cities, a);
    if end.contains(a) {
        let j = choose|j: int| 0 <= j < end.len() && end[j] == a;
    }
    if a == (ValueAction { player, kind: ValueActionKind::EndTurn }) {
        assert(end[0] == a);
    }
    if buy.contains(a) {
        let j = choose|j: int| 0 <= j < buy.len() && buy[j] == a;
    }
    if may_buy_dev_card(s, player) && a == (ValueAction { player, kind: ValueActionKind::BuyDevCard }) {
        assert(buy[0] == a);
    }
}

/// On the turn player's open play after the roll, the actions offered hold the end of the turn and never a
/// roll, all are the player's, and a city, a settlement or a paid road is offered on a node or edge exactly
/// where the rules allow it.
pub proof fn lemma_actions_after_roll(board: Board, s: State, player: PlayerId)
    requires
        is_player(player),
        s.current_prompt == ActionPrompt::PlayTurn,
        !s.is_road_building,
        s.has_rolled@[player as int],
    ensures
        playable_actions(board, s, player).contains(ValueAction { player, kind: ValueActionKind::EndTurn }),
        !playable_actions(board, s, player).contains(ValueAction { player, kind: ValueActionKind::Roll }),
        forall|a: ValueAction| #[trigger] playable_actions(board, s, player).contains(a) ==> a.player == player,
        forall|n: int|
            0 <= n < NODE_COUNT ==> (#[trigger] playable_actions(board, s, player).contains(
                ValueAction { player, kind: ValueActionKind::BuildCity(n as NodeId) },
            ) <==> build_city_allowed(s, player, n as NodeId)),
        forall|n: int|
            0 <= n < NODE_COUNT ==> (#[trigger] playable_actions(board, s, player).contains(
                ValueAction { player, kind: ValueActionKind::BuildSettlement(n as NodeId) },
            ) <==> build_settlement_allowed(board, s, player, n as NodeId)),
        forall|e: int|
            0 <= e < EDGE_COUNT ==> (#[trigger] playable_actions(board, s, player).contains(
                ValueAction { player, kind: ValueActionKind::BuildRoad(e as EdgeId) },
            ) <==> build_road_allowed(board, s, player, e as EdgeId)),
{
    let dev = dev_actions(board, s, player);
    let main = main_actions(board, s, player);
    assert(playable_actions(board, s, player) == dev + main);
    assert forall|a: ValueAction| #[trigger] playable_actions(board, s, player).contains(a) implies {
        &&& a.player == player
        &&& a.kind is PlayYearOfPlenty || a.kind is PlayMonopoly || a.kind is PlayKnight || a.kind is PlayRoadBuilding
            || main.contains(a)
    } by {
        lemma_joined_has(dev, main, a);
        if dev.contains(a) {
            lemma_dev_has(board, s, player, a);
        } else {
            lemma_main_has(board, s, player, a);
            lemma_actions_where_has(player, NODE_COUNT as int, city_pred(s, player), city_kind(), a);
            lemma_actions_where_has(player, NODE_COUNT as int, settlement_pred(board, s, player), settlement_kind(), a);
            lemma_actions_where_has(player, EDGE_COUNT as int, road_pred(board, s, player), road_kind(), a);
            if maritime_actions(board, s, player, RESOURCE_COUNT as int).contains(a) {
                lemma_maritime_has(board, s, player, RESOURCE_COUNT as int, a);
            }
        }
    }
    let end = ValueAction { player, kind: ValueActionKind::EndTurn };
    lemma_main_has(board, s, player, end);
    lemma_joined_has(dev, main, end);
    let roll = ValueAction { player, kind: ValueActionKind::Roll };
    lemma_joined_has(dev, main, roll);
    if dev.contains(roll) {
        lemma_dev_has(board, s, player, roll);
    }
    lemma_main_has(board, s, player, roll);
    lemma_actions_where_has(player, NODE_COUNT as int, city_pred(s, player), city_kind(), roll);
    lemma_actions_where_has(player, NODE_COUNT as int, settlement_pred(board, s, player), settlement_kind(), roll);
    lemma_actions_where_has(player, EDGE_COUNT as int, road_pred(board, s, player), road_kind(), roll);
    if maritime_actions(board, s, player, RESOURCE_COUNT as int).contains(roll) {
        lemma_maritime_has(board, s, player, RESOURCE_COUNT as int, roll);
    }
    assert forall|n: int| 0 <= n < NODE_COUNT implies (#[trigger] playable_actions(board, s, player).contains(
        ValueAction { player, kind: ValueActionKind::BuildCity(n as NodeId) },
    ) <==> build_city_allowed(s, player, n as NodeId)) by {
        lemma_city_offered(board, s, player, n);
    }
    assert forall|n: int| 0 <= n < NODE_COUNT implies (#[trigger] playable_actions(board, s, player).contains(
        ValueAction { player, kind: ValueActionKind::BuildSettlement(n as NodeId) },
    ) <==> build_settlement_allowed(board, s, player, n as NodeId)) by {
        lemma_settlement_offered(board, s, player, n);
    }
    assert forall|e: int| 0 <= e < EDGE_COUNT implies (#[trigger] playable_actions(board, s, player).contains(
        ValueAction { player, kind: ValueActionKind::BuildRoad(e as EdgeId) },
    ) <==> build_road_allowed(board, s, player, e as EdgeId)) by {
        lemma_road_offered(board, s, player, e);
    }
}

proof fn lemma_city_offered(board: Board, s: State, player: PlayerId, n: int)
    requires
        s.current_prompt == ActionPrompt::PlayTurn,
        !s.is_road_building,
        s.has_rolled@[player as int],
        0 <= n < NODE_COUNT,
    ensures
        playable_actions(board, s, player).contains(ValueAction { player, kind: ValueActionKind::BuildCity(n as NodeId) })
            <==> build_city_allowed(s, player, n as NodeId),
{
    let a = ValueAction { player, kind: ValueActionKind::BuildCity(n as NodeId) };
    lemma_built_here(board, s, player, a);
    lemma_actions_where_has(player, NODE_COUNT as int, city_pred(s, player), city_kind(), a);
    lemma_actions_where_has(player, NODE_COUNT as int, settlement_pred(board, s, player), settlement_kind(), a);
    lemma_actions_where_has(player, EDGE_COUNT as int, road_pred(board, s, player), road_kind(), a);
    if build_city_allowed(s, player, n as NodeId) {
        assert(city_pred(s, player)(n));
        assert(a == (ValueAction { player, kind: city_kind()(n) }));
    }
}

proof fn lemma_settlement_offered(board: Board, s: State, player: PlayerId, n: int)
    requires
        s.current_prompt == ActionPrompt::PlayTurn,
        !s.is_road_building,
        s.has_rolled@[player as int],
        0 <= n < NODE_COUNT,
    ensures
        playable_actions(board, s, player).contains(
            ValueAction { player, kind: ValueActionKind::BuildSettlement(n as NodeId) },
        ) <==> build_settlement_allowed(board, s, player, n as NodeId),
{
    let a = ValueAction { player, kind: ValueActionKind::BuildSettlement(n as NodeId) };
    lemma_built_here(board, s, player, a);
    lemma_actions_where_has(player, NODE_COUNT as int, city_pred(s, player), city_kind(), a);
    lemma_actions_where_has(player, NODE_COUNT as int, settlement_pred(board, s, player), settlement_kind(), a);
    lemma_actions_where_has(player, EDGE_COUNT as int, road_pred(board, s, player), road_kind(), a);
    if build_settlement_allowed(board, s, player, n as NodeId) {
        assert(settlement_pred(board, s, player)(n));
        assert(a == (ValueAction { player, kind: settlement_kind()(n) }));
    }
}

proof fn lemma_road_offered(board: Board, s: State, player: PlayerId, e: int)
    requires
        s.current_prompt == ActionPrompt::PlayTurn,
        !s.is_road_building,
        s.has_rolled@[player as int],
        0 <= e < EDGE_COUNT,
    ensures
        playable_actions(board, s, player).contains(ValueAction { player, kind: ValueActionKind::BuildRoad(e as EdgeId) })
            <==> build_road_allowed(board, s, player, e as EdgeId),
{
    let a = ValueAction { player, kind: ValueActionKind::BuildRoad(e as EdgeId) };
    lemma_built_here(board, s, player, a);
    lemma_actions_where_has(player, NODE_COUNT as int, city_pred(s, player), city_kind(), a);
    lemma_actions_where_has(player, NODE_COUNT as int, settlement_pred(board, s, player), settlement_kind(), a);
    lemma_actions_where_has(player, EDGE_COUNT as int, road_pred(board, s, player), road_kind(), a);
    if build_road_allowed(board, s, player, e as EdgeId) {
        assert(road_pred(board, s, player)(e));
        assert(a == (ValueAction { player, kind: road_kind()(e) }));
    }
}

/// A city, settlement or road is offered after the roll exactly when its own list holds it.
proof fn lemma_built_here(board: Board, s: State, player: PlayerId, a: ValueAction)
    requires
        s.current_prompt == ActionPrompt::PlayTurn,
        !s.is_road_building,
        s.has_rolled@[player as int],
        a.kind is BuildCity || a.kind is BuildSettlement || a.kind is BuildRoad,
    ensures
        playable_actions(board, s, player).contains(a) <==> {
            ||| actions_where(player, NODE_COUNT as int, city_pred(s, player), city_kind()).contains(a)
            ||| actions_where(player, NODE_COUNT as int, settlement_pred(board, s, player), settlement_kind()).contains(a)
            ||| actions_where(player, EDGE_COUNT as int, road_pred(board, s, player), road_kind()).contains(a)
        },
{
    let dev = dev_actions(board, s, player);
    let main = main_actions(board, s, player);
    assert(playable_actions(board, s, player) == dev + main);
    lemma_joined_has(dev, main, a);
    if dev.contains(a) {
        lemma_dev_has(board, s, player, a);
    }
    lemma_main_has(board, s, player, a);
    if maritime_actions(board, s, player, RESOURCE_COUNT as int).contains(a) {
        lemma_maritime_has(board, s, player, RESOURCE_COUNT as int, a);
    }
    lemma_actions_where_has(player, NODE_COUNT as int, city_pred(s, player), city_kind(), a);
    lemma_actions_where_has(player, NODE_COUNT as int, settlement_pred(board, s, player), settlement_kind(), a);
    lemma_actions_where_has(player, EDGE_COUNT as int, road_pred(board, s, player), road_kind(), a);
}

/// While road building on the turn player's open play, the actions offered are exactly the player's free
/// roads, one for each edge that takes one; no roll, no end of the turn and no card is offered.
pub proof fn lemma_actions_while_road_building(board: Board, s: State, player: PlayerId)
    requires
        s.current_prompt == ActionPrompt::PlayTurn,
        s.is_road_building,
    ensures
        forall|a: ValueAction| #[trigger] playable_actions(board, s, player).contains(a) <==> exists|e: int|
            0 <= e < EDGE_COUNT && #[trigger] free_road_allowed(board, s, player, e as EdgeId) && a == (ValueAction {
                player,
                kind: ValueActionKind::BuildRoad(e as EdgeId),
            }),
{
    assert forall|a: ValueAction| #[trigger] playable_actions(board, s, player).contains(a) <==> exists|e: int|
        0 <= e < EDGE_COUNT && #[trigger] free_road_allowed(board, s, player, e as EdgeId) && a == (ValueAction {
            player,
            kind: ValueActionKind::BuildRoad(e as EdgeId),
        }) by {
        lemma_actions_where_has(player, EDGE_COUNT as int, free_road_pred(board, s, player), road_kind(), a);
        if exists|e: int| 0 <= e < EDGE_COUNT && #[trigger] free_road_allowed(board, s, player, e as EdgeId) && a == (ValueAction {
            player,
            kind: ValueActionKind::BuildRoad(e as EdgeId),
        }) {
            let e = choose|e: int| 0 <= e < EDGE_COUNT && #[trigger] free_road_allowed(board, s, player, e as EdgeId) && a == (ValueAction {
                player,
                kind: ValueActionKind::BuildRoad(e as EdgeId),
            });
            assert(free_road_pred(board, s, player)(e) && a == (ValueAction { player, kind: road_kind()(e) }));
        }
        if playable_actions(board, s, player).contains(a) {
            let e = choose|e: int| 0 <= e < EDGE_COUNT && #[trigger] free_road_pred(board, s, player)(e) && a == (ValueAction {
                player,
                kind: road_kind()(e),
            });
            assert(free_road_allowed(board, s, player, e as EdgeId));
        }
    }
}

} // verus!
