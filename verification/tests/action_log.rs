use fastcore::action_log::apply_action_with_log;
use fastcore::board::Board;
use fastcore::engine::{ArmyState, RoadState};
use fastcore::rng::{next_u64_mod, rng_for_stream};
use fastcore::state::State;
use fastcore::types::{ActionPrompt, Resource};
use fastcore::value_player::{generate_playable_actions, ValueAction, ValueActionKind};

#[test]
fn opening_moves_are_logged_with_colour_node_and_sorted_road_ends() {
    let board = Board::standard();
    let mut state = State::new();
    let mut road = RoadState::empty();
    let mut army = ArmyState::empty();
    let mut rng = rng_for_stream(7, 0);
    let settle = generate_playable_actions(&board, &state, 0)[0];
    let node = match settle.kind {
        ValueActionKind::BuildSettlement(n) => n,
        _ => panic!("an opening settlement comes first"),
    };
    let line = apply_action_with_log(&board, &mut state, &mut road, &mut army, &settle, &mut rng);
    assert_eq!(line, format!("RED BUILD_SETTLEMENT {node}"));

    let build = generate_playable_actions(&board, &state, 0)[0];
    let edge = match build.kind {
        ValueActionKind::BuildRoad(e) => e,
        _ => panic!("the opening road follows"),
    };
    let ends = board.edge_nodes[edge as usize];
    let (a, b) = if ends[0] <= ends[1] { (ends[0], ends[1]) } else { (ends[1], ends[0]) };
    let line = apply_action_with_log(&board, &mut state, &mut road, &mut army, &build, &mut rng);
    assert_eq!(line, format!("RED BUILD_ROAD ({a}, {b})"));
}

#[test]
fn logged_roll_shows_the_dice_drawn() {
    let board = Board::standard();
    let mut state = State::new();
    state.is_initial_build_phase = false;
    state.current_prompt = ActionPrompt::PlayTurn;
    state.turn_player = 1;
    state.active_player = 1;
    let mut road = RoadState::empty();
    let mut army = ArmyState::empty();
    let mut rng = rng_for_stream(11, 0);
    let mut ahead = rng.clone();
    let first = next_u64_mod(&mut ahead, 6) + 1;
    let second = next_u64_mod(&mut ahead, 6) + 1;
    let roll = ValueAction { player: 1, kind: ValueActionKind::Roll };
    let line = apply_action_with_log(&board, &mut state, &mut road, &mut army, &roll, &mut rng);
    assert_eq!(line, format!("BLUE ROLL ({first}, {second})"));
    assert_eq!(rng.next_u64(), ahead.next_u64());
}

#[test]
fn logged_end_of_turn_has_fixed_words() {
    let board = Board::standard();
    let mut state = State::new();
    state.is_initial_build_phase = false;
    state.current_prompt = ActionPrompt::PlayTurn;
    state.turn_player = 3;
    state.active_player = 3;
    state.has_rolled[3] = true;
    let mut road = RoadState::empty();
    let mut army = ArmyState::empty();
    let mut rng = rng_for_stream(3, 0);
    let end = ValueAction { player: 3, kind: ValueActionKind::EndTurn };
    let line = apply_action_with_log(&board, &mut state, &mut road, &mut army, &end, &mut rng);
    assert_eq!(line, "WHITE END_TURN");
}

#[test]
fn logged_maritime_trade_lists_the_cards_given_then_the_card_asked() {
    let board = Board::standard();
    let mut state = State::new();
    state.is_initial_build_phase = false;
    state.current_prompt = ActionPrompt::PlayTurn;
    state.has_rolled[0] = true;
    state.player_resources[0][Resource::Lumber.as_index()] = 4;
    let mut road = RoadState::empty();
    let mut army = ArmyState::empty();
    let mut rng = rng_for_stream(5, 0);
    let trade = ValueAction {
        player: 0,
        kind: ValueActionKind::MaritimeTrade { offer: Resource::Lumber, rate: 2, ask: Resource::Brick },
    };
    let line = apply_action_with_log(&board, &mut state, &mut road, &mut army, &trade, &mut rng);
    assert_eq!(line, "RED MARITIME_TRADE (WOOD, WOOD, None, None, BRICK)");
}
