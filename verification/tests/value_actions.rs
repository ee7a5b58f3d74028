use fastcore::board::Board;
use fastcore::engine::{ArmyState, RoadState};
use fastcore::rng::rng_for_stream;
use fastcore::state::State;
use fastcore::types::{ActionPrompt, DevCard, Resource, NODE_COUNT, PLAYER_COUNT, RESOURCE_COUNT};
use fastcore::value_player::{apply_value_action, generate_playable_actions, ValueAction, ValueActionKind};

fn totals(state: &State) -> [u32; RESOURCE_COUNT] {
    let mut out = [0u32; RESOURCE_COUNT];
    for r in 0..RESOURCE_COUNT {
        out[r] = state.bank_resources[r] as u32;
        for p in 0..PLAYER_COUNT {
            out[r] += state.player_resources[p][r] as u32;
        }
    }
    out
}

fn main_phase_state() -> State {
    let mut state = State::new();
    state.is_initial_build_phase = false;
    state.current_prompt = ActionPrompt::PlayTurn;
    state.turn_player = 0;
    state.active_player = 0;
    state
}

#[test]
fn opening_offers_every_free_node_in_order() {
    let board = Board::standard();
    let state = State::new();
    let actions = generate_playable_actions(&board, &state, 0);
    assert_eq!(actions.len(), NODE_COUNT);
    for (i, action) in actions.iter().enumerate() {
        assert_eq!(action.player, 0);
        assert_eq!(action.kind, ValueActionKind::BuildSettlement(i as u8));
    }
}

#[test]
fn discard_prompt_leaves_the_cards_open() {
    let board = Board::standard();
    let mut state = main_phase_state();
    state.current_prompt = ActionPrompt::Discard;
    let actions = generate_playable_actions(&board, &state, 0);
    assert_eq!(actions, vec![ValueAction { player: 0, kind: ValueActionKind::Discard(None) }]);
}

#[test]
fn trade_without_the_asked_cards_can_only_be_refused() {
    let board = Board::standard();
    let mut state = main_phase_state();
    state.current_prompt = ActionPrompt::DecideTrade;
    state.active_player = 1;
    state.current_trade[RESOURCE_COUNT + Resource::Ore.as_index()] = 1;
    let actions = generate_playable_actions(&board, &state, 1);
    assert_eq!(actions, vec![ValueAction { player: 1, kind: ValueActionKind::RejectTrade }]);
}

#[test]
fn before_the_roll_only_the_roll_is_offered() {
    let board = Board::standard();
    let state = main_phase_state();
    let actions = generate_playable_actions(&board, &state, 0);
    assert_eq!(actions, vec![ValueAction { player: 0, kind: ValueActionKind::Roll }]);
}

#[test]
fn year_of_plenty_lists_every_pair_once() {
    let board = Board::standard();
    let mut state = main_phase_state();
    let idx = DevCard::YearOfPlenty.as_index();
    state.dev_cards_in_hand[0][idx] = 1;
    state.dev_owned_at_start[0][idx] = true;
    let actions = generate_playable_actions(&board, &state, 0);
    assert_eq!(actions.len(), 16);
    let order = [Resource::Lumber, Resource::Brick, Resource::Wool, Resource::Grain, Resource::Ore];
    let mut k = 0;
    for i in 0..RESOURCE_COUNT {
        for j in i..RESOURCE_COUNT {
            assert_eq!(actions[k].kind, ValueActionKind::PlayYearOfPlenty(order[i], Some(order[j])));
            k += 1;
        }
    }
    assert_eq!(actions[15].kind, ValueActionKind::Roll);
}

#[test]
fn year_of_plenty_falls_back_to_single_cards() {
    let board = Board::standard();
    let mut state = main_phase_state();
    let idx = DevCard::YearOfPlenty.as_index();
    state.dev_cards_in_hand[0][idx] = 1;
    state.dev_owned_at_start[0][idx] = true;
    state.bank_resources = [0; RESOURCE_COUNT];
    state.bank_resources[Resource::Ore.as_index()] = 1;
    let actions = generate_playable_actions(&board, &state, 0);
    assert_eq!(
        actions,
        vec![
            ValueAction { player: 0, kind: ValueActionKind::PlayYearOfPlenty(Resource::Ore, None) },
            ValueAction { player: 0, kind: ValueActionKind::Roll },
        ]
    );
}

#[test]
fn maritime_trades_follow_the_rate_and_the_bank() {
    let board = Board::standard();
    let mut state = main_phase_state();
    state.has_rolled[0] = true;
    state.player_resources[0][Resource::Lumber.as_index()] = 4;
    state.bank_resources[Resource::Grain.as_index()] = 0;
    let actions = generate_playable_actions(&board, &state, 0);
    let trades: Vec<ValueActionKind> = actions
        .iter()
        .filter(|a| matches!(a.kind, ValueActionKind::MaritimeTrade { .. }))
        .map(|a| a.kind)
        .collect();
    assert_eq!(
        trades,
        vec![
            ValueActionKind::MaritimeTrade { offer: Resource::Lumber, rate: 4, ask: Resource::Brick },
            ValueActionKind::MaritimeTrade { offer: Resource::Lumber, rate: 4, ask: Resource::Wool },
            ValueActionKind::MaritimeTrade { offer: Resource::Lumber, rate: 4, ask: Resource::Ore },
        ]
    );
    assert_eq!(actions[0].kind, ValueActionKind::EndTurn);
}

#[test]
fn applying_offered_actions_keeps_every_card() {
    let board = Board::standard();
    for seed in 0..4u64 {
        let mut rng = rng_for_stream(seed, 0);
        let mut state = State::new_with_rng_and_board(&mut rng, &board);
        let mut road_state = RoadState::empty();
        let mut army_state = ArmyState::empty();
        let start = totals(&state);
        for step in 0..300u64 {
            let player = state.active_player;
            let actions = generate_playable_actions(&board, &state, player);
            assert!(!actions.is_empty());
            let action = actions[((step * 7 + seed) as usize) % actions.len()];
            apply_value_action(&board, &mut state, &mut road_state, &mut army_state, &action, &mut rng);
            assert_eq!(totals(&state), start);
        }
    }
}

#[test]
fn a_roll_uses_two_draws_of_the_generator() {
    let board = Board::standard();
    let state = main_phase_state();
    let action = ValueAction { player: 0, kind: ValueActionKind::Roll };
    let mut rng = rng_for_stream(11, 0);
    let mut applied = state.clone();
    apply_value_action(&board, &mut applied, &mut RoadState::empty(), &mut ArmyState::empty(), &action, &mut rng);
    let mut reference = rng_for_stream(11, 0);
    reference.next_u64();
    reference.next_u64();
    assert_eq!(rng.next_u64(), reference.next_u64());
    assert!(applied.has_rolled[0]);
}
