use std::cell::Cell;
use std::collections::HashMap;
use std::rc::Rc;

use game_player::game_state::{GameState, PlayerId};
use game_player::game_tree::GameTree;
use game_player::static_evaluator::StaticEvaluator;
use game_player::transposition_table::TranspositionTable;

/// Mock game state for testing minimax
#[derive(Debug, Clone, PartialEq)]
struct MockGameState {
    id: u32,
    player: u8,
    value: Option<i32>, // Pre-set value for leaf nodes
    children: Vec<u32>, // IDs of child states
}

impl MockGameState {
    fn new(id: u32, player: u8) -> Self {
        Self { id, player, value: None, children: Vec::new() }
    }

    fn with_value(mut self, value: i32) -> Self {
        self.value = Some(value);
        self
    }

    fn with_children(mut self, children: Vec<u32>) -> Self {
        self.children = children;
        self
    }

    fn is_terminal(&self) -> bool {
        self.children.is_empty() && self.value.is_some()
    }
}

impl GameState for MockGameState {
    fn fingerprint_of(&self) -> u64 {
        self.id as u64
    }

    fn turn_of(&self) -> u8 {
        self.player
    }

    fn fingerprint(&self) -> u64 {
        self.id as u64
    }

    fn whose_turn(&self) -> u8 {
        self.player
    }
}

/// Mock static evaluator that returns pre-set values or defaults, and counts its calls
struct MockStaticEvaluator {
    values: HashMap<u32, i32>,
    calls: Rc<Cell<u32>>,
}

impl MockStaticEvaluator {
    fn new() -> Self {
        Self { values: HashMap::new(), calls: Rc::new(Cell::new(0)) }
    }

    fn with_value(mut self, state_id: u32, value: i32) -> Self {
        self.values.insert(state_id, value);
        self
    }
}

impl MockStaticEvaluator {
    fn static_value(&self, state: &MockGameState) -> i32 {
        state.value.unwrap_or_else(|| self.values.get(&state.id).copied().unwrap_or(0))
    }
}

impl StaticEvaluator<MockGameState> for MockStaticEvaluator {
    fn value_of(&self, state: &MockGameState) -> i32 {
        self.static_value(state)
    }

    fn alice_wins_of(&self) -> i32 {
        1000
    }

    fn bob_wins_of(&self) -> i32 {
        -1000
    }

    fn evaluate(&self, state: &MockGameState) -> i32 {
        self.calls.set(self.calls.get() + 1);
        self.static_value(state)
    }

    fn alice_wins_value(&self) -> i32 {
        1000
    }

    fn bob_wins_value(&self) -> i32 {
        -1000
    }
}

/// Mock response generator that creates predefined child states, and records the states it expands
struct MockResponseGenerator {
    states: HashMap<u32, MockGameState>,
    expanded: Rc<Cell<u32>>,
}

impl MockResponseGenerator {
    fn new() -> Self {
        Self { states: HashMap::new(), expanded: Rc::new(Cell::new(0)) }
    }

    fn add_state(mut self, state: MockGameState) -> Self {
        self.states.insert(state.id, state);
        self
    }
}

impl MockResponseGenerator {
    fn generate(&self, state: &MockGameState, _depth: i32) -> Vec<MockGameState> {
        self.expanded.set(self.expanded.get() + 1);
        state
            .children
            .iter()
            .filter_map(|&child_id| self.states.get(&child_id).cloned())
            .collect()
    }
}

fn search(
    tt: &mut TranspositionTable<i32>,
    evaluator: MockStaticEvaluator,
    generator: MockResponseGenerator,
    state: &MockGameState,
    max_depth: i32,
) -> Option<MockGameState> {
    let rg = move |s: &MockGameState, depth: i32| generator.generate(s, depth);
    GameTree::new(evaluator, rg, max_depth).find_best_response(tt, state)
}

fn one_ply_generator(root_player: u8) -> MockResponseGenerator {
    let child_player = 1 - root_player;
    MockResponseGenerator::new()
        .add_state(MockGameState::new(1, root_player).with_children(vec![2, 3, 4]))
        .add_state(MockGameState::new(2, child_player).with_value(5))
        .add_state(MockGameState::new(3, child_player).with_value(10))
        .add_state(MockGameState::new(4, child_player).with_value(3))
}

fn one_ply_evaluator() -> MockStaticEvaluator {
    MockStaticEvaluator::new().with_value(2, 5).with_value(3, 10).with_value(4, 3)
}

#[test]
fn test_search_returns_none_for_no_moves() {
    let mut tt = TranspositionTable::new(1000, 100);
    let evaluator = MockStaticEvaluator::new();
    let generator = MockResponseGenerator::new();
    let state = MockGameState::new(1, PlayerId::ALICE as u8);

    let result = search(&mut tt, evaluator, generator, &state, 3);
    assert!(result.is_none());
}

#[test]
fn test_response_generator_trait() {
    let generator = MockResponseGenerator::new()
        .add_state(MockGameState::new(2, PlayerId::BOB as u8))
        .add_state(MockGameState::new(3, PlayerId::BOB as u8));

    let state = MockGameState::new(1, PlayerId::ALICE as u8).with_children(vec![2, 3]);

    let responses = generator.generate(&state, 0);
    assert_eq!(responses.len(), 2);
    assert_eq!(responses[0].id, 2);
    assert_eq!(responses[1].id, 3);
}

#[test]
fn test_empty_response_generation() {
    let generator = MockResponseGenerator::new();
    let state = MockGameState::new(1, PlayerId::ALICE as u8);

    let responses = generator.generate(&state, 0);
    assert!(responses.is_empty());
}

#[test]
fn test_mock_static_evaluator() {
    let evaluator = MockStaticEvaluator::new().with_value(1, 5).with_value(2, -3);

    let state1 = MockGameState::new(1, PlayerId::ALICE as u8);
    let state2 = MockGameState::new(2, PlayerId::BOB as u8);
    let state3 = MockGameState::new(3, PlayerId::ALICE as u8);

    assert_eq!(evaluator.evaluate(&state1), 5);
    assert_eq!(evaluator.evaluate(&state2), -3);
    assert_eq!(evaluator.evaluate(&state3), 0); // Default value

    assert_eq!(evaluator.alice_wins_value(), 1000);
    assert_eq!(evaluator.bob_wins_value(), -1000);
}

#[test]
fn test_mock_game_state_terminal() {
    let state1 = MockGameState::new(1, PlayerId::ALICE as u8);
    let state2 = MockGameState::new(2, PlayerId::BOB as u8).with_value(5);
    let state3 = MockGameState::new(3, PlayerId::ALICE as u8).with_children(vec![4]);

    assert!(!state1.is_terminal()); // No children, no value
    assert!(state2.is_terminal()); // Has value, no children
    assert!(!state3.is_terminal()); // Has children
}

#[test]
fn test_mock_game_state_fingerprint() {
    let state1 = MockGameState::new(100, PlayerId::ALICE as u8);
    let state2 = MockGameState::new(200, PlayerId::BOB as u8);

    assert_eq!(state1.fingerprint(), 100);
    assert_eq!(state2.fingerprint(), 200);
    assert_ne!(state1.fingerprint(), state2.fingerprint());
}

#[test]
fn test_mock_game_state_whose_turn() {
    let alice_state = MockGameState::new(1, PlayerId::ALICE as u8);
    let bob_state = MockGameState::new(2, PlayerId::BOB as u8);

    assert_eq!(alice_state.whose_turn(), PlayerId::ALICE as u8);
    assert_eq!(bob_state.whose_turn(), PlayerId::BOB as u8);
}

#[test]
fn test_transposition_table_integration() {
    let mut tt = TranspositionTable::new(100, 50);

    let fingerprint = 12345u64;
    let value = 3.5f32;
    let quality = 10i16;

    tt.update(fingerprint, value, quality);

    let result = tt.check(fingerprint, -1);
    assert_eq!(result, Some((value, quality)));

    let result_high_quality = tt.check(fingerprint, 15);
    assert_eq!(result_high_quality, None);

    let result_low_quality = tt.check(fingerprint, 5);
    assert_eq!(result_low_quality, Some((value, quality)));
}

#[test]
fn test_search_alice_picks_best_move() {
    let mut tt = TranspositionTable::new(1000, 100);
    let state = MockGameState::new(1, PlayerId::ALICE as u8).with_children(vec![2, 3, 4]);

    let result = search(&mut tt, one_ply_evaluator(), one_ply_generator(PlayerId::ALICE as u8), &state, 1);

    assert!(result.is_some());
    let best_move = result.unwrap();
    assert_eq!(best_move.id, 3); // Should pick the move with highest value (10)
}

#[test]
fn test_search_bob_picks_best_move() {
    let mut tt = TranspositionTable::new(1000, 100);
    let state = MockGameState::new(1, PlayerId::BOB as u8).with_children(vec![2, 3, 4]);

    let result = search(&mut tt, one_ply_evaluator(), one_ply_generator(PlayerId::BOB as u8), &state, 1);

    assert!(result.is_some());
    let best_move = result.unwrap();
    assert_eq!(best_move.id, 4); // Bob should pick the move with lowest value (3)
}

#[test]
fn test_search_respects_max_depth() {
    let generator = || {
        MockResponseGenerator::new()
            .add_state(MockGameState::new(1, PlayerId::ALICE as u8).with_children(vec![2]))
            .add_state(MockGameState::new(2, PlayerId::BOB as u8).with_value(5))
    };
    let mut tt = TranspositionTable::new(1000, 100);
    let state = MockGameState::new(1, PlayerId::ALICE as u8).with_children(vec![2]);

    // Test with depth 0 - should not search deeper
    let result = search(&mut tt, MockStaticEvaluator::new().with_value(2, 5), generator(), &state, 0);
    assert!(result.is_some());

    // Test with depth 1 - should search one level
    let result = search(&mut tt, MockStaticEvaluator::new().with_value(2, 5), generator(), &state, 1);
    assert!(result.is_some());
}

#[test]
fn test_transposition_table_usage() {
    let mut tt = TranspositionTable::new(1000, 100);
    let evaluator = MockStaticEvaluator::new().with_value(2, 5);
    let generator = MockResponseGenerator::new()
        .add_state(MockGameState::new(1, PlayerId::ALICE as u8).with_children(vec![2]))
        .add_state(MockGameState::new(2, PlayerId::BOB as u8).with_value(5));
    let state = MockGameState::new(1, PlayerId::ALICE as u8).with_children(vec![2]);

    // First search should populate the transposition table
    let _result1 = search(&mut tt, evaluator, generator, &state, 2);

    let entry = tt.check(state.fingerprint(), -1);
    assert!(entry.is_some());
}

#[test]
fn test_winning_positions() {
    let mut tt = TranspositionTable::new(1000, 100);
    let evaluator = MockStaticEvaluator::new();
    let generator = MockResponseGenerator::new()
        .add_state(MockGameState::new(1, PlayerId::ALICE as u8).with_children(vec![2, 3]))
        .add_state(MockGameState::new(2, PlayerId::BOB as u8).with_value(1000)) // Alice wins
        .add_state(MockGameState::new(3, PlayerId::BOB as u8).with_value(5));
    let state = MockGameState::new(1, PlayerId::ALICE as u8).with_children(vec![2, 3]);

    let result = search(&mut tt, evaluator, generator, &state, 1);

    assert!(result.is_some());
    let best_move = result.unwrap();
    assert_eq!(best_move.id, 2); // Should pick the winning move
}

#[test]
fn test_alternating_players() {
    let mut tt = TranspositionTable::new(1000, 100);
    let evaluator = MockStaticEvaluator::new().with_value(2, 8).with_value(3, 12).with_value(4, 6).with_value(5, 15);

    // Create a tree: Alice -> Bob -> Alice
    let generator = MockResponseGenerator::new()
        .add_state(MockGameState::new(1, PlayerId::ALICE as u8).with_children(vec![2, 3]))
        .add_state(MockGameState::new(2, PlayerId::BOB as u8).with_children(vec![4]))
        .add_state(MockGameState::new(3, PlayerId::BOB as u8).with_children(vec![5]))
        .add_state(MockGameState::new(4, PlayerId::ALICE as u8).with_value(6))
        .add_state(MockGameState::new(5, PlayerId::ALICE as u8).with_value(15));
    let state = MockGameState::new(1, PlayerId::ALICE as u8).with_children(vec![2, 3]);

    let result = search(&mut tt, evaluator, generator, &state, 3);

    assert!(result.is_some());
    // Alice should choose move 3 because Bob will be forced to allow Alice to reach value 15
    // whereas move 2 only leads to value 6
    let best_move = result.unwrap();
    assert_eq!(best_move.id, 3);
}

#[test]
fn winning_reply_is_not_searched_below() {
    let mut tt = TranspositionTable::new(1000, 100);
    let evaluator = MockStaticEvaluator::new();
    let generator = MockResponseGenerator::new()
        .add_state(MockGameState::new(1, PlayerId::ALICE as u8).with_children(vec![2, 3]))
        .add_state(MockGameState::new(2, PlayerId::BOB as u8).with_value(1000).with_children(vec![4]))
        .add_state(MockGameState::new(3, PlayerId::BOB as u8).with_value(5).with_children(vec![4]))
        .add_state(MockGameState::new(4, PlayerId::ALICE as u8).with_value(0));
    let expanded = generator.expanded.clone();
    let state = MockGameState::new(1, PlayerId::ALICE as u8).with_children(vec![2, 3]);

    let result = search(&mut tt, evaluator, generator, &state, 3);

    assert_eq!(result.map(|s| s.id), Some(2));
    // Only the root was expanded: the win ends the search and nothing descends below it.
    assert_eq!(expanded.get(), 1);
}

#[test]
fn cache_reuse_across_searches() {
    let mut tt = TranspositionTable::new(1000, 100);
    let state = MockGameState::new(1, PlayerId::ALICE as u8).with_children(vec![2, 3, 4]);

    let first_evaluator = one_ply_evaluator();
    let first_calls = first_evaluator.calls.clone();
    let first = search(&mut tt, first_evaluator, one_ply_generator(PlayerId::ALICE as u8), &state, 1);
    assert_eq!(first.map(|s| s.id), Some(3));
    assert_eq!(first_calls.get(), 3);
    assert_eq!(tt.check(1, -1), Some((10, 1)));

    let second_evaluator = one_ply_evaluator();
    let second_calls = second_evaluator.calls.clone();
    let second = search(&mut tt, second_evaluator, one_ply_generator(PlayerId::ALICE as u8), &state, 1);
    assert_eq!(second.map(|s| s.id), Some(3));
    assert_eq!(second_calls.get(), 0);
}

#[test]
fn two_ply_search_stores_values_with_their_quality() {
    let mut tt = TranspositionTable::new(1000, 100);
    let evaluator = MockStaticEvaluator::new().with_value(2, 8).with_value(3, 12).with_value(4, 6).with_value(5, 15);
    let generator = MockResponseGenerator::new()
        .add_state(MockGameState::new(1, PlayerId::ALICE as u8).with_children(vec![2, 3]))
        .add_state(MockGameState::new(2, PlayerId::BOB as u8).with_children(vec![4]))
        .add_state(MockGameState::new(3, PlayerId::BOB as u8).with_children(vec![5]))
        .add_state(MockGameState::new(4, PlayerId::ALICE as u8).with_value(6))
        .add_state(MockGameState::new(5, PlayerId::ALICE as u8).with_value(15));
    let state = MockGameState::new(1, PlayerId::ALICE as u8).with_children(vec![2, 3]);

    let result = search(&mut tt, evaluator, generator, &state, 2);

    assert_eq!(result.map(|s| s.id), Some(3));
    assert_eq!(tt.check(1, -1), Some((15, 2)));
    assert_eq!(tt.check(3, -1), Some((15, 1)));
    assert_eq!(tt.check(5, -1), Some((15, 0)));
}

#[test]
fn out_of_range_evaluation_is_taken_as_win_value() {
    let mut tt = TranspositionTable::new(1000, 100);
    let evaluator = MockStaticEvaluator::new().with_value(2, 7).with_value(3, 5000);
    let generator = MockResponseGenerator::new()
        .add_state(MockGameState::new(1, PlayerId::ALICE as u8).with_children(vec![2, 3]))
        .add_state(MockGameState::new(2, PlayerId::BOB as u8))
        .add_state(MockGameState::new(3, PlayerId::BOB as u8));
    let state = MockGameState::new(1, PlayerId::ALICE as u8).with_children(vec![2, 3]);

    let result = search(&mut tt, evaluator, generator, &state, 1);

    assert_eq!(result.map(|s| s.id), Some(3));
    assert_eq!(tt.check(3, -1), Some((1000, 0)));
    assert_eq!(tt.check(1, -1), Some((1000, 1)));
}

#[test]
fn pruned_bob_node_is_not_stored() {
    // Alice at the root: A (id 2) leads to Bob choosing 6; B (id 3) lets Bob choose between 4 and 9. After A, alpha is
    // 6, so Bob's reply 4 under B cuts B off and B's bound is not stored.
    let mut tt = TranspositionTable::new(1000, 100);
    let evaluator = MockStaticEvaluator::new()
        .with_value(2, 8)
        .with_value(3, 7)
        .with_value(4, 6)
        .with_value(5, 4)
        .with_value(6, 9);
    let generator = MockResponseGenerator::new()
        .add_state(MockGameState::new(1, PlayerId::ALICE as u8).with_children(vec![2, 3]))
        .add_state(MockGameState::new(2, PlayerId::BOB as u8).with_children(vec![4]))
        .add_state(MockGameState::new(3, PlayerId::BOB as u8).with_children(vec![5, 6]))
        .add_state(MockGameState::new(4, PlayerId::ALICE as u8))
        .add_state(MockGameState::new(5, PlayerId::ALICE as u8))
        .add_state(MockGameState::new(6, PlayerId::ALICE as u8));
    let state = MockGameState::new(1, PlayerId::ALICE as u8).with_children(vec![2, 3]);

    let result = search(&mut tt, evaluator, generator, &state, 2);

    assert_eq!(result.map(|s| s.id), Some(2));
    assert_eq!(tt.check(1, -1), Some((6, 2)));
    assert_eq!(tt.check(2, -1), Some((6, 1)));
    // B keeps its static value: the cut-off search did not overwrite it.
    assert_eq!(tt.check(3, -1), Some((7, 0)));
}

#[test]
fn repeated_searches_from_empty_tables_agree() {
    let run = || {
        let mut tt = TranspositionTable::new(1000, 100);
        let evaluator =
            MockStaticEvaluator::new().with_value(2, 8).with_value(3, 12).with_value(4, 6).with_value(5, 15);
        let generator = MockResponseGenerator::new()
            .add_state(MockGameState::new(1, PlayerId::ALICE as u8).with_children(vec![2, 3]))
            .add_state(MockGameState::new(2, PlayerId::BOB as u8).with_children(vec![4]))
            .add_state(MockGameState::new(3, PlayerId::BOB as u8).with_children(vec![5]))
            .add_state(MockGameState::new(4, PlayerId::ALICE as u8).with_value(6))
            .add_state(MockGameState::new(5, PlayerId::ALICE as u8).with_value(15));
        let state = MockGameState::new(1, PlayerId::ALICE as u8).with_children(vec![2, 3]);
        search(&mut tt, evaluator, generator, &state, 3).map(|s| s.fingerprint())
    };
    let first = run();
    assert_eq!(first, Some(3));
    assert_eq!(run(), first);
    assert_eq!(run(), first);
}

#[test]
fn no_response_leaves_table_unchanged() {
    let mut tt = TranspositionTable::new(1000, 100);
    tt.set(7, 42, 3);
    let evaluator = MockStaticEvaluator::new();
    let calls = evaluator.calls.clone();
    let state = MockGameState::new(1, PlayerId::BOB as u8);

    let result = search(&mut tt, evaluator, MockResponseGenerator::new(), &state, 3);

    assert!(result.is_none());
    assert_eq!(calls.get(), 0);
    assert_eq!(tt.check(1, -1), None);
    assert_eq!(tt.check(7, -1), Some((42, 3)));
}

#[test]
fn equal_values_go_to_the_earlier_response() {
    let mut tt = TranspositionTable::new(1000, 100);
    let evaluator = MockStaticEvaluator::new().with_value(2, 4).with_value(3, 9).with_value(4, 9);
    let generator = MockResponseGenerator::new()
        .add_state(MockGameState::new(1, PlayerId::ALICE as u8).with_children(vec![2, 3, 4]))
        .add_state(MockGameState::new(2, PlayerId::BOB as u8))
        .add_state(MockGameState::new(3, PlayerId::BOB as u8))
        .add_state(MockGameState::new(4, PlayerId::BOB as u8));
    let state = MockGameState::new(1, PlayerId::ALICE as u8).with_children(vec![2, 3, 4]);

    let result = search(&mut tt, evaluator, generator, &state, 1);

    assert_eq!(result.map(|s| s.id), Some(3));
    assert_eq!(tt.check(1, -1), Some((9, 1)));
}
