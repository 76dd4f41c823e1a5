use maze_search::beam::beam_search_action;
use maze_search::beam::beam_search_action_with_time_threshold;
use maze_search::clock::StepBudget;
use maze_search::greedy::greedy_action;
use maze_search::maze::Coord;
use maze_search::maze::MazeState;

// Greedy takes 3 on the left; the best game goes down to 2 and on to 9.
fn beam_trap_board() -> MazeState {
    let points = vec![3, 0, 0, 0, 2, 0, 0, 9, 0];
    MazeState::from_parts(3, 3, 2, Coord::new(0, 1), points).unwrap()
}

fn best_final_score(state: &MazeState) -> i32 {
    if state.is_done() {
        return state.game_score();
    }
    let mut best = i32::MIN;
    for action in state.legal_actions() {
        let mut next = state.clone();
        next.advance(action);
        best = best.max(best_final_score(&next));
    }
    best
}

fn value_of_move(state: &MazeState, action: usize) -> i32 {
    let mut next = state.clone();
    next.advance(action);
    best_final_score(&next)
}

fn beam_with_budget(state: &MazeState, width: usize, budget: usize) -> usize {
    let mut clock = StepBudget::new(budget);
    beam_search_action(state, width, &mut clock)
}

#[test]
fn beam_search_returns_a_legal_action() {
    for seed in 0..20 {
        let state = MazeState::new(4, 5, 6, Some(seed)).unwrap();
        for width in 0..4 {
            for budget in 0..12 {
                let action = beam_with_budget(&state, width, budget);
                assert!(state.legal_actions().contains(&action));
            }
        }
    }
}

#[test]
fn beam_search_returns_a_legal_action_from_a_tagged_root() {
    let mut state = beam_trap_board();
    state.set_first_action(3);
    assert!(!state.legal_actions().contains(&3));
    assert_eq!(beam_with_budget(&state, 0, 10), 0);
    assert_eq!(beam_with_budget(&state, 2, 0), 0);
    assert_eq!(beam_with_budget(&state, 2, 10), 2);
}

#[test]
fn beam_of_width_zero_falls_back_to_the_first_legal_action() {
    let state = beam_trap_board();
    assert_eq!(beam_with_budget(&state, 0, 1000), 0);
    let corner = MazeState::from_parts(3, 3, 2, Coord::new(2, 2), vec![1; 9]).unwrap();
    assert_eq!(beam_with_budget(&corner, 0, 1000), 1);
}

#[test]
fn beam_with_no_budget_falls_back_to_the_first_legal_action() {
    let state = beam_trap_board();
    assert_eq!(beam_with_budget(&state, 2, 0), 0);
    let corner = MazeState::from_parts(3, 3, 2, Coord::new(2, 2), vec![1; 9]).unwrap();
    assert_eq!(beam_with_budget(&corner, 5, 0), 1);
}

#[test]
fn beam_with_no_time_falls_back_to_the_first_legal_action() {
    let state = beam_trap_board();
    assert_eq!(beam_search_action_with_time_threshold(&state, 2, 0), 0);
    let corner = MazeState::from_parts(3, 3, 2, Coord::new(2, 2), vec![1; 9]).unwrap();
    assert_eq!(beam_search_action_with_time_threshold(&corner, 5, 0), 1);
}

#[test]
fn beam_at_a_finished_game_falls_back_to_the_first_legal_action() {
    let mut state = beam_trap_board();
    state.advance(2);
    state.advance(2);
    assert!(state.is_done());
    assert_eq!(beam_with_budget(&state, 3, 100), 0);
}

#[test]
fn beam_reports_the_last_completed_round_when_the_budget_runs_out() {
    let state = beam_trap_board();
    // Width 2: the first round asks the clock once, the second twice.
    assert_eq!(beam_with_budget(&state, 2, 0), 0);
    assert_eq!(beam_with_budget(&state, 2, 1), 1);
    assert_eq!(beam_with_budget(&state, 2, 2), 1);
    assert_eq!(beam_with_budget(&state, 2, 3), 2);
    assert_eq!(beam_with_budget(&state, 2, 4), 2);
    // Width 3: the second round asks three times.
    assert_eq!(beam_with_budget(&state, 3, 3), 1);
    assert_eq!(beam_with_budget(&state, 3, 4), 2);
}

#[test]
fn beam_leaves_unused_budget_on_the_clock() {
    let state = beam_trap_board();
    let mut clock = StepBudget::new(10);
    assert_eq!(beam_search_action(&state, 2, &mut clock), 2);
    assert_eq!(clock.left(), 7);
    let mut clock = StepBudget::new(10);
    assert_eq!(beam_search_action(&state, 1, &mut clock), 1);
    assert_eq!(clock.left(), 8);
}

#[test]
fn beam_of_width_one_is_greedy_on_the_last_turn() {
    let points = vec![0, 4, 7, 0];
    let mut state = MazeState::from_parts(2, 2, 1, Coord::new(0, 0), points).unwrap();
    assert_eq!(greedy_action(&state), 2);
    assert_eq!(beam_with_budget(&state, 1, 100), 2);
    state = MazeState::from_parts(2, 2, 1, Coord::new(0, 0), vec![0, 7, 4, 0]).unwrap();
    assert_eq!(greedy_action(&state), 0);
    assert_eq!(beam_with_budget(&state, 1, 100), 0);
}

#[test]
fn beam_of_width_one_follows_the_greedy_move() {
    let trap = beam_trap_board();
    assert_eq!(greedy_action(&trap), 1);
    assert_eq!(beam_with_budget(&trap, 1, 100), 1);
    for seed in 0..30 {
        let state = MazeState::new(4, 4, 6, Some(seed)).unwrap();
        assert_eq!(beam_with_budget(&state, 1, 100), greedy_action(&state));
        assert_eq!(beam_with_budget(&state, 1, 1), greedy_action(&state));
    }
}

#[test]
fn beam_of_any_width_is_greedy_with_one_turn_left() {
    for seed in 0..30 {
        let state = MazeState::new(3, 4, 1, Some(seed)).unwrap();
        for width in 1..6 {
            assert_eq!(beam_with_budget(&state, width, 100), greedy_action(&state));
        }
    }
}

#[test]
fn wide_beam_sees_past_the_greedy_move() {
    let state = beam_trap_board();
    assert_eq!(beam_with_budget(&state, 2, 100), 2);
    assert_eq!(beam_with_budget(&state, 3, 100), 2);
    assert_eq!(beam_with_budget(&state, 64, 100), 2);
}

#[test]
fn beam_as_wide_as_the_tree_finds_a_best_game() {
    for seed in 0..25 {
        let state = MazeState::new(3, 4, 4, Some(seed)).unwrap();
        let action = beam_with_budget(&state, 64, 100_000);
        assert_eq!(value_of_move(&state, action), best_final_score(&state));
    }
    let trap = beam_trap_board();
    let action = beam_with_budget(&trap, 4, 100_000);
    assert_eq!(value_of_move(&trap, action), 11);
}

#[test]
fn beam_search_is_repeatable_under_a_counted_budget() {
    for seed in 0..10 {
        let state = MazeState::new(5, 5, 8, Some(seed)).unwrap();
        let again = MazeState::new(5, 5, 8, Some(seed)).unwrap();
        for budget in [0, 1, 5, 17, 1000] {
            let first = beam_with_budget(&state, 3, budget);
            assert_eq!(beam_with_budget(&state, 3, budget), first);
            assert_eq!(beam_with_budget(&again, 3, budget), first);
        }
    }
}

#[test]
fn beam_search_on_the_small_board_is_pinned() {
    let state = MazeState::new(3, 4, 4, Some(121321)).unwrap();
    assert_eq!(state.to_string(), "turn:\t0\nscore:\t0\n@.37\n..35\n.547\n");
    for _ in 0..5 {
        let fresh = MazeState::new(3, 4, 4, Some(121321)).unwrap();
        let mut clock = StepBudget::new(1_000_000);
        assert_eq!(beam_search_action(&fresh, 5, &mut clock), 0);
        assert_eq!(beam_search_action_with_time_threshold(&fresh, 5, 10_000), 0);
    }
    // Right, right, right, down collects 0 + 3 + 7 + 5.
    assert_eq!(best_final_score(&state), 15);
    assert_eq!(value_of_move(&state, 0), 15);
}

#[test]
fn beam_with_time_plays_a_legal_game() {
    let mut state = MazeState::new(30, 30, 100, Some(1)).unwrap();
    let mut moves = 0;
    while !state.is_done() && moves < 3 {
        let action = beam_search_action_with_time_threshold(&state, 5, 10);
        assert!(state.legal_actions().contains(&action));
        state.advance(action);
        moves += 1;
    }
    assert_eq!(state.turn(), 3);
}

#[test]
fn beam_as_wide_as_the_branching_can_miss_the_best_game() {
    // The best game starts to the left: 6 + 6 + 9 + 9. Down collects 9 + 9 at
    // once, and its successors crowd the others out of a beam of four.
    let points = vec![6, 0, 4, 3, 6, 9, 9, 7, 0, 0, 2, 2];
    let state = MazeState::from_parts(3, 4, 4, Coord::new(0, 1), points).unwrap();
    assert_eq!(best_final_score(&state), 30);
    assert_eq!(value_of_move(&state, 1), 30);
    let narrow = beam_with_budget(&state, 4, 1_000_000);
    assert_eq!(narrow, 2);
    assert_eq!(value_of_move(&state, narrow), 28);
    let wide = beam_with_budget(&state, 64, 1_000_000);
    assert_eq!(wide, 1);
}
