use maze_search::beam::beam_search_action;
use maze_search::chokudai::chokudai_search_action;
use maze_search::chokudai::chokudai_search_best;
use maze_search::chokudai::chokudai_search_action_wirh_time_threshold;
use maze_search::clock::StepBudget;
use maze_search::maze::Coord;
use maze_search::maze::MazeState;

fn chokudai_trap_board() -> MazeState {
    let points = vec![3, 0, 0, 0, 2, 0, 0, 9, 0];
    MazeState::from_parts(3, 3, 2, Coord::new(0, 1), points).unwrap()
}

fn best_score_from(state: &MazeState) -> i32 {
    if state.is_done() {
        return state.game_score();
    }
    let mut best = i32::MIN;
    for action in state.legal_actions() {
        let mut next = state.clone();
        next.advance(action);
        best = best.max(best_score_from(&next));
    }
    best
}

fn value_of_first_move(state: &MazeState, action: usize) -> i32 {
    let mut next = state.clone();
    next.advance(action);
    best_score_from(&next)
}

// `rounds` rounds: the clock is asked after each, so it lets one check fewer pass.
fn chokudai_rounds(state: &MazeState, width: usize, depth: usize, rounds: usize) -> usize {
    let mut clock = StepBudget::new(rounds - 1);
    chokudai_search_action(state, width, depth, &mut clock)
}

#[test]
fn chokudai_search_returns_a_legal_action() {
    for seed in 0..20 {
        let state = MazeState::new(4, 5, 6, Some(seed)).unwrap();
        for width in 0..3 {
            for depth in 0..8 {
                for rounds in 1..4 {
                    let action = chokudai_rounds(&state, width, depth, rounds);
                    assert!(state.legal_actions().contains(&action));
                }
            }
        }
    }
}

#[test]
fn chokudai_returns_a_legal_action_from_a_tagged_root() {
    let mut state = chokudai_trap_board();
    state.set_first_action(3);
    assert_eq!(chokudai_rounds(&state, 0, 2, 3), 0);
    assert_eq!(chokudai_rounds(&state, 1, 0, 3), 0);
    assert_eq!(chokudai_rounds(&state, 1, 2, 2), 2);
}

#[test]
fn chokudai_round_by_round() {
    let state = chokudai_trap_board();
    // Round 1 follows the greedy move to the end; round 2 tries the next best.
    assert_eq!(chokudai_rounds(&state, 1, 2, 1), 1);
    assert_eq!(chokudai_rounds(&state, 1, 2, 2), 2);
    assert_eq!(chokudai_rounds(&state, 1, 2, 3), 2);
    assert_eq!(chokudai_rounds(&state, 1, 2, 50), 2);
    // A wider beam sees both in the first round.
    assert_eq!(chokudai_rounds(&state, 2, 2, 1), 2);
}

#[test]
fn chokudai_of_depth_one_ranks_the_first_moves() {
    let state = chokudai_trap_board();
    assert_eq!(chokudai_rounds(&state, 1, 1, 1), 1);
    assert_eq!(chokudai_rounds(&state, 1, 1, 10), 1);
    assert_eq!(chokudai_rounds(&state, 3, 1, 10), 1);
}

#[test]
fn chokudai_deeper_than_the_game_stops_at_its_end() {
    let state = chokudai_trap_board();
    assert_eq!(chokudai_rounds(&state, 1, 7, 1), 1);
    assert_eq!(chokudai_rounds(&state, 1, 7, 2), 2);
    assert_eq!(chokudai_rounds(&state, 1, 100, 30), 2);
}

#[test]
fn chokudai_of_width_zero_falls_back_to_the_first_legal_action() {
    let state = chokudai_trap_board();
    assert_eq!(chokudai_rounds(&state, 0, 2, 5), 0);
    let corner = MazeState::from_parts(3, 3, 2, Coord::new(2, 2), vec![1; 9]).unwrap();
    assert_eq!(chokudai_rounds(&corner, 0, 2, 5), 1);
}

#[test]
fn chokudai_of_depth_zero_falls_back_to_the_first_legal_action() {
    let state = chokudai_trap_board();
    assert_eq!(chokudai_rounds(&state, 3, 0, 5), 0);
}

#[test]
fn chokudai_at_a_finished_game_falls_back_to_the_first_legal_action() {
    let mut state = chokudai_trap_board();
    state.advance(2);
    state.advance(2);
    assert!(state.is_done());
    assert_eq!(chokudai_rounds(&state, 3, 2, 5), 0);
}

#[test]
fn chokudai_with_no_time_runs_one_round() {
    let state = chokudai_trap_board();
    assert_eq!(chokudai_search_action_wirh_time_threshold(&state, 1, 2, 0), 1);
    assert_eq!(chokudai_search_action_wirh_time_threshold(&state, 2, 2, 0), 2);
}

#[test]
fn chokudai_asks_the_clock_once_a_round() {
    let state = chokudai_trap_board();
    let mut clock = StepBudget::new(5);
    chokudai_search_action(&state, 1, 2, &mut clock);
    assert_eq!(clock.left(), 0);
}

#[test]
fn chokudai_with_time_finds_the_best_move_of_a_small_game() {
    let state = chokudai_trap_board();
    assert_eq!(chokudai_search_action_wirh_time_threshold(&state, 1, 2, 50), 2);
}

#[test]
fn chokudai_is_repeatable_under_a_counted_budget() {
    for seed in 0..10 {
        let state = MazeState::new(5, 5, 8, Some(seed)).unwrap();
        let again = MazeState::new(5, 5, 8, Some(seed)).unwrap();
        for rounds in [1, 2, 5, 40] {
            let first = chokudai_rounds(&state, 2, 8, rounds);
            assert_eq!(chokudai_rounds(&state, 2, 8, rounds), first);
            assert_eq!(chokudai_rounds(&again, 2, 8, rounds), first);
        }
    }
}

#[test]
fn chokudai_with_rounds_enough_finds_a_best_game() {
    // A root with four turns left weighs 4 * (4 * (4 * 1 + 1) + 1) + 1 = 85.
    for seed in 0..25 {
        let state = MazeState::new(3, 4, 4, Some(seed)).unwrap();
        let action = chokudai_rounds(&state, 1, 4, 85);
        assert_eq!(value_of_first_move(&state, action), best_score_from(&state));
        let deeper = chokudai_rounds(&state, 2, 9, 85);
        assert_eq!(value_of_first_move(&state, deeper), best_score_from(&state));
    }
}

#[test]
fn chokudai_with_rounds_enough_is_no_worse_than_any_beam() {
    for seed in 0..10 {
        let state = MazeState::new(3, 4, 4, Some(seed)).unwrap();
        let patient = chokudai_rounds(&state, 1, 4, 85);
        for width in 0..7 {
            for budget in [0, 1, 3, 10, 1000] {
                let mut clock = StepBudget::new(budget);
                let beam = beam_search_action(&state, width, &mut clock);
                assert!(value_of_first_move(&state, patient) >= value_of_first_move(&state, beam));
            }
        }
    }
}

#[test]
fn chokudai_over_the_whole_game_is_no_worse_than_beam_search() {
    // A beam of width w expands at most w states a turn; chokudai search of
    // width 1 expands as many in w rounds.
    let state = MazeState::new(3, 4, 4, Some(121321)).unwrap();
    for width in 1..6 {
        let mut clock = StepBudget::new(1_000_000);
        let beam = beam_search_action(&state, width, &mut clock);
        let chokudai = chokudai_rounds(&state, 1, 4, width);
        assert!(value_of_first_move(&state, chokudai) >= value_of_first_move(&state, beam));
    }
    let trap = chokudai_trap_board();
    let mut clock = StepBudget::new(1_000_000);
    let beam = beam_search_action(&trap, 1, &mut clock);
    let chokudai = chokudai_rounds(&trap, 1, 2, 1);
    assert!(value_of_first_move(&trap, chokudai) >= value_of_first_move(&trap, beam));
}

#[test]
fn chokudai_with_time_plays_a_legal_game() {
    let mut state = MazeState::new(30, 30, 100, Some(1)).unwrap();
    let mut moves = 0;
    while !state.is_done() && moves < 3 {
        let action = chokudai_search_action_wirh_time_threshold(&state, 1, 100, 10);
        assert!(state.legal_actions().contains(&action));
        state.advance(action);
        moves += 1;
    }
    assert_eq!(state.turn(), 3);
}

fn reported_after(state: &MazeState, width: usize, depth: usize, rounds: usize) -> Option<MazeState> {
    let mut clock = StepBudget::new(rounds - 1);
    chokudai_search_best(state, width, depth, &mut clock)
}

#[test]
fn chokudai_reports_the_state_it_rests_on() {
    let state = chokudai_trap_board();
    let first = reported_after(&state, 1, 2, 1).unwrap();
    assert_eq!(first.evaluated_score(), 3);
    assert_eq!(first.game_score(), 3);
    assert_eq!(first.first_action(), Some(1));
    assert_eq!(first.turn(), 2);
    assert_eq!(first.to_string(), "turn:\t2\nscore:\t3\n.@.\n.2.\n.9.\n");
    let second = reported_after(&state, 1, 2, 2).unwrap();
    assert_eq!(second.evaluated_score(), 11);
    assert_eq!(second.first_action(), Some(2));
    assert_eq!(second.to_string(), "turn:\t2\nscore:\t11\n3..\n...\n.@.\n");
    let shallow = reported_after(&state, 1, 1, 4).unwrap();
    assert_eq!(shallow.evaluated_score(), 3);
    assert_eq!(shallow.turn(), 1);
}

#[test]
fn chokudai_reports_nothing_where_it_reaches_no_state() {
    let state = chokudai_trap_board();
    assert!(reported_after(&state, 0, 2, 3).is_none());
    assert!(reported_after(&state, 2, 0, 3).is_none());
    let mut done = chokudai_trap_board();
    done.advance(0);
    done.advance(1);
    assert!(reported_after(&done, 2, 2, 3).is_none());
}

#[test]
fn more_rounds_never_report_a_worse_state() {
    for seed in 0..10 {
        let state = MazeState::new(4, 4, 6, Some(seed)).unwrap();
        for width in 1..3 {
            for depth in 1..8 {
                let mut last = i32::MIN;
                for rounds in 1..25 {
                    let best = reported_after(&state, width, depth, rounds).unwrap();
                    assert!(best.evaluated_score() >= last);
                    last = best.evaluated_score();
                }
            }
        }
    }
}

#[test]
fn chokudai_with_few_rounds_can_fall_behind_a_beam() {
    let points = vec![8, 1, 7, 1, 1, 3, 3, 7, 0, 3, 8, 0];
    let state = MazeState::from_parts(3, 4, 4, Coord::new(2, 3), points).unwrap();
    let mut clock = StepBudget::new(1_000_000);
    let beam = beam_search_action(&state, 3, &mut clock);
    let few = chokudai_rounds(&state, 1, 4, 3);
    assert_eq!(beam, 3);
    assert_eq!(few, 1);
    assert!(value_of_first_move(&state, few) < value_of_first_move(&state, beam));
    let many = chokudai_rounds(&state, 1, 4, 400);
    assert_eq!(value_of_first_move(&state, many), best_score_from(&state));
    assert!(value_of_first_move(&state, many) >= value_of_first_move(&state, beam));
}
