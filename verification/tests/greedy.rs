use maze_search::greedy::greedy_action;
use maze_search::maze::Coord;
use maze_search::maze::MazeState;
use maze_search::playout::play_beam;
use maze_search::playout::play_chokudai;
use maze_search::playout::play_greedy;

#[test]
fn greedy_takes_the_move_with_the_most_points() {
    let points = vec![1, 2, 3, 4, 0, 6, 7, 8, 9];
    let state = MazeState::from_parts(3, 3, 5, Coord::new(1, 1), points).unwrap();
    assert_eq!(greedy_action(&state), 2);
    let points = vec![1, 8, 3, 4, 0, 6, 7, 5, 9];
    let state = MazeState::from_parts(3, 3, 5, Coord::new(1, 1), points).unwrap();
    assert_eq!(greedy_action(&state), 3);
    let points = vec![1, 2, 3, 7, 0, 6, 7, 5, 9];
    let state = MazeState::from_parts(3, 3, 5, Coord::new(1, 1), points).unwrap();
    assert_eq!(greedy_action(&state), 1);
}

#[test]
fn greedy_takes_the_first_of_equal_moves() {
    let points = vec![0, 5, 0, 5, 0, 5, 0, 5, 0];
    let state = MazeState::from_parts(3, 3, 5, Coord::new(1, 1), points).unwrap();
    assert_eq!(greedy_action(&state), 0);
    let points = vec![0, 5, 0, 5, 0, 4, 0, 5, 0];
    let state = MazeState::from_parts(3, 3, 5, Coord::new(1, 1), points).unwrap();
    assert_eq!(greedy_action(&state), 1);
    let empty = MazeState::from_parts(3, 3, 5, Coord::new(2, 2), vec![0; 9]).unwrap();
    assert_eq!(greedy_action(&empty), 1);
}

#[test]
fn greedy_counts_the_points_already_collected() {
    let points = vec![0, 9, 0, 3, 0, 0];
    let mut state = MazeState::from_parts(2, 3, 5, Coord::new(0, 0), points).unwrap();
    assert_eq!(greedy_action(&state), 0);
    state.advance(0);
    assert_eq!(state.game_score(), 9);
    assert_eq!(greedy_action(&state), 0);
    state.advance(1);
    assert_eq!(greedy_action(&state), 2);
}

#[test]
fn greedy_leaves_the_state_as_it_is() {
    let points = vec![1, 2, 3, 4, 0, 6, 7, 8, 9];
    let state = MazeState::from_parts(3, 3, 5, Coord::new(1, 1), points).unwrap();
    let before = state.to_string();
    greedy_action(&state);
    assert_eq!(state.to_string(), before);
}

#[test]
fn play_greedy_plays_to_the_end() {
    let points = vec![3, 0, 0, 0, 2, 0, 0, 9, 0];
    let mut state = MazeState::from_parts(3, 3, 2, Coord::new(0, 1), points).unwrap();
    play_greedy(&mut state);
    assert!(state.is_done());
    assert_eq!(state.turn(), 2);
    assert_eq!(state.game_score(), 3);
    assert_eq!(state.to_string(), "turn:\t2\nscore:\t3\n.@.\n.2.\n.9.\n");
}

#[test]
fn play_greedy_on_a_finished_game_does_nothing() {
    let mut state = MazeState::from_parts(1, 2, 0, Coord::new(0, 0), vec![0, 5]).unwrap();
    play_greedy(&mut state);
    assert_eq!(state.turn(), 0);
    assert_eq!(state.game_score(), 0);
}

#[test]
fn play_beam_plays_to_the_end() {
    let mut state = MazeState::new(3, 4, 4, Some(5)).unwrap();
    play_beam(&mut state, 5, 5);
    assert!(state.is_done());
    assert_eq!(state.turn(), 4);
    assert!(state.game_score() >= 0 && state.game_score() <= 36);
}

#[test]
fn play_chokudai_plays_to_the_end() {
    let mut state = MazeState::new(3, 4, 4, Some(5)).unwrap();
    play_chokudai(&mut state, 1, 4, 5);
    assert!(state.is_done());
    assert_eq!(state.turn(), 4);
    assert!(state.game_score() >= 0 && state.game_score() <= 36);
}
