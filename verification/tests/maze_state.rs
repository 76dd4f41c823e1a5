use maze_search::maze::dims_fit;
use maze_search::maze::Coord;
use maze_search::maze::MazeState;

fn trap_board() -> MazeState {
    let points = vec![3, 0, 0, 0, 2, 0, 0, 9, 0];
    MazeState::from_parts(3, 3, 2, Coord::new(0, 1), points).unwrap()
}

#[test]
fn coord_new_keeps_row_and_column() {
    let c = Coord::new(2, 5);
    assert_eq!(c.y, 2);
    assert_eq!(c.x, 5);
}

#[test]
fn from_parts_builds_the_given_state() {
    let state = trap_board();
    assert_eq!(state.height(), 3);
    assert_eq!(state.width(), 3);
    assert_eq!(state.end_turn(), 2);
    assert_eq!(state.turn(), 0);
    assert_eq!(state.game_score(), 0);
    assert_eq!(state.evaluated_score(), 0);
    assert_eq!(state.first_action(), None);
    assert_eq!(state.character(), Coord::new(0, 1));
    assert_eq!(state.point_at(0, 0), 3);
    assert_eq!(state.point_at(2, 1), 9);
    assert!(!state.is_done());
}

#[test]
fn from_parts_rejects_a_board_of_one_cell() {
    assert!(MazeState::from_parts(1, 1, 3, Coord::new(0, 0), vec![0]).is_none());
}

#[test]
fn from_parts_rejects_an_empty_board() {
    assert!(MazeState::from_parts(0, 3, 3, Coord::new(0, 0), vec![]).is_none());
    assert!(MazeState::from_parts(3, 0, 3, Coord::new(0, 0), vec![]).is_none());
}

#[test]
fn from_parts_rejects_a_wrong_number_of_cells() {
    assert!(MazeState::from_parts(2, 2, 3, Coord::new(0, 0), vec![0, 1, 2]).is_none());
    assert!(MazeState::from_parts(2, 2, 3, Coord::new(0, 0), vec![0, 1, 2, 3, 4]).is_none());
}

#[test]
fn from_parts_rejects_points_out_of_range() {
    assert!(MazeState::from_parts(2, 2, 3, Coord::new(0, 0), vec![0, 1, 2, 10]).is_none());
    assert!(MazeState::from_parts(2, 2, 3, Coord::new(0, 0), vec![0, -1, 2, 3]).is_none());
    assert!(MazeState::from_parts(2, 2, 3, Coord::new(0, 0), vec![0, 1, 2, 9]).is_some());
}

#[test]
fn from_parts_rejects_a_character_off_the_board() {
    assert!(MazeState::from_parts(2, 2, 3, Coord::new(2, 0), vec![0, 1, 2, 3]).is_none());
    assert!(MazeState::from_parts(2, 2, 3, Coord::new(0, 2), vec![0, 1, 2, 3]).is_none());
    assert!(MazeState::from_parts(2, 2, 3, Coord::new(-1, 0), vec![0, 1, 2, 3]).is_none());
    assert!(MazeState::from_parts(2, 2, 3, Coord::new(0, -1), vec![0, 1, 2, 3]).is_none());
}

#[test]
fn from_parts_rejects_a_game_too_long_for_the_score() {
    assert!(MazeState::from_parts(1, 2, 238_609_294, Coord::new(0, 0), vec![0, 1]).is_some());
    assert!(MazeState::from_parts(1, 2, 238_609_295, Coord::new(0, 0), vec![0, 1]).is_none());
}

#[test]
fn dims_fit_tells_the_boards_a_state_can_have() {
    assert!(dims_fit(3, 4, 4));
    assert!(dims_fit(1, 2, 0));
    assert!(dims_fit(2, 1, 100));
    assert!(!dims_fit(1, 1, 4));
    assert!(!dims_fit(0, 4, 4));
    assert!(!dims_fit(4, 0, 4));
    assert!(!dims_fit(0x8000_0000, 1, 4));
    assert!(dims_fit(0x7fff_ffff, 1, 4));
}

#[test]
fn legal_actions_in_the_corners() {
    let points = vec![0; 12];
    let top_left = MazeState::from_parts(3, 4, 4, Coord::new(0, 0), points.clone()).unwrap();
    assert_eq!(top_left.legal_actions(), vec![0, 2]);
    let top_right = MazeState::from_parts(3, 4, 4, Coord::new(0, 3), points.clone()).unwrap();
    assert_eq!(top_right.legal_actions(), vec![1, 2]);
    let bottom_left = MazeState::from_parts(3, 4, 4, Coord::new(2, 0), points.clone()).unwrap();
    assert_eq!(bottom_left.legal_actions(), vec![0, 3]);
    let bottom_right = MazeState::from_parts(3, 4, 4, Coord::new(2, 3), points).unwrap();
    assert_eq!(bottom_right.legal_actions(), vec![1, 3]);
}

#[test]
fn legal_actions_on_an_edge_and_inside() {
    let points = vec![0; 12];
    let top = MazeState::from_parts(3, 4, 4, Coord::new(0, 1), points.clone()).unwrap();
    assert_eq!(top.legal_actions(), vec![0, 1, 2]);
    let left = MazeState::from_parts(3, 4, 4, Coord::new(1, 0), points.clone()).unwrap();
    assert_eq!(left.legal_actions(), vec![0, 2, 3]);
    let inside = MazeState::from_parts(3, 4, 4, Coord::new(1, 2), points).unwrap();
    assert_eq!(inside.legal_actions(), vec![0, 1, 2, 3]);
}

#[test]
fn legal_actions_are_never_empty() {
    let shapes: Vec<(usize, usize)> = vec![(1, 2), (2, 1), (1, 5), (5, 1), (2, 2), (3, 4)];
    for (height, width) in shapes {
        for y in 0..height {
            for x in 0..width {
                let points = vec![1; height * width];
                let at = Coord::new(y as i32, x as i32);
                let state = MazeState::from_parts(height, width, 3, at, points).unwrap();
                let actions = state.legal_actions();
                assert!(!actions.is_empty());
                for action in actions {
                    let mut next = state.clone();
                    next.advance(action);
                    let c = next.character();
                    assert!(0 <= c.y && (c.y as usize) < height);
                    assert!(0 <= c.x && (c.x as usize) < width);
                }
            }
        }
    }
}

#[test]
fn legal_actions_stay_non_empty_along_a_game() {
    let mut state = MazeState::new(3, 4, 20, Some(7)).unwrap();
    while !state.is_done() {
        let actions = state.legal_actions();
        assert!(!actions.is_empty());
        let action = actions[state.turn() % actions.len()];
        state.advance(action);
    }
    assert_eq!(state.turn(), 20);
}

#[test]
fn advance_moves_collects_and_counts_the_turn() {
    let mut state = trap_board();
    state.advance(2);
    assert_eq!(state.character(), Coord::new(1, 1));
    assert_eq!(state.game_score(), 2);
    assert_eq!(state.point_at(1, 1), 0);
    assert_eq!(state.turn(), 1);
    assert_eq!(state.evaluated_score(), 0);
    assert!(!state.is_done());
    state.advance(2);
    assert_eq!(state.character(), Coord::new(2, 1));
    assert_eq!(state.game_score(), 11);
    assert_eq!(state.point_at(2, 1), 0);
    assert_eq!(state.turn(), 2);
    assert!(state.is_done());
}

#[test]
fn advance_in_each_direction() {
    let points = vec![1, 2, 3, 4, 0, 6, 7, 8, 9];
    let centre = MazeState::from_parts(3, 3, 5, Coord::new(1, 1), points).unwrap();
    let mut right = centre.clone();
    right.advance(0);
    assert_eq!(right.character(), Coord::new(1, 2));
    assert_eq!(right.game_score(), 6);
    let mut left = centre.clone();
    left.advance(1);
    assert_eq!(left.character(), Coord::new(1, 0));
    assert_eq!(left.game_score(), 4);
    let mut down = centre.clone();
    down.advance(2);
    assert_eq!(down.character(), Coord::new(2, 1));
    assert_eq!(down.game_score(), 8);
    let mut up = centre.clone();
    up.advance(3);
    assert_eq!(up.character(), Coord::new(0, 1));
    assert_eq!(up.game_score(), 2);
}

#[test]
fn advance_on_an_empty_cell_keeps_the_score() {
    let mut state = trap_board();
    state.advance(0);
    assert_eq!(state.game_score(), 0);
    assert_eq!(state.character(), Coord::new(0, 2));
    assert_eq!(state.turn(), 1);
}

#[test]
fn evaluate_score_copies_the_game_score() {
    let mut state = trap_board();
    state.advance(1);
    assert_eq!(state.game_score(), 3);
    assert_eq!(state.evaluated_score(), 0);
    state.evaluate_score();
    assert_eq!(state.evaluated_score(), 3);
    assert_eq!(state.game_score(), 3);
}

#[test]
fn set_first_action_tags_the_state() {
    let mut state = trap_board();
    state.set_first_action(2);
    assert_eq!(state.first_action(), Some(2));
    state.advance(2);
    assert_eq!(state.first_action(), Some(2));
}

#[test]
fn clone_is_independent() {
    let state = trap_board();
    let mut copy = state.clone();
    copy.advance(1);
    assert_eq!(copy.point_at(0, 0), 0);
    assert_eq!(state.point_at(0, 0), 3);
    assert_eq!(state.turn(), 0);
    assert_eq!(state.character(), Coord::new(0, 1));
}

#[test]
fn to_string_shows_header_and_board() {
    let state = trap_board();
    assert_eq!(state.to_string(), "turn:\t0\nscore:\t0\n3@.\n.2.\n.9.\n");
    assert_eq!(state._to_string(), "turn:\t0\nscore:\t0\n3@.\n.2.\n.9.\n");
}

#[test]
fn to_string_after_moves() {
    let mut state = trap_board();
    state.advance(2);
    assert_eq!(state.to_string(), "turn:\t1\nscore:\t2\n3..\n.@.\n.9.\n");
    state.advance(2);
    assert_eq!(state.to_string(), "turn:\t2\nscore:\t11\n3..\n...\n.@.\n");
}

#[test]
fn to_string_writes_numbers_of_several_digits() {
    let points = vec![9; 24];
    let mut state = MazeState::from_parts(2, 12, 120, Coord::new(0, 0), points).unwrap();
    for _ in 0..11 {
        state.advance(0);
    }
    state.advance(2);
    for _ in 0..11 {
        state.advance(1);
    }
    assert_eq!(state.turn(), 23);
    assert_eq!(state.game_score(), 207);
    let text = state.to_string();
    assert!(text.starts_with("turn:\t23\nscore:\t207\n"));
    for _ in 0..77 {
        state.advance(if state.character().x == 0 { 0 } else { 1 });
    }
    assert_eq!(state.turn(), 100);
    assert!(state.to_string().starts_with("turn:\t100\nscore:\t207\n"));
}

#[test]
fn new_gives_a_fresh_game_on_a_random_board() {
    let state = MazeState::new(3, 4, 4, Some(121321)).unwrap();
    assert_eq!(state.height(), 3);
    assert_eq!(state.width(), 4);
    assert_eq!(state.end_turn(), 4);
    assert_eq!(state.turn(), 0);
    assert_eq!(state.game_score(), 0);
    assert_eq!(state.evaluated_score(), 0);
    assert_eq!(state.first_action(), None);
    let c = state.character();
    assert!(0 <= c.y && c.y < 3 && 0 <= c.x && c.x < 4);
    assert_eq!(state.point_at(c.y as usize, c.x as usize), 0);
    for y in 0..3 {
        for x in 0..4 {
            let p = state.point_at(y, x);
            assert!(0 <= p && p <= 9);
        }
    }
}

#[test]
fn new_with_the_same_seed_gives_the_same_board() {
    let first = MazeState::new(30, 30, 100, Some(42)).unwrap();
    let second = MazeState::new(30, 30, 100, Some(42)).unwrap();
    assert_eq!(first.to_string(), second.to_string());
    let other = MazeState::new(30, 30, 100, Some(43)).unwrap();
    assert_ne!(first.to_string(), other.to_string());
}

#[test]
fn new_without_a_seed_gives_a_valid_board() {
    let state = MazeState::new(5, 6, 10, None).unwrap();
    assert_eq!(state.height(), 5);
    assert_eq!(state.width(), 6);
    let c = state.character();
    assert_eq!(state.point_at(c.y as usize, c.x as usize), 0);
}

#[test]
fn new_rejects_sizes_no_state_can_have() {
    assert!(MazeState::new(1, 1, 4, Some(1)).is_none());
    assert!(MazeState::new(0, 4, 4, Some(1)).is_none());
    assert!(MazeState::new(3, 0, 4, Some(1)).is_none());
    assert!(MazeState::new(3, 4, 238_609_295, Some(1)).is_none());
}

#[test]
fn generate_draws_from_the_generator_handed_in() {
    let mut a = maze_search::rng::GameRng::chacha8_from_seed(121321);
    let mut b = maze_search::rng::GameRng::chacha8_from_seed(121321);
    let first = MazeState::generate(3, 4, 4, &mut a).unwrap();
    let second = MazeState::generate(3, 4, 4, &mut b).unwrap();
    assert_eq!(first.to_string(), second.to_string());
    let third = MazeState::generate(3, 4, 4, &mut a).unwrap();
    let c = third.character();
    assert_eq!(third.point_at(c.y as usize, c.x as usize), 0);
}
