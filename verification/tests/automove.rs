use maze_search::automove::auto_dims_fit;
use maze_search::automove::AutoMoveMazeState;
use maze_search::local_search::hill_climb;
use maze_search::local_search::keep_better;
use maze_search::local_search::random_action;
use maze_search::local_search::Annealing;
use maze_search::maze::Coord;
use maze_search::rng::GameRng;

fn counting_board(characters: usize, end_turn: usize) -> AutoMoveMazeState {
    let points = vec![1, 2, 3, 4, 5, 6, 7, 8, 9];
    AutoMoveMazeState::from_parts(3, 3, end_turn, characters, points).unwrap()
}

fn places(state: &AutoMoveMazeState) -> Vec<Coord> {
    (0..state.character_count()).map(|k| state.character(k)).collect()
}

#[test]
fn auto_from_parts_builds_the_given_state() {
    let state = counting_board(2, 5);
    assert_eq!(state.turn(), 0);
    assert_eq!(state.game_score(), 0);
    assert_eq!(state.character_count(), 2);
    assert_eq!(state.character(0), Coord::new(0, 0));
    assert_eq!(state.character(1), Coord::new(0, 0));
    assert_eq!(state.point_at(0, 0), 1);
    assert_eq!(state.point_at(2, 2), 9);
    assert_eq!(state.point_at(1, 2), 6);
    assert!(!state.is_done());
}

#[test]
fn auto_from_parts_rejects_what_no_state_can_have() {
    assert!(AutoMoveMazeState::from_parts(1, 1, 5, 3, vec![1]).is_none());
    assert!(AutoMoveMazeState::from_parts(0, 3, 5, 3, vec![]).is_none());
    assert!(AutoMoveMazeState::from_parts(2, 2, 5, 3, vec![1, 2, 3]).is_none());
    assert!(AutoMoveMazeState::from_parts(2, 2, 5, 3, vec![1, 2, 3, 10]).is_none());
    assert!(AutoMoveMazeState::from_parts(2, 2, 5, 3, vec![1, 2, 3, 9]).is_some());
    assert!(AutoMoveMazeState::from_parts(2, 2, 5, 0, vec![0, 0, 0, 0]).is_some());
    assert!(AutoMoveMazeState::from_parts(2, 2, usize::MAX, 2, vec![0, 0, 0, 0]).is_none());
}

#[test]
fn auto_dims_fit_tells_the_sizes_a_state_can_have() {
    assert!(auto_dims_fit(5, 5, 5, 3));
    assert!(auto_dims_fit(1, 2, 0, 0));
    assert!(!auto_dims_fit(1, 1, 5, 3));
    assert!(!auto_dims_fit(5, 0, 5, 3));
    assert!(!auto_dims_fit(5, 5, usize::MAX, 2));
    assert!(!auto_dims_fit(5, 5, usize::MAX / 9, 1));
}

#[test]
fn auto_new_fills_the_board_with_points() {
    let state = AutoMoveMazeState::new(5, 5, 5, 3, Some(0)).unwrap();
    assert_eq!(state.character_count(), 3);
    for y in 0..5 {
        for x in 0..5 {
            let p = state.point_at(y, x);
            assert!(1 <= p && p <= 9);
        }
    }
    for k in 0..3 {
        assert_eq!(state.character(k), Coord::new(0, 0));
    }
    let again = AutoMoveMazeState::new(5, 5, 5, 3, Some(0)).unwrap();
    assert_eq!(state.to_string(), again.to_string());
    let other = AutoMoveMazeState::new(5, 5, 5, 3, Some(1)).unwrap();
    assert_ne!(state.to_string(), other.to_string());
    assert!(AutoMoveMazeState::new(1, 1, 5, 3, Some(0)).is_none());
    assert!(AutoMoveMazeState::new(4, 4, 5, 3, None).is_some());
}

#[test]
fn set_character_puts_one_character() {
    let mut state = counting_board(3, 5);
    state.set_character(1, 2, 1);
    assert_eq!(places(&state), vec![Coord::new(0, 0), Coord::new(2, 1), Coord::new(0, 0)]);
    state.set_character(2, 1, 2);
    state.set_character(1, 0, 1);
    assert_eq!(places(&state), vec![Coord::new(0, 0), Coord::new(0, 1), Coord::new(1, 2)]);
    assert_eq!(state.point_at(2, 1), 8);
    assert_eq!(state.game_score(), 0);
}

#[test]
fn move_player_steps_to_the_most_points() {
    let mut state = counting_board(1, 5);
    state.move_player(0);
    assert_eq!(state.character(0), Coord::new(1, 0));
    state.move_player(0);
    assert_eq!(state.character(0), Coord::new(2, 0));
    state.move_player(0);
    assert_eq!(state.character(0), Coord::new(2, 1));
    assert_eq!(state.game_score(), 0);
    assert_eq!(state.turn(), 0);
    state.set_character(0, 1, 1);
    state.move_player(0);
    assert_eq!(state.character(0), Coord::new(2, 1));
}

#[test]
fn move_player_takes_the_first_of_equal_cells() {
    let points = vec![0, 5, 0, 5, 0, 5, 0, 5, 0];
    let mut state = AutoMoveMazeState::from_parts(3, 3, 5, 1, points).unwrap();
    state.set_character(0, 1, 1);
    state.move_player(0);
    assert_eq!(state.character(0), Coord::new(1, 2));
    let points = vec![0, 5, 0, 5, 0, 4, 0, 5, 0];
    let mut state = AutoMoveMazeState::from_parts(3, 3, 5, 1, points).unwrap();
    state.set_character(0, 1, 1);
    state.move_player(0);
    assert_eq!(state.character(0), Coord::new(1, 0));
    let mut empty = AutoMoveMazeState::from_parts(3, 3, 5, 1, vec![0; 9]).unwrap();
    empty.set_character(0, 2, 2);
    empty.move_player(0);
    assert_eq!(empty.character(0), Coord::new(2, 1));
}

#[test]
fn auto_advance_moves_then_collects() {
    let mut state = counting_board(1, 2);
    state.advance();
    assert_eq!(state.character(0), Coord::new(1, 0));
    assert_eq!(state.game_score(), 4);
    assert_eq!(state.point_at(1, 0), 0);
    assert_eq!(state.turn(), 1);
    assert!(!state.is_done());
    state.advance();
    assert_eq!(state.character(0), Coord::new(2, 0));
    assert_eq!(state.game_score(), 11);
    assert_eq!(state.turn(), 2);
    assert!(state.is_done());
}

#[test]
fn of_two_characters_on_a_cell_the_first_collects() {
    let mut state = counting_board(2, 1);
    state.advance();
    assert_eq!(places(&state), vec![Coord::new(1, 0), Coord::new(1, 0)]);
    assert_eq!(state.game_score(), 4);
}

#[test]
fn two_characters_play_side_by_side() {
    let mut state = counting_board(2, 3);
    state.set_character(0, 0, 0);
    state.set_character(1, 2, 0);
    state.advance();
    // The first steps down to 4, the second right to 8.
    assert_eq!(places(&state), vec![Coord::new(1, 0), Coord::new(2, 1)]);
    assert_eq!(state.game_score(), 12);
    state.advance();
    // The first steps down to 7, the second right to 9.
    assert_eq!(places(&state), vec![Coord::new(2, 0), Coord::new(2, 2)]);
    assert_eq!(state.game_score(), 28);
}

#[test]
fn auto_to_string_shows_header_and_board() {
    let mut state = counting_board(2, 2);
    assert_eq!(state.to_string(), "turn:\t0\nscore:\t0\n@23\n456\n789\n");
    state.set_character(1, 2, 2);
    assert_eq!(state.to_string(), "turn:\t0\nscore:\t0\n@23\n456\n78@\n");
    state.advance();
    assert_eq!(state.to_string(), "turn:\t1\nscore:\t12\n123\n@56\n7@9\n");
}

#[test]
fn get_score_plays_the_game_out() {
    let state = counting_board(1, 2);
    assert_eq!(state.get_score(), 11);
    assert_eq!(state.turn(), 0);
    assert_eq!(state.game_score(), 0);
    assert_eq!(state.point_at(0, 0), 1);
    let two = counting_board(2, 1);
    assert_eq!(two.get_score(), 4);
    let none = counting_board(0, 3);
    assert_eq!(none.get_score(), 0);
}

#[test]
fn get_score_empties_the_cells_under_the_characters() {
    let mut state = counting_board(1, 2);
    state.set_character(0, 2, 2);
    // From 9 (emptied): left to 8, then left to 7.
    assert_eq!(state.get_score(), 15);
    let mut state = counting_board(1, 2);
    state.set_character(0, 1, 1);
    // From 5 (emptied): down to 8, then right to 9.
    assert_eq!(state.get_score(), 17);
}

#[test]
fn init_places_every_character_on_the_board() {
    let mut state = AutoMoveMazeState::new(5, 5, 5, 3, Some(0)).unwrap();
    let before = state.to_string();
    let mut rng = GameRng::from_seed(42);
    state.init(&mut rng);
    for k in 0..3 {
        let c = state.character(k);
        assert!(0 <= c.y && c.y < 5 && 0 <= c.x && c.x < 5);
    }
    assert_eq!(state.turn(), 0);
    assert_eq!(state.game_score(), 0);
    let mut back = state.clone();
    for k in 0..3 {
        back.set_character(k, 0, 0);
    }
    assert_eq!(back.to_string(), before);
}

#[test]
fn transition_moves_at_most_one_character() {
    let mut state = AutoMoveMazeState::new(5, 5, 5, 3, Some(0)).unwrap();
    let mut rng = GameRng::from_seed(42);
    state.init(&mut rng);
    for _ in 0..50 {
        let before = places(&state);
        state.transition(&mut rng);
        let after = places(&state);
        let changed = (0..3).filter(|&k| before[k] != after[k]).count();
        assert!(changed <= 1);
        for c in after {
            assert!(0 <= c.y && c.y < 5 && 0 <= c.x && c.x < 5);
        }
    }
}

#[test]
fn random_action_is_the_same_every_time() {
    let state = AutoMoveMazeState::new(5, 5, 5, 3, Some(0)).unwrap();
    let first = random_action(&state);
    let second = random_action(&state);
    assert_eq!(places(&first), places(&second));
    assert_eq!(first.turn(), 0);
    assert_eq!(first.point_at(3, 3), state.point_at(3, 3));
}

#[test]
fn keep_better_keeps_the_strictly_better_placement() {
    let mut low = counting_board(1, 2);
    low.set_character(0, 0, 0);
    let mut high = counting_board(1, 2);
    high.set_character(0, 1, 1);
    assert_eq!(low.get_score(), 11);
    assert_eq!(high.get_score(), 17);
    let (kept, score) = keep_better(low.clone(), 11, high.clone());
    assert_eq!(places(&kept), vec![Coord::new(1, 1)]);
    assert_eq!(score, 17);
    let (kept, score) = keep_better(high.clone(), 17, low.clone());
    assert_eq!(places(&kept), vec![Coord::new(1, 1)]);
    assert_eq!(score, 17);
    let mut equal = counting_board(1, 2);
    equal.set_character(0, 2, 2);
    assert_eq!(equal.get_score(), 15);
    let (kept, score) = keep_better(low.clone(), 15, equal);
    assert_eq!(places(&kept), vec![Coord::new(0, 0)]);
    assert_eq!(score, 15);
}

#[test]
fn hill_climb_never_ends_below_its_start() {
    for seed in 0..5 {
        let state = AutoMoveMazeState::new(5, 5, 5, 3, Some(seed)).unwrap();
        let mut rng = GameRng::from_seed(42);
        let start = hill_climb(&state, 0, &mut rng);
        let mut rng = GameRng::from_seed(42);
        let climbed = hill_climb(&state, 200, &mut rng);
        assert!(climbed.get_score() >= start.get_score());
        assert_eq!(climbed.turn(), 0);
        assert_eq!(climbed.game_score(), 0);
        assert_eq!(climbed.point_at(2, 2), state.point_at(2, 2));
    }
}

#[test]
fn hill_climb_with_no_steps_is_a_random_placement() {
    let state = AutoMoveMazeState::new(5, 5, 5, 3, Some(3)).unwrap();
    let mut rng = GameRng::from_seed(0);
    let placed = hill_climb(&state, -4, &mut rng);
    assert_eq!(places(&placed), places(&random_action(&state)));
}

#[test]
fn hill_climb_is_repeatable_with_a_seeded_generator() {
    let state = AutoMoveMazeState::new(5, 5, 5, 3, Some(3)).unwrap();
    let mut a = GameRng::from_seed(42);
    let mut b = GameRng::from_seed(42);
    let first = hill_climb(&state, 100, &mut a);
    let second = hill_climb(&state, 100, &mut b);
    assert_eq!(places(&first), places(&second));
}

#[test]
fn annealing_walks_and_remembers_the_best() {
    let board = counting_board(1, 2);
    let mut rng = GameRng::from_seed(1);
    let mut walk = Annealing::start(&board, &mut rng);
    assert_eq!(walk.now_score(), walk.best_score());
    let mut high = board.clone();
    high.set_character(0, 1, 1);
    let mut low = board.clone();
    low.set_character(0, 0, 1);
    assert_eq!(high.get_score(), 17);
    assert_eq!(low.get_score(), 13);
    walk.settle(high.clone(), false);
    assert_eq!(walk.now_score(), 17);
    assert_eq!(walk.best_score(), 17);
    walk.settle(low.clone(), false);
    assert_eq!(walk.now_score(), 17);
    assert_eq!(walk.best_score(), 17);
    walk.settle(low.clone(), true);
    assert_eq!(walk.now_score(), 13);
    assert_eq!(walk.best_score(), 17);
    let next = walk.propose(&mut rng);
    assert_eq!(next.character_count(), 1);
    assert_eq!(next.point_at(1, 1), 5);
    let best = walk.into_best();
    assert_eq!(best.get_score(), 17);
}
