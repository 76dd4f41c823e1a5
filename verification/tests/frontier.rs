use maze_search::frontier::Frontier;
use maze_search::maze::Coord;
use maze_search::maze::MazeState;
use maze_search::ordering::ranks_above;

fn scored(score: usize, tag: usize) -> MazeState {
    let mut points = vec![0; 10];
    points[1] = score as i32;
    let mut state = MazeState::from_parts(1, 10, 5, Coord::new(0, 0), points).unwrap();
    state.advance(0);
    state.evaluate_score();
    state.set_first_action(tag);
    state
}

#[test]
fn new_frontier_is_empty() {
    let mut frontier = Frontier::new();
    assert!(frontier.is_empty());
    assert_eq!(frontier.len(), 0);
    assert!(frontier.peek().is_none());
    assert!(frontier.pop().is_none());
}

#[test]
fn pop_hands_out_the_best_first() {
    let mut frontier = Frontier::new();
    for (score, tag) in [(3, 0), (7, 1), (1, 2), (9, 3), (5, 4)] {
        frontier.push(scored(score, tag));
    }
    assert_eq!(frontier.len(), 5);
    assert_eq!(frontier.peek().unwrap().evaluated_score(), 9);
    let mut scores = Vec::new();
    while let Some(state) = frontier.pop() {
        scores.push(state.evaluated_score());
    }
    assert_eq!(scores, vec![9, 7, 5, 3, 1]);
    assert!(frontier.is_empty());
}

#[test]
fn equal_scores_come_out_in_the_order_pushed() {
    let mut frontier = Frontier::new();
    for (score, tag) in [(4, 10), (6, 11), (4, 12), (6, 13), (4, 14), (8, 15)] {
        frontier.push(scored(score, tag));
    }
    let mut tags = Vec::new();
    while let Some(state) = frontier.pop() {
        tags.push(state.first_action().unwrap());
    }
    assert_eq!(tags, vec![15, 11, 13, 10, 12, 14]);
}

#[test]
fn peek_leaves_the_state_in_place() {
    let mut frontier = Frontier::new();
    frontier.push(scored(2, 0));
    frontier.push(scored(5, 1));
    assert_eq!(frontier.peek().unwrap().first_action(), Some(1));
    assert_eq!(frontier.len(), 2);
    assert_eq!(frontier.pop().unwrap().first_action(), Some(1));
    assert_eq!(frontier.peek().unwrap().first_action(), Some(0));
    assert_eq!(frontier.len(), 1);
}

#[test]
fn states_are_ordered_by_evaluated_score_alone() {
    let low = scored(2, 0);
    let high = scored(7, 1);
    let also_high = scored(7, 3);
    assert!(low < high);
    assert!(high > low);
    assert!(low <= high);
    assert!(high >= also_high);
    assert!(high <= also_high);
    assert!(!(high < also_high));
    assert!(high == also_high);
    assert!(low != high);
    assert_eq!(low.partial_cmp(&high), Some(std::cmp::Ordering::Less));
    assert_eq!(high.partial_cmp(&low), Some(std::cmp::Ordering::Greater));
    assert_eq!(high.partial_cmp(&also_high), Some(std::cmp::Ordering::Equal));
}

#[test]
fn ranks_above_is_strict() {
    let low = scored(2, 0);
    let high = scored(7, 1);
    let also_high = scored(7, 3);
    assert!(ranks_above(&high, &low));
    assert!(!ranks_above(&low, &high));
    assert!(!ranks_above(&high, &also_high));
    assert!(!ranks_above(&also_high, &high));
}

#[test]
fn an_unevaluated_state_ranks_by_its_last_evaluation() {
    let mut state = scored(5, 0);
    let other = scored(5, 1);
    state.advance(0);
    assert!(state == other);
    state.evaluate_score();
    assert!(state == other);
    assert!(!ranks_above(&state, &other));
}
