//! Local search over placements of the characters in the game that plays
//! itself: random placement, hill climbing, and the bookkeeping of simulated
//! annealing.

use crate::automove::AutoMoveMazeState;
use crate::automove::AutoMoveModel;
use crate::automove::ScoreType;
use crate::rng::GameRng;
use vstd::prelude::*;

verus! {

/// A random placement on the board of `state`, from the standard generator
/// with seed 0.
pub fn random_action(state: &AutoMoveMazeState) -> (placed: AutoMoveMazeState)
    requires
        state.wf(),
    ensures
        placed.wf(),
        placed@.same_board(state@),
{
    let mut now_state = state.clone();
    let mut rng = GameRng::from_seed(0);
    now_state.init(&mut rng);
    now_state
}

/// One step of hill climbing: the candidate replaces the placement held when
/// it scores strictly more.
pub fn keep_better(
    now_state: AutoMoveMazeState,
    best_score: ScoreType,
    next_state: AutoMoveMazeState,
) -> (kept: (AutoMoveMazeState, ScoreType))
    requires
        next_state.wf(),
    ensures
        next_state@.placement_score() > best_score ==> kept.0@ == next_state@ && kept.1
            == next_state@.placement_score(),
        next_state@.placement_score() <= best_score ==> kept.0@ == now_state@ && kept.1
            == best_score,
{
    let next_score: ScoreType = next_state.get_score();
    if next_score > best_score {
        (next_state, next_score)
    } else {
        (now_state, best_score)
    }
}

/// Hill climbing: from a random placement, `number` times a random character
/// is put on a random cell, and the new placement is kept when it scores
/// strictly more. The result is a placement on the board of `state`; which
/// one depends on the generator.
pub fn hill_climb(state: &AutoMoveMazeState, number: isize, rng: &mut GameRng) -> (placed:
    AutoMoveMazeState)
    requires
        state.wf(),
        number > 0 ==> state@.characters.len() > 0,
    ensures
        placed.wf(),
        placed@.same_board(state@),
{
    let mut now_state = state.clone();
    now_state.init(rng);
    let mut best_score: ScoreType = now_state.get_score();
    let mut i: isize = 0;
    while i < number
        invariant
            now_state.wf(),
            now_state@.same_board(state@),
            best_score == now_state@.placement_score(),
            number > 0 ==> state@.characters.len() > 0,
            0 <= i,
        decreases number - i,
    {
        let mut next_state = now_state.clone();
        next_state.transition(rng);
        let kept = keep_better(now_state, best_score, next_state);
        now_state = kept.0;
        best_score = kept.1;
        i = i + 1;
    }
    now_state
}

/// The bookkeeping of simulated annealing: the placement that the walk
/// stands on and the best placement seen, each with its score.
pub struct Annealing {
    now_state: AutoMoveMazeState,
    now_score: ScoreType,
    best_state: AutoMoveMazeState,
    best_score: ScoreType,
}

impl Annealing {
    /// The placement that the walk stands on.
    pub closed spec fn now(&self) -> AutoMoveModel {
        self.now_state@
    }

    /// The best placement seen.
    pub closed spec fn best(&self) -> AutoMoveModel {
        self.best_state@
    }

    /// The score of the placement that the walk stands on.
    pub closed spec fn current_score(&self) -> int {
        self.now_score as int
    }

    /// The score of the best placement seen.
    pub closed spec fn top_score(&self) -> int {
        self.best_score as int
    }

    /// Both placements are states of one game, each score is that of its
    /// placement, and the best is at least as good as the current.
    pub open spec fn wf(&self) -> bool {
        &&& self.now().wf()
        &&& self.best().wf()
        &&& self.now().same_board(self.best())
        &&& self.current_score() == self.now().placement_score()
        &&& self.top_score() == self.best().placement_score()
        &&& self.current_score() <= self.top_score()
    }

    /// Starts a walk at a random placement on the board of `state`.
    pub fn start(state: &AutoMoveMazeState, rng: &mut GameRng) -> (walk: Self)
        requires
            state.wf(),
        ensures
            walk.wf(),
            walk.now().same_board(state@),
            walk.best() == walk.now(),
    {
        let mut now_state = state.clone();
        now_state.init(rng);
        let best_score: ScoreType = now_state.get_score();
        let best_state = now_state.clone();
        Annealing { now_state, now_score: best_score, best_state, best_score }
    }

    /// The score of the placement that the walk stands on.
    pub fn now_score(&self) -> (score: ScoreType)
        ensures
            score == self.current_score(),
    {
        self.now_score
    }

    /// The score of the best placement seen.
    pub fn best_score(&self) -> (score: ScoreType)
        ensures
            score == self.top_score(),
    {
        self.best_score
    }

    /// A neighbour of the current placement: one random character put on a
    /// random cell.
    pub fn propose(&self, rng: &mut GameRng) -> (next_state: AutoMoveMazeState)
        requires
            self.wf(),
            self.now().characters.len() > 0,
        ensures
            next_state.wf(),
            next_state@.same_board(self.now()),
    {
        let mut next_state = self.now_state.clone();
        next_state.transition(rng);
        next_state
    }

    /// Takes a candidate into account: the walk moves to it when it scores
    /// strictly more than the current placement or when the move is forced,
    /// and it becomes the best seen when it scores strictly more than that.
    pub fn settle(&mut self, next_state: AutoMoveMazeState, is_force_next: bool)
        requires
            old(self).wf(),
            next_state.wf(),
            next_state@.same_board(old(self).now()),
        ensures
            final(self).wf(),
            final(self).now() == if next_state@.placement_score() > old(self).current_score()
                || is_force_next {
                next_state@
            } else {
                old(self).now()
            },
            final(self).best() == if next_state@.placement_score() > old(self).top_score() {
                next_state@
            } else {
                old(self).best()
            },
    {
        let next_score: ScoreType = next_state.get_score();
        if next_score > self.best_score {
            self.best_score = next_score;
            self.best_state = next_state.clone();
        }
        if next_score > self.now_score || is_force_next {
            self.now_score = next_score;
            self.now_state = next_state;
        }
    }

    /// Ends the walk: the best placement seen.
    pub fn into_best(self) -> (placed: AutoMoveMazeState)
        requires
            self.wf(),
        ensures
            placed@ == self.best(),
            placed.wf(),
            placed@.placement_score() == self.top_score(),
    {
        self.best_state
    }
}

} // verus!
