//! The greedy policy: look one move ahead and take the best.

use crate::expand::children;
use crate::maze::lemma_advance_wf;
use crate::maze::lemma_legal_actions_nonempty;
use crate::maze::MazeModel;
use crate::maze::MazeState;
use vstd::prelude::*;

verus! {

/// The index of the best state of a sequence; of several that score alike,
/// the first.
pub open spec fn first_best(xs: Seq<MazeModel>) -> int
    decreases xs.len(),
{
    if xs.len() <= 1 {
        0
    } else {
        let before = first_best(xs.drop_last());
        if xs.last().evaluated_score > xs[before].evaluated_score {
            xs.len() - 1
        } else {
            before
        }
    }
}

/// The move that the greedy policy makes: the legal direction whose successor
/// scores best; of several that score alike, the first.
pub open spec fn greedy_choice(s: MazeModel) -> usize {
    s.legal_actions()[first_best(children(s, false))]
}

/// The first best state scores at least as much as every state, and more
/// than every state before it.
pub proof fn lemma_first_best(xs: Seq<MazeModel>)
    requires
        xs.len() > 0,
    ensures
        0 <= first_best(xs) < xs.len(),
        forall|j: int|
            0 <= j < xs.len() ==> (#[trigger] xs[j]).evaluated_score
                <= xs[first_best(xs)].evaluated_score,
        forall|j: int|
            0 <= j < first_best(xs) ==> (#[trigger] xs[j]).evaluated_score
                < xs[first_best(xs)].evaluated_score,
    decreases xs.len(),
{
    if xs.len() > 1 {
        let front = xs.drop_last();
        lemma_first_best(front);
        let before = first_best(front);
        assert(front[before] == xs[before]);
        assert forall|j: int| 0 <= j < xs.len() implies (#[trigger] xs[j]).evaluated_score
            <= xs[first_best(xs)].evaluated_score by {
            if j < xs.len() - 1 {
                assert(front[j] == xs[j]);
            }
        }
        assert forall|j: int| 0 <= j < first_best(xs) implies (#[trigger] xs[j]).evaluated_score
            < xs[first_best(xs)].evaluated_score by {
            assert(front[j] == xs[j]);
        }
    }
}

/// Which state is the first best depends on the scores alone.
pub proof fn lemma_first_best_by_scores(xs: Seq<MazeModel>, ys: Seq<MazeModel>)
    requires
        xs.len() == ys.len(),
        forall|j: int|
            0 <= j < xs.len() ==> (#[trigger] xs[j]).evaluated_score == ys[j].evaluated_score,
    ensures
        first_best(xs) == first_best(ys),
    decreases xs.len(),
{
    if xs.len() > 1 {
        let xf = xs.drop_last();
        let yf = ys.drop_last();
        assert forall|j: int| 0 <= j < xf.len() implies (#[trigger] xf[j]).evaluated_score
            == yf[j].evaluated_score by {
            assert(xf[j] == xs[j]);
            assert(yf[j] == ys[j]);
        }
        lemma_first_best_by_scores(xf, yf);
        lemma_first_best(xf);
        assert(xs[first_best(xf)].evaluated_score == ys[first_best(xf)].evaluated_score);
        assert(xs.last() == xs[xs.len() - 1]);
        assert(ys.last() == ys[ys.len() - 1]);
    }
}

/// Chooses the move whose successor has the best score; of several that
/// score alike, the first in the order of the directions.
pub fn greedy_action(state: &MazeState) -> (action: usize)
    requires
        state.wf(),
        !state@.is_done(),
    ensures
        action == greedy_choice(state@),
        state@.legal(action as int),
        forall|other: usize|
            state@.legal(other as int) ==> state@.child(other, false).evaluated_score
                <= state@.child(action, false).evaluated_score,
        forall|other: usize|
            state@.legal(other as int) && other < action ==> state@.child(
                other,
                false,
            ).evaluated_score < state@.child(action, false).evaluated_score,
{
    let legal_actions = state.legal_actions();
    let ghost all = children(state@, false);
    let mut best_score: i32 = -1;
    let mut best_action: usize = 0;
    let mut i: usize = 0;
    proof {
        lemma_legal_actions_nonempty(state@);
    }
    while i < legal_actions.len()
        invariant
            state.wf(),
            !state@.is_done(),
            legal_actions@ == state@.legal_actions(),
            all == children(state@, false),
            forall|k: int|
                0 <= k < legal_actions@.len() ==> state@.legal(#[trigger] legal_actions@[k] as int),
            i <= legal_actions.len(),
            i == 0 ==> best_score == -1,
            i > 0 ==> {
                &&& best_action == legal_actions@[first_best(all.take(i as int))]
                &&& best_score == all[first_best(all.take(i as int))].evaluated_score
                &&& 0 <= first_best(all.take(i as int)) < i
            },
        decreases legal_actions.len() - i,
    {
        let action: usize = legal_actions[i];
        let mut state_temp: MazeState = state.clone();
        state_temp.advance(action);
        state_temp.evaluate_score();
        let score: i32 = state_temp.evaluated_score();
        proof {
            lemma_advance_wf(state@, action as int);
            assert(state_temp@ == all[i as int]);
            assert(score >= 0);
            let upto = all.take(i + 1);
            assert(upto.drop_last() =~= all.take(i as int));
            assert(upto.last() == all[i as int]);
            if i > 0 {
                lemma_first_best(all.take(i as int));
                assert(upto[first_best(all.take(i as int))] == all[first_best(all.take(i as int))]);
            }
        }
        if score > best_score {
            best_score = score;
            best_action = action;
        }
        i = i + 1;
    }
    proof {
        assert(all.take(i as int) =~= all);
        lemma_first_best(all);
        crate::maze::lemma_legal_below(state@, crate::maze::ACTION_COUNT as nat);
        let legal = state@.legal_actions();
        let b = first_best(all);
        assert forall|other: usize| state@.legal(other as int) implies state@.child(
            other,
            false,
        ).evaluated_score <= state@.child(best_action, false).evaluated_score by {
            assert(legal.contains(other));
            let j = choose|j: int| 0 <= j < legal.len() && legal[j] == other;
            assert(all[j] == state@.child(other, false));
        }
        assert forall|other: usize|
            state@.legal(other as int) && other < best_action implies state@.child(
            other,
            false,
        ).evaluated_score < state@.child(best_action, false).evaluated_score by {
            assert(legal.contains(other));
            let j = choose|j: int| 0 <= j < legal.len() && legal[j] == other;
            assert(all[j] == state@.child(other, false));
            if j >= b {
                if j > b {
                    assert(legal[b] < legal[j]);
                }
            }
        }
    }
    best_action
}

} // verus!
