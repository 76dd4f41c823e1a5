//! Whole games: a policy chooses every move from the first turn to the last.

use crate::beam::beam_search_action_with_time_threshold;
use crate::chokudai::chokudai_search_action_wirh_time_threshold;
use crate::greedy::greedy_action;
use crate::greedy::greedy_choice;
use crate::maze::lemma_advance_wf;
use crate::maze::lemma_legal_actions_nonempty;
use crate::maze::MazeModel;
use crate::maze::MazeState;
use vstd::prelude::*;

verus! {

/// The state after `turns` moves of the greedy policy.
pub open spec fn greedy_playout(s: MazeModel, turns: nat) -> MazeModel
    decreases turns,
{
    if turns == 0 {
        s
    } else {
        greedy_playout(s.advance(greedy_choice(s) as int), (turns - 1) as nat)
    }
}

/// The same game, further on.
pub open spec fn same_game(before: MazeModel, after: MazeModel) -> bool {
    &&& after.height == before.height
    &&& after.width == before.width
    &&& after.end_turn == before.end_turn
    &&& after.turn >= before.turn
    &&& after.game_score >= before.game_score
}

/// Plays the game to its end with the greedy policy.
pub fn play_greedy(state: &mut MazeState)
    requires
        old(state).wf(),
    ensures
        final(state).wf(),
        final(state)@.is_done(),
        final(state)@ == greedy_playout(old(state)@, old(state)@.turns_left()),
{
    while !state.is_done()
        invariant
            state.wf(),
            greedy_playout(state@, state@.turns_left()) == greedy_playout(
                old(state)@,
                old(state)@.turns_left(),
            ),
        decreases state@.turns_left(),
    {
        let action = greedy_action(state);
        proof {
            lemma_advance_wf(state@, action as int);
        }
        state.advance(action);
    }
}

/// Plays the game to its end, choosing every move by beam search within
/// `time_threshold` milliseconds.
pub fn play_beam(state: &mut MazeState, beam_width: usize, time_threshold: usize)
    requires
        old(state).wf(),
    ensures
        final(state).wf(),
        final(state)@.is_done(),
        same_game(old(state)@, final(state)@),
{
    while !state.is_done()
        invariant
            state.wf(),
            same_game(old(state)@, state@),
        decreases state@.turns_left(),
    {
        let action = beam_search_action_with_time_threshold(state, beam_width, time_threshold);
        proof {
            lemma_legal_actions_nonempty(state@);
            lemma_advance_wf(state@, action as int);
        }
        state.advance(action);
    }
}

/// Plays the game to its end, choosing every move by chokudai search within
/// `time_threshold` milliseconds.
pub fn play_chokudai(
    state: &mut MazeState,
    beam_width: usize,
    beam_depth: usize,
    time_threshold: usize,
)
    requires
        old(state).wf(),
        beam_depth < usize::MAX,
    ensures
        final(state).wf(),
        final(state)@.is_done(),
        same_game(old(state)@, final(state)@),
{
    while !state.is_done()
        invariant
            state.wf(),
            beam_depth < usize::MAX,
            same_game(old(state)@, state@),
        decreases state@.turns_left(),
    {
        let action = chokudai_search_action_wirh_time_threshold(
            state,
            beam_width,
            beam_depth,
            time_threshold,
        );
        proof {
            lemma_legal_actions_nonempty(state@);
            lemma_advance_wf(state@, action as int);
        }
        state.advance(action);
    }
}

} // verus!
