//! Beam search: one frontier, advanced a turn at a time, of which only the
//! best `beam_width` states are expanded, under a clock that is asked before
//! every expansion.

use crate::clock::Clock;
use crate::clock::TimeKeeper;
use crate::expand::all_at_depth;
use crate::expand::at_depth;
use crate::expand::children;
use crate::expand::expand_into;
use crate::expand::lemma_children_at_depth;
use crate::expand::lemma_push_all_at_depth;
use crate::expand::or_first_legal;
use crate::expand::report_or_first_legal;
use crate::frontier::Frontier;
use crate::frontier::push_all;
use crate::maze::lemma_legal_actions_nonempty;
use crate::maze::MazeModel;
use crate::maze::MazeState;
use vstd::prelude::*;

verus! {

/// The frontier of the next turn: the successors of the best `n` states of
/// `now`, best first, pushed onto `next`.
pub open spec fn expand(now: Seq<MazeModel>, next: Seq<MazeModel>, n: nat, at_root: bool) -> Seq<
    MazeModel,
>
    decreases n,
{
    if n == 0 || now.len() == 0 {
        next
    } else {
        expand(now.drop_first(), push_all(next, children(now[0], at_root)), (n - 1) as nat, at_root)
    }
}

/// The number of times a round asks the clock: once for each state that it
/// expands.
pub open spec fn round_checks(len: nat, width: nat) -> nat {
    if len <= width {
        len
    } else {
        width
    }
}

/// The tag that the search reports, from a frontier `now` whose states have
/// `left` turns to play, when `best` is the tag of the best state of the last
/// completed round and the clock lets `budget` more checks pass.
///
/// The search is over when no turns are left; it is cut short, and reports
/// what it has, when the clock expires within the round or the round brings
/// no state forth.
pub open spec fn beam_descend(
    now: Seq<MazeModel>,
    best: Option<usize>,
    left: nat,
    at_root: bool,
    width: nat,
    budget: nat,
) -> Option<usize>
    decreases left,
{
    let checks = round_checks(now.len(), width);
    if left == 0 || budget < checks {
        best
    } else {
        let next = expand(now, Seq::empty(), width, at_root);
        if next.len() == 0 {
            best
        } else {
            beam_descend(
                next,
                next[0].first_action,
                (left - 1) as nat,
                false,
                width,
                (budget - checks) as nat,
            )
        }
    }
}

/// The tag that a search from `root` reports under a clock that lets `budget`
/// checks pass; `None` when no round was completed.
pub open spec fn beam_report(root: MazeModel, width: nat, budget: nat) -> Option<usize> {
    beam_descend(seq![root], None, root.turns_left(), true, width, budget)
}

/// The move that beam search chooses at `root` with the given width, under a
/// clock that lets `budget` checks pass and then expires.
pub open spec fn beam_choice(root: MazeModel, width: nat, budget: nat) -> usize {
    or_first_legal(root, beam_report(root, width, budget))
}

/// What beam search returns under a clock: where the clock's budget is fixed
/// in advance, the choice for that budget; where the machine's time decides,
/// the choice for the number of checks that it let pass.
pub open spec fn beam_outcome(
    root: MazeModel,
    width: nat,
    checks_left: Option<nat>,
    action: usize,
) -> bool {
    match checks_left {
        Some(budget) => action == beam_choice(root, width, budget),
        None => exists|budget: nat| action == beam_choice(root, width, budget),
    }
}

/// A round takes a frontier at one depth to a frontier one level deeper, and
/// brings a state forth whenever it expands one.
pub proof fn lemma_expand_at_depth(
    root: MazeModel,
    depth: nat,
    now: Seq<MazeModel>,
    next: Seq<MazeModel>,
    n: nat,
)
    requires
        root.wf(),
        root.turn + depth < root.end_turn,
        all_at_depth(root, depth, now),
        all_at_depth(root, depth + 1, next),
    ensures
        all_at_depth(root, depth + 1, expand(now, next, n, depth == 0)),
        expand(now, next, n, depth == 0).len() >= next.len(),
        n > 0 && now.len() > 0 ==> expand(now, next, n, depth == 0).len() > 0,
    decreases n,
{
    if n == 0 || now.len() == 0 {
    } else {
        let rest = now.drop_first();
        assert forall|i: int| 0 <= i < rest.len() implies at_depth(
            root,
            depth,
            #[trigger] rest[i],
        ) by {
            assert(rest[i] == now[i + 1]);
        }
        assert(at_depth(root, depth, now[0]));
        lemma_children_at_depth(root, depth, now[0]);
        lemma_push_all_at_depth(root, depth + 1, next, children(now[0], depth == 0));
        lemma_expand_at_depth(
            root,
            depth,
            rest,
            push_all(next, children(now[0], depth == 0)),
            (n - 1) as nat,
        );
    }
}

/// Whatever the search reports is a legal move of the root.
pub proof fn lemma_beam_descend_legal(
    root: MazeModel,
    depth: nat,
    now: Seq<MazeModel>,
    best: Option<usize>,
    left: nat,
    width: nat,
    budget: nat,
)
    requires
        root.wf(),
        root.turn + depth + left == root.end_turn,
        all_at_depth(root, depth, now),
        best matches Some(a) ==> root.legal_actions().contains(a),
    ensures
        beam_descend(now, best, left, depth == 0, width, budget) matches Some(a)
            ==> root.legal_actions().contains(a),
    decreases left,
{
    let checks = round_checks(now.len(), width);
    if left == 0 || budget < checks {
    } else {
        let next = expand(now, Seq::empty(), width, depth == 0);
        lemma_expand_at_depth(root, depth, now, Seq::empty(), width);
        if next.len() > 0 {
            assert(at_depth(root, depth + 1, next[0]));
            lemma_beam_descend_legal(
                root,
                depth + 1,
                next,
                next[0].first_action,
                (left - 1) as nat,
                width,
                (budget - checks) as nat,
            );
        }
    }
}

/// Beam search always chooses a legal move of the root: whatever the width,
/// and whenever the clock expires.
pub proof fn lemma_beam_choice_legal(root: MazeModel, width: nat, budget: nat)
    requires
        root.wf(),
    ensures
        root.legal_actions().contains(beam_choice(root, width, budget)),
{
    lemma_legal_actions_nonempty(root);
    lemma_beam_descend_legal(root, 0, seq![root], None, root.turns_left(), width, budget);
    if beam_report(root, width, budget) is None {
        assert(root.legal_actions()[0] == beam_choice(root, width, budget));
    }
}

/// Chooses the next move by beam search under the given clock.
///
/// Turn by turn, the best `beam_width` states of the frontier are expanded
/// and their successors form the next frontier. The clock is asked before
/// each expansion; when it has expired, the search returns the root move of
/// the best state of the last completed round, or the first legal move where
/// no round was completed.
pub fn beam_search_action<C: Clock>(state: &MazeState, beam_width: usize, clock: &mut C) -> (action:
    usize)
    requires
        state.wf(),
    ensures
        state@.legal_actions().contains(action),
        beam_outcome(state@, beam_width as nat, old(clock).checks_left(), action),
{
    let ghost root = state@;
    let ghost width = beam_width as nat;
    let ghost c0 = clock.checks_left();
    let ghost mut spent: nat = 0;
    let ghost mut depth: nat = 0;
    let mut now_beam = Frontier::new();
    now_beam.push(state.clone());
    let mut best: Option<usize> = None;
    let mut done = state.is_done();
    let mut at_root = true;
    proof {
        assert(now_beam@ =~= seq![root]);
    }
    while !done
        invariant
            state.wf(),
            root == state@,
            width == beam_width as nat,
            all_at_depth(root, depth, now_beam@),
            now_beam@.len() > 0,
            root.turn + depth <= root.end_turn,
            done == (root.turn + depth == root.end_turn),
            at_root == (depth == 0),
            c0 matches Some(n) ==> n >= spent && clock.checks_left() == Some((n - spent) as nat),
            c0 is None ==> clock.checks_left() is None,
            c0 == old(clock).checks_left(),
            forall|b: nat|
                b >= spent ==> #[trigger] beam_report(root, width, b) == beam_descend(
                    now_beam@,
                    best,
                    (root.end_turn - root.turn - depth) as nat,
                    at_root,
                    width,
                    (b - spent) as nat,
                ),
        decreases root.end_turn - root.turn - depth,
    {
        let ghost left = (root.end_turn - root.turn - depth) as nat;
        let ghost now0 = now_beam@;
        let ghost best0 = best;
        let ghost checks = round_checks(now0.len(), width);
        let mut next_beam = Frontier::new();
        let mut i: usize = 0;
        while i < beam_width && !now_beam.is_empty()
            invariant
                state.wf(),
                root == state@,
                width == beam_width as nat,
                left == (root.end_turn - root.turn - depth) as nat,
                left > 0,
                root.turn + depth < root.end_turn,
                at_root == (depth == 0),
                all_at_depth(root, depth, now_beam@),
                all_at_depth(root, depth + 1, next_beam@),
                i <= beam_width,
                i <= now0.len(),
                now_beam@ == now0.skip(i as int),
                checks == round_checks(now0.len(), width),
                expand(now0, Seq::empty(), width, at_root) == expand(
                    now_beam@,
                    next_beam@,
                    (width - i) as nat,
                    at_root,
                ),
                c0 matches Some(n) ==> n >= spent + i && clock.checks_left() == Some(
                    (n - spent - i) as nat,
                ),
                c0 is None ==> clock.checks_left() is None,
                c0 == old(clock).checks_left(),
                forall|b: nat|
                    b >= spent ==> #[trigger] beam_report(root, width, b) == beam_descend(
                        now0,
                        best,
                        left,
                        at_root,
                        width,
                        (b - spent) as nat,
                    ),
            decreases beam_width - i,
        {
            if clock.expired() {
                let action = report_or_first_legal(state, best);
                proof {
                    let b = spent + i as nat;
                    assert(i < checks);
                    assert(beam_report(root, width, b) == best);
                    assert(action == beam_choice(root, width, b));
                    lemma_beam_choice_legal(root, width, b);
                }
                return action;
            }
            let popped = now_beam.pop();
            let now_state = popped.unwrap();
            proof {
                assert(now_state@ == now0[i as int]);
                assert(at_depth(root, depth, now_state@));
                assert(now_beam@ =~= now0.skip(i + 1));
                assert forall|k: int| 0 <= k < now_beam@.len() implies at_depth(
                    root,
                    depth,
                    #[trigger] now_beam@[k],
                ) by {
                    assert(now_beam@[k] == now0[i + 1 + k]);
                }
                lemma_children_at_depth(root, depth, now_state@);
                lemma_push_all_at_depth(root, depth + 1, next_beam@, children(now_state@, at_root));
            }
            expand_into(&now_state, at_root, &mut next_beam);
            i = i + 1;
        }
        proof {
            assert(i == checks);
            assert(expand(now0, Seq::empty(), width, at_root) == next_beam@);
            lemma_expand_at_depth(root, depth, now0, Seq::empty(), width);
        }
        match next_beam.peek() {
            None => {
                let action = report_or_first_legal(state, best);
                proof {
                    let b = spent + checks;
                    assert(beam_report(root, width, b) == best);
                    lemma_beam_choice_legal(root, width, b);
                    if let Some(n) = c0 {
                        assert(beam_report(root, width, n) == best);
                    }
                }
                return action;
            },
            Some(top) => {
                proof {
                    assert(at_depth(root, depth + 1, next_beam@[0]));
                }
                best = top.first_action();
                done = top.is_done();
            },
        }
        now_beam = next_beam;
        at_root = false;
        proof {
            assert forall|b: nat| b >= spent + checks implies #[trigger] beam_report(root, width, b)
                == beam_descend(
                now_beam@,
                best,
                (left - 1) as nat,
                false,
                width,
                (b - spent - checks) as nat,
            ) by {
                assert(beam_report(root, width, b) == beam_descend(
                    now0,
                    best0,
                    left,
                    depth == 0,
                    width,
                    (b - spent) as nat,
                ));
            }
            spent = spent + checks;
            depth = depth + 1;
        }
    }
    let action = report_or_first_legal(state, best);
    proof {
        assert(beam_report(root, width, spent) == best);
        lemma_beam_choice_legal(root, width, spent);
        if let Some(n) = c0 {
            assert(beam_report(root, width, n) == best);
        }
    }
    action
}

/// Chooses the next move by beam search within `time_threshold` milliseconds
/// of wall-clock time.
///
/// Which move comes back depends on how far the search got before the time
/// ran out: it is the choice of beam search for some number of expansions.
/// With a threshold of zero the clock is over at the first check.
pub fn beam_search_action_with_time_threshold(
    state: &MazeState,
    beam_width: usize,
    time_threshold: usize,
) -> (action: usize)
    requires
        state.wf(),
    ensures
        state@.legal_actions().contains(action),
        exists|budget: nat| action == beam_choice(state@, beam_width as nat, budget),
        time_threshold == 0 ==> action == beam_choice(state@, beam_width as nat, 0),
{
    let mut time_keeper = TimeKeeper::new(time_threshold);
    beam_search_action(state, beam_width, &mut time_keeper)
}

/// Under a clock with a counted budget, beam search is a function of the
/// root, the width and the budget: two runs return the same move.
pub proof fn law_beam_repeatable(
    root: MazeModel,
    width: nat,
    budget: nat,
    first: usize,
    second: usize,
)
    requires
        beam_outcome(root, width, Some(budget), first),
        beam_outcome(root, width, Some(budget), second),
    ensures
        first == second,
{
}

} // verus!
