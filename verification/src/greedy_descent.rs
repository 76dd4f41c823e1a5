//! Beam search at its narrowest: a beam of width 1 is greedy descent.

use crate::beam::beam_choice;
use crate::beam::beam_descend;
use crate::beam::beam_report;
use crate::beam::expand;
use crate::beam::lemma_expand_at_depth;
use crate::beam::round_checks;
use crate::expand::all_at_depth;
use crate::expand::at_depth;
use crate::expand::children;
use crate::expand::lemma_children_at_depth;
use crate::frontier::lemma_push_all_ranked;
use crate::frontier::lemma_top_after_insert;
use crate::frontier::push_all;
use crate::greedy::first_best;
use crate::greedy::greedy_choice;
use crate::greedy::lemma_first_best;
use crate::greedy::lemma_first_best_by_scores;
use crate::maze::MazeModel;
use vstd::prelude::*;

verus! {

/// The best state of a frontier that was filled from nothing is the first
/// best of the states pushed.
pub proof fn lemma_top_of_pushed(xs: Seq<MazeModel>)
    requires
        xs.len() > 0,
    ensures
        push_all(Seq::empty(), xs).len() == xs.len(),
        push_all(Seq::empty(), xs)[0] == xs[first_best(xs)],
    decreases xs.len(),
{
    let front = xs.drop_last();
    let f = push_all(Seq::empty(), front);
    lemma_push_all_ranked(Seq::empty(), front);
    lemma_top_after_insert(f, xs.last());
    if front.len() > 0 {
        lemma_top_of_pushed(front);
        lemma_first_best(front);
        assert(front[first_best(front)] == xs[first_best(front)]);
    }
}

/// The first round of a search: the frontier below the root holds the root's
/// successors, and its best state is tagged with the greedy move.
pub proof fn lemma_first_round(root: MazeModel, width: nat)
    requires
        root.wf(),
        !root.is_done(),
        width >= 1,
    ensures
        expand(seq![root], Seq::empty(), width, true) == push_all(
            Seq::empty(),
            children(root, true),
        ),
        expand(seq![root], Seq::empty(), width, true).len() > 0,
        expand(seq![root], Seq::empty(), width, true)[0].first_action == Some(greedy_choice(root)),
        all_at_depth(root, 1, expand(seq![root], Seq::empty(), width, true)),
{
    let now = seq![root];
    let tagged = children(root, true);
    let plain = children(root, false);
    let next = push_all(Seq::empty(), tagged);
    assert(now.drop_first() =~= Seq::<MazeModel>::empty());
    assert(expand(now.drop_first(), next, (width - 1) as nat, true) == next);
    assert(expand(now, Seq::empty(), width, true) == next);
    lemma_children_at_depth(root, 0, root);
    lemma_top_of_pushed(tagged);
    lemma_first_best_by_scores(tagged, plain);
    lemma_first_best(tagged);
    lemma_expand_at_depth(root, 0, now, Seq::empty(), width);
}

/// With one turn left, beam search of any width makes the greedy move, if
/// the clock lets it expand the root.
pub proof fn law_last_turn_is_greedy(root: MazeModel, width: nat, budget: nat)
    requires
        root.wf(),
        root.turns_left() == 1,
        width >= 1,
        budget >= 1,
    ensures
        beam_choice(root, width, budget) == greedy_choice(root),
{
    lemma_first_round(root, width);
    let next = expand(seq![root], Seq::empty(), width, true);
    assert(round_checks(1, width) == 1);
    assert(beam_descend(next, next[0].first_action, 0, false, width, (budget - 1) as nat)
        == next[0].first_action);
    assert(beam_report(root, width, budget) == next[0].first_action);
}

/// A beam of width 1 below the root follows a single path: the tag of its
/// one state never changes, whenever the clock expires.
pub proof fn lemma_single_path(
    root: MazeModel,
    depth: nat,
    now: Seq<MazeModel>,
    tag: usize,
    left: nat,
    budget: nat,
)
    requires
        root.wf(),
        depth >= 1,
        root.turn + depth + left == root.end_turn,
        all_at_depth(root, depth, now),
        now.len() > 0,
        now[0].first_action == Some(tag),
    ensures
        beam_descend(now, Some(tag), left, false, 1, budget) == Some(tag),
    decreases left,
{
    let checks = round_checks(now.len(), 1);
    if left == 0 || budget < checks {
    } else {
        let kids = children(now[0], false);
        let next = push_all(Seq::empty(), kids);
        assert(expand(now.drop_first(), next, 0, false) == next);
        assert(expand(now, Seq::empty(), 1, false) == next);
        assert(at_depth(root, depth, now[0]));
        lemma_children_at_depth(root, depth, now[0]);
        lemma_top_of_pushed(kids);
        lemma_first_best(kids);
        lemma_expand_at_depth(root, depth, now, Seq::empty(), 1);
        assert(next[0].first_action == Some(tag));
        lemma_single_path(root, depth + 1, next, tag, (left - 1) as nat, (budget - checks) as nat);
    }
}

/// Beam search of width 1 is greedy descent: at every root with turns left it
/// makes the greedy move, if the clock lets it expand the root.
pub proof fn law_width_one_is_greedy(root: MazeModel, budget: nat)
    requires
        root.wf(),
        !root.is_done(),
        budget >= 1,
    ensures
        beam_choice(root, 1, budget) == greedy_choice(root),
{
    lemma_first_round(root, 1);
    let next = expand(seq![root], Seq::empty(), 1, true);
    assert(round_checks(1, 1) == 1);
    lemma_single_path(
        root,
        1,
        next,
        greedy_choice(root),
        (root.turns_left() - 1) as nat,
        (budget - 1) as nat,
    );
    assert(beam_report(root, 1, budget) == Some(greedy_choice(root)));
}

} // verus!
