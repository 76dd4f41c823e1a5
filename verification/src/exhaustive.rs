//! Beam search at the limit: a beam that no frontier outgrows prunes
//! nothing, and chooses as the search of the whole game tree does.

use crate::beam::beam_choice;
use crate::beam::beam_descend;
use crate::beam::expand;
use crate::beam::lemma_expand_at_depth;
use crate::beam::round_checks;
use crate::expand::all_at_depth;
use crate::expand::children;
use crate::expand::or_first_legal;
use crate::frontier::lemma_push_all_len;
use crate::frontier::push_all;
use crate::maze::ACTION_COUNT;
use crate::maze::lemma_legal_below;
use crate::maze::MazeModel;
use vstd::prelude::*;

verus! {

/// The frontier of the search that prunes nothing, `depth` moves below the
/// root: every state that `depth` legal moves lead to, best first.
pub open spec fn full_level(root: MazeModel, depth: nat) -> Seq<MazeModel>
    decreases depth,
{
    if depth == 0 {
        seq![root]
    } else {
        let above = full_level(root, (depth - 1) as nat);
        expand(above, Seq::empty(), above.len(), depth == 1)
    }
}

/// The move that the search of the whole game tree chooses: the root move of
/// the best state at the end of the game, or the first legal move where the
/// game is over.
pub open spec fn exhaustive_choice(root: MazeModel) -> usize {
    or_first_legal(
        root,
        if root.turns_left() == 0 {
            None
        } else {
            full_level(root, root.turns_left())[0].first_action
        },
    )
}

/// An upper bound on the number of states `depth` moves below a root.
pub open spec fn level_bound(depth: nat) -> nat
    decreases depth,
{
    if depth == 0 {
        1
    } else {
        ACTION_COUNT as nat * level_bound((depth - 1) as nat)
    }
}

/// A round brings forth at most four states for each state that it expands.
pub proof fn lemma_expand_len(now: Seq<MazeModel>, next: Seq<MazeModel>, n: nat, at_root: bool)
    ensures
        expand(now, next, n, at_root).len() <= next.len() + ACTION_COUNT * now.len(),
    decreases n,
{
    if n == 0 || now.len() == 0 {
    } else {
        let kids = children(now[0], at_root);
        lemma_legal_below(now[0], ACTION_COUNT as nat);
        lemma_push_all_len(next, kids);
        lemma_expand_len(now.drop_first(), push_all(next, kids), (n - 1) as nat, at_root);
    }
}

/// A round that may expand more states than the frontier holds expands them
/// all, and no more.
pub proof fn lemma_expand_saturates(
    now: Seq<MazeModel>,
    next: Seq<MazeModel>,
    n: nat,
    at_root: bool,
)
    requires
        n >= now.len(),
    ensures
        expand(now, next, n, at_root) == expand(now, next, now.len(), at_root),
    decreases now.len(),
{
    if now.len() > 0 {
        lemma_expand_saturates(
            now.drop_first(),
            push_all(next, children(now[0], at_root)),
            (n - 1) as nat,
            at_root,
        );
    }
}

/// While the game runs, every level of the unpruned search holds states of
/// its depth, at least one and at most `level_bound`.
pub proof fn lemma_full_level(root: MazeModel, depth: nat)
    requires
        root.wf(),
        root.turn + depth <= root.end_turn,
    ensures
        all_at_depth(root, depth, full_level(root, depth)),
        0 < full_level(root, depth).len() <= level_bound(depth),
    decreases depth,
{
    if depth > 0 {
        let d = (depth - 1) as nat;
        let above = full_level(root, d);
        lemma_full_level(root, d);
        lemma_expand_at_depth(root, d, above, Seq::empty(), above.len());
        lemma_expand_len(above, Seq::empty(), above.len(), d == 0);
        assert(ACTION_COUNT * above.len() <= ACTION_COUNT * level_bound(d)) by (nonlinear_arith)
            requires
                above.len() <= level_bound(d),
        ;
    }
}

/// The levels of the unpruned search are bounded by one bound together.
pub proof fn lemma_level_bound_grows(shallow: nat, deep: nat)
    requires
        shallow <= deep,
    ensures
        level_bound(shallow) <= level_bound(deep),
        level_bound(shallow) >= 1,
    decreases deep,
{
    if shallow < deep {
        lemma_level_bound_grows(shallow, (deep - 1) as nat);
    } else if shallow > 0 {
        lemma_level_bound_grows((shallow - 1) as nat, (shallow - 1) as nat);
    }
}

/// From a level of the unpruned search, a beam that no later level outgrows
/// descends through the levels of the unpruned search.
pub proof fn lemma_unpruned_descend(
    root: MazeModel,
    depth: nat,
    best: Option<usize>,
    left: nat,
    width: nat,
    budget: nat,
)
    requires
        root.wf(),
        root.turn + depth + left == root.end_turn,
        forall|d: nat| depth <= d < depth + left ==> (#[trigger] full_level(root, d)).len() <= width,
        budget >= left * width,
    ensures
        beam_descend(full_level(root, depth), best, left, depth == 0, width, budget) == if left
            == 0 {
            best
        } else {
            full_level(root, depth + left)[0].first_action
        },
    decreases left,
{
    if left > 0 {
        let now = full_level(root, depth);
        let checks = round_checks(now.len(), width);
        lemma_full_level(root, depth);
        lemma_full_level(root, depth + 1);
        assert(now.len() <= width);
        assert(left * width >= width && left * width - width == (left - 1) * width)
            by (nonlinear_arith)
            requires
                left >= 1,
        ;
        lemma_expand_saturates(now, Seq::empty(), width, depth == 0);
        let next = full_level(root, depth + 1);
        assert(next == expand(now, Seq::empty(), width, depth == 0));
        assert forall|d: nat| depth + 1 <= d < depth + 1 + (left - 1) implies (#[trigger] full_level(
            root,
            d,
        )).len() <= width by {}
        lemma_unpruned_descend(
            root,
            depth + 1,
            next[0].first_action,
            (left - 1) as nat,
            width,
            (budget - checks) as nat,
        );
    }
}

/// A beam that no frontier outgrows, under a clock that lets it expand `width`
/// states in every turn that is left, chooses the move that the search of the
/// whole game tree chooses.
pub proof fn law_unpruned_beam_is_exhaustive(root: MazeModel, width: nat, budget: nat)
    requires
        root.wf(),
        forall|d: nat| d < root.turns_left() ==> (#[trigger] full_level(root, d)).len() <= width,
        budget >= root.turns_left() * width,
    ensures
        beam_choice(root, width, budget) == exhaustive_choice(root),
{
    lemma_unpruned_descend(root, 0, None, root.turns_left(), width, budget);
}

/// A beam as wide as the game tree can get before its last turn, under a
/// clock that lets it expand `width` states in every turn that is left,
/// chooses the move that the search of the whole game tree chooses.
pub proof fn law_wide_beam_is_exhaustive(root: MazeModel, width: nat, budget: nat)
    requires
        root.wf(),
        !root.is_done(),
        width >= level_bound((root.turns_left() - 1) as nat),
        budget >= root.turns_left() * width,
    ensures
        beam_choice(root, width, budget) == exhaustive_choice(root),
{
    assert forall|d: nat| d < root.turns_left() implies (#[trigger] full_level(root, d)).len()
        <= width by {
        lemma_full_level(root, d);
        lemma_level_bound_grows(d, (root.turns_left() - 1) as nat);
    }
    law_unpruned_beam_is_exhaustive(root, width, budget);
}

} // verus!
