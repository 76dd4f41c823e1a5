//! What the two engines share: the successors of a state, how they enter a
//! frontier, and what holds of every state a search reaches.

use crate::frontier::Frontier;
use crate::frontier::insert_ranked;
use crate::frontier::lemma_rank_of;
use crate::frontier::push_all;
use crate::maze::lemma_advance_wf;
use crate::maze::lemma_legal_actions_nonempty;
use crate::maze::MazeModel;
use crate::maze::MazeState;
use vstd::prelude::*;

verus! {

/// The successors of a state, one for each legal direction, in the order of
/// the directions. Successors of the root of a search carry their direction
/// as tag; the others inherit their parent's.
pub open spec fn children(s: MazeModel, at_root: bool) -> Seq<MazeModel> {
    Seq::new(s.legal_actions().len(), |i: int| s.child(s.legal_actions()[i], at_root))
}

/// What holds of a state that a search from `root` reaches after `depth`
/// moves: it is a state of the same game, `depth` turns on, and it is tagged
/// with the legal direction of the root that its path began with. At depth 0
/// stands the root alone.
pub open spec fn at_depth(root: MazeModel, depth: nat, s: MazeModel) -> bool {
    if depth == 0 {
        s == root
    } else {
        &&& s.wf()
        &&& s.height == root.height
        &&& s.width == root.width
        &&& s.end_turn == root.end_turn
        &&& s.turn == root.turn + depth
        &&& s.evaluated_score == s.game_score
        &&& s.first_action is Some
        &&& root.legal_actions().contains(s.first_action->0)
    }
}

/// Every state of the sequence is at the given depth below the root.
pub open spec fn all_at_depth(root: MazeModel, depth: nat, f: Seq<MazeModel>) -> bool {
    forall|i: int| 0 <= i < f.len() ==> at_depth(root, depth, #[trigger] f[i])
}

/// A successor of a state at some depth is one level deeper.
pub proof fn lemma_child_at_depth(root: MazeModel, depth: nat, s: MazeModel, i: int)
    requires
        root.wf(),
        at_depth(root, depth, s),
        !s.is_done(),
        0 <= i < s.legal_actions().len(),
    ensures
        at_depth(root, depth + 1, children(s, depth == 0)[i]),
{
    lemma_legal_actions_nonempty(s);
    let a = s.legal_actions()[i];
    lemma_advance_wf(s, a as int);
}

/// The successors of a state at some depth are all one level deeper, and
/// there is at least one.
pub proof fn lemma_children_at_depth(root: MazeModel, depth: nat, s: MazeModel)
    requires
        root.wf(),
        at_depth(root, depth, s),
        !s.is_done(),
    ensures
        all_at_depth(root, depth + 1, children(s, depth == 0)),
        children(s, depth == 0).len() > 0,
{
    lemma_legal_actions_nonempty(s);
    let c = children(s, depth == 0);
    assert forall|i: int| 0 <= i < c.len() implies at_depth(root, depth + 1, #[trigger] c[i]) by {
        lemma_child_at_depth(root, depth, s, i);
    }
}

/// A push keeps a frontier at its depth.
pub proof fn lemma_insert_at_depth(root: MazeModel, depth: nat, f: Seq<MazeModel>, x: MazeModel)
    requires
        all_at_depth(root, depth, f),
        at_depth(root, depth, x),
    ensures
        all_at_depth(root, depth, insert_ranked(f, x)),
        insert_ranked(f, x).len() == f.len() + 1,
{
    lemma_rank_of(f, x.evaluated_score);
    let r = crate::frontier::rank_of(f, x.evaluated_score) as int;
    let g = insert_ranked(f, x);
    assert forall|i: int| 0 <= i < g.len() implies at_depth(root, depth, #[trigger] g[i]) by {
        if i < r {
            assert(g[i] == f[i]);
        } else if i > r {
            assert(g[i] == f[i - 1]);
        }
    }
}

/// Pushes keep a frontier at its depth.
pub proof fn lemma_push_all_at_depth(
    root: MazeModel,
    depth: nat,
    f: Seq<MazeModel>,
    xs: Seq<MazeModel>,
)
    requires
        all_at_depth(root, depth, f),
        all_at_depth(root, depth, xs),
    ensures
        all_at_depth(root, depth, push_all(f, xs)),
        push_all(f, xs).len() == f.len() + xs.len(),
    decreases xs.len(),
{
    if xs.len() > 0 {
        let front = xs.drop_last();
        assert forall|i: int| 0 <= i < front.len() implies at_depth(
            root,
            depth,
            #[trigger] front[i],
        ) by {
            assert(front[i] == xs[i]);
        }
        lemma_push_all_at_depth(root, depth, f, front);
        lemma_insert_at_depth(root, depth, push_all(f, front), xs.last());
    }
}

/// Puts every successor of `state` on the frontier `next`, in the order of
/// the directions.
pub fn expand_into(state: &MazeState, at_root: bool, next: &mut Frontier)
    requires
        state.wf(),
        !state@.is_done(),
    ensures
        final(next)@ == push_all(old(next)@, children(state@, at_root)),
        old(next).wf() ==> final(next).wf(),
{
    let legal_actions = state.legal_actions();
    let ghost all = children(state@, at_root);
    let mut i: usize = 0;
    proof {
        lemma_legal_actions_nonempty(state@);
        assert(all.take(0) =~= Seq::<MazeModel>::empty());
    }
    while i < legal_actions.len()
        invariant
            state.wf(),
            !state@.is_done(),
            i <= legal_actions.len(),
            legal_actions@ == state@.legal_actions(),
            all == children(state@, at_root),
            forall|k: int|
                0 <= k < legal_actions@.len() ==> state@.legal(#[trigger] legal_actions@[k] as int),
            next@ == push_all(old(next)@, all.take(i as int)),
            old(next).wf() ==> next.wf(),
        decreases legal_actions.len() - i,
    {
        let action: usize = legal_actions[i];
        let mut next_state = state.clone();
        next_state.advance(action);
        next_state.evaluate_score();
        if at_root {
            next_state.set_first_action(action);
        }
        proof {
            assert(next_state@ == all[i as int]);
            assert(all.take(i + 1).drop_last() =~= all.take(i as int));
            assert(all.take(i + 1).last() == all[i as int]);
        }
        next.push(next_state);
        i = i + 1;
    }
    proof {
        assert(all.take(i as int) =~= all);
    }
}

/// The move that a search reports, or the first legal move of the root where
/// it has none to report.
pub open spec fn or_first_legal(root: MazeModel, report: Option<usize>) -> usize {
    match report {
        Some(action) => action,
        None => root.legal_actions()[0],
    }
}

/// The move that a search reports, or the first legal move of the root where
/// it has none to report.
pub fn report_or_first_legal(state: &MazeState, report: Option<usize>) -> (action: usize)
    requires
        state.wf(),
    ensures
        action == or_first_legal(state@, report),
{
    match report {
        Some(action) => action,
        None => {
            let legal_actions = state.legal_actions();
            legal_actions[0]
        },
    }
}

} // verus!
