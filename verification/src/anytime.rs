//! Chokudai search is an anytime search: the state on which it rests its
//! choice never gets worse as the rounds go on.

use crate::chokudai::advance_level;
use crate::chokudai::chokudai_reported;
use crate::chokudai::chokudai_round;
use crate::chokudai::chokudai_rounds;
use crate::chokudai::deepest_best;
use crate::chokudai::initial_beams;
use crate::chokudai::lemma_rounds_levels_ok;
use crate::chokudai::lemma_sweep_levels_ok;
use crate::chokudai::levels_ok;
use crate::chokudai::sweep;
use crate::expand::all_at_depth;
use crate::expand::at_depth;
use crate::expand::children;
use crate::expand::lemma_children_at_depth;
use crate::frontier::lemma_push_all_len;
use crate::frontier::lemma_push_all_top;
use crate::frontier::push_all;
use crate::maze::MazeModel;
use vstd::prelude::*;

verus! {

/// The depth of the frontier on which a search that has run a round rests
/// its choice: the last depth, or the depth at which the game ends where
/// that comes first.
pub open spec fn settled_depth(root: MazeModel, depth: nat) -> nat {
    if depth <= root.turns_left() {
        depth
    } else {
        root.turns_left()
    }
}

/// The frontiers of a search that has run a round: the frontier at the
/// settled depth holds a state and those below it hold none.
pub open spec fn settled(root: MazeModel, depth: nat, beams: Seq<Seq<MazeModel>>) -> bool {
    &&& beams.len() == depth + 1
    &&& levels_ok(root, beams)
    &&& beams[settled_depth(root, depth) as int].len() > 0
    &&& forall|u: int| settled_depth(root, depth) < u <= depth ==> (#[trigger] beams[u]).len() == 0
}

/// Advancing a depth never takes a state from the frontier below, nor lowers
/// its best state.
pub proof fn lemma_advance_level_grows(
    now: Seq<MazeModel>,
    next: Seq<MazeModel>,
    n: nat,
    at_root: bool,
)
    ensures
        advance_level(now, next, n, at_root).1.len() >= next.len(),
        next.len() > 0 ==> advance_level(now, next, n, at_root).1[0].evaluated_score
            >= next[0].evaluated_score,
    decreases n,
{
    if n == 0 || now.len() == 0 || now[0].is_done() {
    } else {
        let pushed = push_all(next, children(now[0], at_root));
        lemma_push_all_len(next, children(now[0], at_root));
        if next.len() > 0 {
            lemma_push_all_top(next, children(now[0], at_root));
        }
        lemma_advance_level_grows(now.drop_first(), pushed, (n - 1) as nat, at_root);
    }
}

/// Advancing a depth whose best state has turns left, by one state or more,
/// puts a state on the frontier below.
pub proof fn lemma_advance_level_expands(
    root: MazeModel,
    depth: nat,
    now: Seq<MazeModel>,
    next: Seq<MazeModel>,
    n: nat,
)
    requires
        root.wf(),
        all_at_depth(root, depth, now),
        n > 0,
        now.len() > 0,
        !now[0].is_done(),
    ensures
        advance_level(now, next, n, depth == 0).1.len() > 0,
{
    let kids = children(now[0], depth == 0);
    assert(at_depth(root, depth, now[0]));
    lemma_children_at_depth(root, depth, now[0]);
    lemma_push_all_len(next, kids);
    lemma_advance_level_grows(now.drop_first(), push_all(next, kids), (n - 1) as nat, depth == 0);
}

/// During the first round the frontiers fill from the root downwards: when
/// `levels` depths have been advanced, the frontier at depth `levels` holds
/// a state, or the one at the settled depth where that is less, and the
/// deeper ones hold none.
pub proof fn lemma_first_sweep(root: MazeModel, depth: nat, width: nat, levels: nat)
    requires
        root.wf(),
        width >= 1,
        levels <= depth,
    ensures
        ({
            let after = sweep(initial_beams(root, depth), levels, width);
            let reach = if levels <= settled_depth(root, depth) {
                levels
            } else {
                settled_depth(root, depth)
            };
            &&& after.len() == depth + 1
            &&& levels_ok(root, after)
            &&& after[reach as int].len() > 0
            &&& forall|u: int| reach < u <= depth ==> (#[trigger] after[u]).len() == 0
        }),
    decreases levels,
{
    let start = initial_beams(root, depth);
    lemma_rounds_levels_ok(root, depth, width, 0);
    assert(chokudai_rounds(start, width, 0) == start);
    lemma_sweep_levels_ok(root, start, levels, width);
    if levels > 0 {
        let t: int = levels - 1;
        lemma_first_sweep(root, depth, width, t as nat);
        let before = sweep(start, t as nat, width);
        let after = sweep(start, levels, width);
        let (now, next) = advance_level(before[t], before[t + 1], width, t == 0);
        assert(after == before.update(t, now).update(t + 1, next));
        assert(all_at_depth(root, t as nat, before[t]));
        if t < settled_depth(root, depth) {
            assert(at_depth(root, t as nat, before[t][0]));
            lemma_advance_level_expands(root, t as nat, before[t], before[t + 1], width);
            assert forall|u: int| levels < u <= depth implies (#[trigger] after[u]).len() == 0 by {
                assert(after[u] == before[u]);
            }
        } else {
            let reach = settled_depth(root, depth);
            if t == reach {
                assert(at_depth(root, t as nat, before[t][0]));
                assert(before[t][0].is_done());
            } else {
                assert(before[t].len() == 0);
            }
            assert(now == before[t] && next == before[t + 1]);
            assert(after =~= before);
        }
    }
}

/// After a round the frontiers are settled.
pub proof fn lemma_first_round_settles(root: MazeModel, depth: nat, width: nat)
    requires
        root.wf(),
        width >= 1,
    ensures
        settled(root, depth, chokudai_rounds(initial_beams(root, depth), width, 1)),
{
    let start = initial_beams(root, depth);
    assert(chokudai_rounds(start, width, 0) == start);
    assert(chokudai_rounds(start, width, 1) == chokudai_round(start, width));
    lemma_first_sweep(root, depth, width, depth);
}

/// Advancing depths of settled frontiers leaves them settled, and does not
/// lower the best state at the settled depth.
pub proof fn lemma_sweep_settled(
    root: MazeModel,
    depth: nat,
    beams: Seq<Seq<MazeModel>>,
    levels: nat,
    width: nat,
)
    requires
        root.wf(),
        settled(root, depth, beams),
        levels <= depth,
    ensures
        settled(root, depth, sweep(beams, levels, width)),
        sweep(beams, levels, width)[settled_depth(root, depth) as int][0].evaluated_score
            >= beams[settled_depth(root, depth) as int][0].evaluated_score,
    decreases levels,
{
    let reach = settled_depth(root, depth);
    lemma_sweep_levels_ok(root, beams, levels, width);
    if levels > 0 {
        let t: int = levels - 1;
        lemma_sweep_settled(root, depth, beams, t as nat, width);
        let before = sweep(beams, t as nat, width);
        let after = sweep(beams, levels, width);
        let (now, next) = advance_level(before[t], before[t + 1], width, t == 0);
        assert(after == before.update(t, now).update(t + 1, next));
        assert(all_at_depth(root, t as nat, before[t]));
        lemma_advance_level_grows(before[t], before[t + 1], width, t == 0);
        if t + 1 < reach {
            assert(after[reach as int] == before[reach as int]);
            assert forall|u: int| reach < u <= depth implies (#[trigger] after[u]).len() == 0 by {
                assert(after[u] == before[u]);
            }
        } else if t + 1 == reach {
            assert(after[reach as int] == next);
            assert forall|u: int| reach < u <= depth implies (#[trigger] after[u]).len() == 0 by {
                assert(after[u] == before[u]);
            }
        } else {
            if t == reach {
                assert(at_depth(root, t as nat, before[t][0]));
                assert(before[t][0].is_done());
            } else {
                assert(before[t].len() == 0);
            }
            assert(now == before[t] && next == before[t + 1]);
            assert(after =~= before);
        }
    }
}

/// From the first round on the frontiers are settled, and from one round to
/// a later one the best state at the settled depth does not get worse.
pub proof fn lemma_rounds_settled(root: MazeModel, depth: nat, width: nat, fewer: nat, more: nat)
    requires
        root.wf(),
        width >= 1,
        1 <= fewer <= more,
    ensures
        settled(root, depth, chokudai_rounds(initial_beams(root, depth), width, fewer)),
        settled(root, depth, chokudai_rounds(initial_beams(root, depth), width, more)),
        chokudai_rounds(initial_beams(root, depth), width, fewer)[settled_depth(
            root,
            depth,
        ) as int][0].evaluated_score <= chokudai_rounds(
            initial_beams(root, depth),
            width,
            more,
        )[settled_depth(root, depth) as int][0].evaluated_score,
    decreases more,
{
    let start = initial_beams(root, depth);
    if more == 1 {
        lemma_first_round_settles(root, depth, width);
    } else if fewer == more {
        lemma_rounds_settled(root, depth, width, 1, (more - 1) as nat);
        lemma_sweep_settled(
            root,
            depth,
            chokudai_rounds(start, width, (more - 1) as nat),
            depth,
            width,
        );
    } else {
        lemma_rounds_settled(root, depth, width, fewer, (more - 1) as nat);
        lemma_sweep_settled(
            root,
            depth,
            chokudai_rounds(start, width, (more - 1) as nat),
            depth,
            width,
        );
    }
}

/// The search rests its choice on the best state at the settled depth.
pub proof fn lemma_deepest_of_settled(
    root: MazeModel,
    depth: nat,
    beams: Seq<Seq<MazeModel>>,
    upto: nat,
)
    requires
        settled(root, depth, beams),
        settled_depth(root, depth) >= 1,
        settled_depth(root, depth) < upto <= depth + 1,
    ensures
        deepest_best(beams, upto) == Some(beams[settled_depth(root, depth) as int][0]),
    decreases upto,
{
    if upto - 1 > settled_depth(root, depth) {
        assert(beams[upto - 1].len() == 0);
        lemma_deepest_of_settled(root, depth, beams, (upto - 1) as nat);
    }
}

/// From the first round on, a search that can expand its root has a state
/// to report, and the state reported after more rounds scores at least as
/// much as the one reported after fewer.
pub proof fn lemma_reported_after_a_round(
    root: MazeModel,
    width: nat,
    depth: nat,
    fewer: nat,
    more: nat,
)
    requires
        root.wf(),
        !root.is_done(),
        width >= 1,
        depth >= 1,
        1 <= fewer <= more,
    ensures
        chokudai_reported(root, width, depth, fewer) is Some,
        chokudai_reported(root, width, depth, more) is Some,
        chokudai_reported(root, width, depth, fewer)->0.evaluated_score <= chokudai_reported(
            root,
            width,
            depth,
            more,
        )->0.evaluated_score,
{
    let start = initial_beams(root, depth);
    lemma_rounds_settled(root, depth, width, fewer, more);
    lemma_deepest_of_settled(root, depth, chokudai_rounds(start, width, fewer), depth + 1);
    lemma_deepest_of_settled(root, depth, chokudai_rounds(start, width, more), depth + 1);
}

/// At the start of a search no frontier below the root holds a state.
pub proof fn lemma_nothing_below_the_root(root: MazeModel, depth: nat, upto: nat)
    requires
        upto <= depth + 1,
    ensures
        deepest_best(initial_beams(root, depth), upto) is None,
    decreases upto,
{
    if upto > 1 {
        lemma_nothing_below_the_root(root, depth, (upto - 1) as nat);
    }
}

/// A search that cannot expand its root, because its beam has no width or
/// the game is over, leaves its frontiers as they were at the start.
pub proof fn lemma_idle_sweep(root: MazeModel, depth: nat, width: nat, levels: nat)
    requires
        width == 0 || root.is_done(),
        levels <= depth,
    ensures
        sweep(initial_beams(root, depth), levels, width) == initial_beams(root, depth),
    decreases levels,
{
    if levels > 0 {
        let start = initial_beams(root, depth);
        lemma_idle_sweep(root, depth, width, (levels - 1) as nat);
        let t: int = levels - 1;
        let (now, next) = advance_level(start[t], start[t + 1], width, t == 0);
        assert(now == start[t] && next == start[t + 1]);
        assert(start.update(t, now).update(t + 1, next) =~= start);
    }
}

/// A search that cannot expand its root has no state to report, however
/// many rounds it runs.
pub proof fn lemma_idle_rounds(root: MazeModel, depth: nat, width: nat, rounds: nat)
    requires
        width == 0 || root.is_done(),
    ensures
        chokudai_rounds(initial_beams(root, depth), width, rounds) == initial_beams(root, depth),
        chokudai_reported(root, width, depth, rounds) is None,
    decreases rounds,
{
    if rounds > 0 {
        lemma_idle_rounds(root, depth, width, (rounds - 1) as nat);
        lemma_idle_sweep(root, depth, width, depth);
    }
    lemma_nothing_below_the_root(root, depth, depth + 1);
}

/// More rounds never make the choice rest on a worse state: where chokudai
/// search has a state to report after some rounds, it has one after more
/// rounds, and that one scores at least as much.
pub proof fn law_more_rounds_never_worse(
    root: MazeModel,
    width: nat,
    depth: nat,
    fewer: nat,
    more: nat,
)
    requires
        root.wf(),
        fewer <= more,
    ensures
        chokudai_reported(root, width, depth, fewer) matches Some(early) ==> {
            &&& chokudai_reported(root, width, depth, more) matches Some(late)
            &&& early.evaluated_score <= late.evaluated_score
        },
{
    if width == 0 || root.is_done() {
        lemma_idle_rounds(root, depth, width, fewer);
    } else if depth == 0 || fewer == 0 {
        if fewer == 0 {
            lemma_nothing_below_the_root(root, depth, depth + 1);
        }
    } else {
        lemma_reported_after_a_round(root, width, depth, fewer, more);
    }
}

} // verus!
