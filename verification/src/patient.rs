//! Chokudai search at the limit: given rounds enough to expand every state
//! of the game tree, it chooses the first move of a best game, and so never
//! a worse move than beam search does.

use crate::beam::beam_choice;
use crate::beam::lemma_beam_choice_legal;
use crate::chokudai::advance_level;
use crate::chokudai::chokudai_choice;
use crate::chokudai::chokudai_reported;
use crate::chokudai::chokudai_rounds;
use crate::chokudai::deepest_best;
use crate::chokudai::initial_beams;
use crate::chokudai::lemma_rounds_levels_ok;
use crate::chokudai::lemma_sweep_levels_ok;
use crate::chokudai::levels_ok;
use crate::chokudai::sweep;
use crate::expand::all_at_depth;
use crate::expand::at_depth;
use crate::expand::children;
use crate::expand::lemma_children_at_depth;
use crate::expand::lemma_push_all_at_depth;
use crate::frontier::lemma_push_all_len;
use crate::frontier::lemma_push_all_members;
use crate::frontier::lemma_push_all_ranked;
use crate::frontier::push_all;
use crate::frontier::ranked;
use crate::maze::ACTION_COUNT;
use crate::maze::lemma_legal_actions_nonempty;
use crate::maze::lemma_legal_below;
use crate::maze::MazeModel;
use crate::optimal::best_outcome;
use crate::optimal::law_exhaustive_choice_is_best;
use crate::optimal::lemma_best_child;
use crate::optimal::lemma_child_outcome;
use crate::optimal::outcome_of_move;
use crate::optimal::outcome_through;
use vstd::prelude::*;

verus! {

/// An upper bound on the expansions that a state with `turns` turns left can
/// give rise to: its own, and those of its successors.
pub open spec fn work(turns: nat) -> nat
    decreases turns,
{
    if turns == 0 {
        0
    } else {
        ACTION_COUNT as nat * work((turns - 1) as nat) + 1
    }
}

/// That bound for a state `depth` moves below the root.
pub open spec fn weight(root: MazeModel, depth: int) -> nat {
    if 0 <= depth < root.turns_left() {
        work((root.turns_left() - depth) as nat)
    } else {
        0
    }
}

/// An upper bound on the expansions that the states on the first `upto`
/// frontiers can still give rise to.
pub open spec fn pending(root: MazeModel, beams: Seq<Seq<MazeModel>>, upto: nat) -> nat
    decreases upto,
{
    if upto == 0 {
        0
    } else {
        pending(root, beams, (upto - 1) as nat) + beams[upto - 1].len() * weight(root, upto - 1)
    }
}

/// A state with turns left weighs one more than its successors together can.
pub proof fn lemma_weight_step(root: MazeModel, depth: int)
    requires
        0 <= depth < root.turns_left(),
    ensures
        weight(root, depth) == ACTION_COUNT * weight(root, depth + 1) + 1,
{
    if depth + 1 < root.turns_left() {
    } else {
        assert(work(1) == ACTION_COUNT * work(0) + 1);
    }
}

/// What is pending changes with one frontier by the weight of the states
/// that it gains or loses.
pub proof fn lemma_pending_update(
    root: MazeModel,
    beams: Seq<Seq<MazeModel>>,
    upto: nat,
    i: int,
    s: Seq<MazeModel>,
)
    requires
        0 <= i < beams.len(),
        upto <= beams.len(),
    ensures
        pending(root, beams.update(i, s), upto) == pending(root, beams, upto) + if i < upto {
            (s.len() - beams[i].len()) * weight(root, i)
        } else {
            0
        },
    decreases upto,
{
    if upto > 0 {
        lemma_pending_update(root, beams, (upto - 1) as nat, i, s);
        let w = weight(root, upto - 1);
        if i == upto - 1 {
            assert(s.len() * w == beams[i].len() * w + (s.len() - beams[i].len()) * w)
                by (nonlinear_arith);
        } else {
            assert(beams.update(i, s)[upto - 1] == beams[upto - 1]);
        }
    }
}

/// Where something is pending, a frontier above the end of the game holds a
/// state.
pub proof fn lemma_pending_positive(root: MazeModel, beams: Seq<Seq<MazeModel>>, upto: nat) -> (t:
    int)
    requires
        pending(root, beams, upto) > 0,
    ensures
        0 <= t < upto,
        t < root.turns_left(),
        beams[t].len() > 0,
    decreases upto,
{
    let last = beams[upto - 1].len() * weight(root, upto - 1);
    if last > 0 {
        assert(beams[upto - 1].len() > 0 && weight(root, upto - 1) > 0) by (nonlinear_arith)
            requires
                beams[upto - 1].len() * weight(root, upto - 1) > 0,
        ;
        upto - 1
    } else {
        lemma_pending_positive(root, beams, (upto - 1) as nat)
    }
}

/// Where nothing is pending, no frontier above the end of the game holds a
/// state.
pub proof fn lemma_pending_zero(root: MazeModel, beams: Seq<Seq<MazeModel>>, upto: nat)
    requires
        pending(root, beams, upto) == 0,
    ensures
        forall|t: int| 0 <= t < upto && t < root.turns_left() ==> (#[trigger] beams[t]).len() == 0,
    decreases upto,
{
    if upto > 0 {
        let t = upto - 1;
        lemma_pending_zero(root, beams, t as nat);
        if t < root.turns_left() {
            assert(weight(root, t) >= 1);
            assert(beams[t].len() == 0) by (nonlinear_arith)
                requires
                    beams[t].len() * weight(root, t) == 0,
                    weight(root, t) >= 1,
                    beams[t].len() >= 0,
            ;
        }
    }
}

/// At the start of a search the root is all that is pending.
pub proof fn lemma_pending_at_start(root: MazeModel, depth: nat, upto: nat)
    requires
        1 <= upto <= depth + 1,
    ensures
        pending(root, initial_beams(root, depth), upto) == weight(root, 0),
    decreases upto,
{
    let start = initial_beams(root, depth);
    if upto == 1 {
        assert(pending(root, start, 0) == 0);
        assert(start[0].len() == 1);
        assert(1 * weight(root, 0) == weight(root, 0)) by (nonlinear_arith);
    } else {
        lemma_pending_at_start(root, depth, (upto - 1) as nat);
        assert(start[upto - 1].len() == 0);
        assert(0 * weight(root, upto - 1) == 0) by (nonlinear_arith);
    }
}

/// What advancing a depth does to the two frontiers, in numbers: every state
/// that leaves the one brings at most four to the other, and a state leaves
/// whenever one may.
pub proof fn lemma_advance_level_counts(
    root: MazeModel,
    depth: nat,
    now: Seq<MazeModel>,
    next: Seq<MazeModel>,
    n: nat,
)
    requires
        root.wf(),
        all_at_depth(root, depth, now),
    ensures
        advance_level(now, next, n, depth == 0).0.len() <= now.len(),
        advance_level(now, next, n, depth == 0).1.len() >= next.len(),
        advance_level(now, next, n, depth == 0).1.len() - next.len() <= ACTION_COUNT * (now.len()
            - advance_level(now, next, n, depth == 0).0.len()),
        n >= 1 && now.len() >= 1 && !now[0].is_done() ==> advance_level(
            now,
            next,
            n,
            depth == 0,
        ).0.len() < now.len(),
        root.turn + depth >= root.end_turn ==> advance_level(now, next, n, depth == 0) == (
            now,
            next,
        ),
    decreases n,
{
    if n == 0 || now.len() == 0 || now[0].is_done() {
        if now.len() > 0 {
            assert(at_depth(root, depth, now[0]));
        }
    } else {
        assert(at_depth(root, depth, now[0]));
        let kids = children(now[0], depth == 0);
        let rest = now.drop_first();
        lemma_legal_below(now[0], ACTION_COUNT as nat);
        lemma_push_all_len(next, kids);
        assert forall|i: int| 0 <= i < rest.len() implies at_depth(
            root,
            depth,
            #[trigger] rest[i],
        ) by {
            assert(rest[i] == now[i + 1]);
        }
        lemma_advance_level_counts(root, depth, rest, push_all(next, kids), (n - 1) as nat);
    }
}

/// A round, whole or in part, never adds to what is pending, leaves the
/// frontiers that it has not advanced yet at least as long as they were, and
/// takes from what is pending as soon as it advances a frontier that held a
/// state with turns left.
pub proof fn lemma_sweep_pending(
    root: MazeModel,
    depth: nat,
    beams: Seq<Seq<MazeModel>>,
    levels: nat,
    width: nat,
)
    requires
        root.wf(),
        levels_ok(root, beams),
        beams.len() == depth + 1,
        levels <= depth,
        width >= 1,
    ensures
        pending(root, sweep(beams, levels, width), depth + 1) <= pending(root, beams, depth + 1),
        forall|u: int|
            levels <= u <= depth ==> (#[trigger] sweep(beams, levels, width)[u]).len()
                >= beams[u].len(),
        forall|t: int|
            0 <= t < levels && t < root.turns_left() && (#[trigger] beams[t]).len() > 0 ==> pending(
                root,
                sweep(beams, levels, width),
                depth + 1,
            ) < pending(root, beams, depth + 1),
    decreases levels,
{
    if levels > 0 {
        let t: int = levels - 1;
        lemma_sweep_pending(root, depth, beams, t as nat, width);
        lemma_sweep_levels_ok(root, beams, t as nat, width);
        let before = sweep(beams, t as nat, width);
        let now = before[t];
        let next = before[t + 1];
        let (a, b) = advance_level(now, next, width, t == 0);
        let mid = before.update(t, a);
        let after = mid.update(t + 1, b);
        assert(after == sweep(beams, levels, width));
        assert(all_at_depth(root, t as nat, now));
        lemma_advance_level_counts(root, t as nat, now, next, width);
        lemma_pending_update(root, before, depth + 1, t, a);
        lemma_pending_update(root, mid, depth + 1, t + 1, b);
        assert(mid[t + 1] == next);
        let k: int = now.len() - a.len();
        let m: int = b.len() - next.len();
        let drop: int = (a.len() - now.len()) * weight(root, t) + m * weight(root, t + 1);
        assert(pending(root, after, depth + 1) == pending(root, before, depth + 1) + drop);
        if t < root.turns_left() {
            lemma_weight_step(root, t);
            assert(drop <= -k) by (nonlinear_arith)
                requires
                    drop == (a.len() - now.len()) * weight(root, t) + m * weight(root, t + 1),
                    k == now.len() - a.len(),
                    0 <= m <= ACTION_COUNT * k,
                    k >= 0,
                    weight(root, t) == ACTION_COUNT * weight(root, t + 1) + 1,
            ;
        } else {
            assert(k == 0 && m == 0);
            assert(drop == 0) by (nonlinear_arith)
                requires
                    drop == (a.len() - now.len()) * weight(root, t) + m * weight(root, t + 1),
                    a.len() - now.len() == 0,
                    m == 0,
            ;
        }
        assert forall|u: int| levels <= u <= depth implies (#[trigger] after[u]).len()
            >= beams[u].len() by {
            if u > t + 1 {
                assert(after[u] == before[u]);
            }
        }
        assert forall|t0: int|
            0 <= t0 < levels && t0 < root.turns_left() && (#[trigger] beams[t0]).len()
                > 0 implies pending(root, after, depth + 1) < pending(root, beams, depth + 1) by {
            if t0 == t {
                assert(before[t].len() >= beams[t].len());
                assert(at_depth(root, t as nat, now[0]));
                assert(!now[0].is_done());
                assert(k >= 1);
            }
        }
    }
}

/// Round by round, what is pending goes down until nothing is.
pub proof fn lemma_rounds_pending(root: MazeModel, depth: nat, width: nat, rounds: nat)
    requires
        root.wf(),
        width >= 1,
        depth >= root.turns_left(),
    ensures
        pending(root, chokudai_rounds(initial_beams(root, depth), width, rounds), depth + 1) == 0
            || pending(root, chokudai_rounds(initial_beams(root, depth), width, rounds), depth + 1)
            + rounds <= weight(root, 0),
    decreases rounds,
{
    let start = initial_beams(root, depth);
    if rounds == 0 {
        lemma_pending_at_start(root, depth, depth + 1);
    } else {
        let before = chokudai_rounds(start, width, (rounds - 1) as nat);
        lemma_rounds_pending(root, depth, width, (rounds - 1) as nat);
        lemma_rounds_levels_ok(root, depth, width, (rounds - 1) as nat);
        lemma_sweep_pending(root, depth, before, depth, width);
        assert(chokudai_rounds(start, width, rounds) == sweep(before, depth, width));
        if pending(root, before, depth + 1) > 0 {
            let t = lemma_pending_positive(root, before, depth + 1);
            assert(before[t].len() > 0);
        }
    }
}

/// After as many rounds as the root weighs, no frontier above the end of the
/// game holds a state: every state with turns left has been expanded.
pub proof fn lemma_rounds_drain(root: MazeModel, depth: nat, width: nat, rounds: nat)
    requires
        root.wf(),
        width >= 1,
        depth >= root.turns_left(),
        rounds >= work(root.turns_left()),
    ensures
        forall|t: int|
            0 <= t < root.turns_left() ==> (#[trigger] chokudai_rounds(
                initial_beams(root, depth),
                width,
                rounds,
            )[t]).len() == 0,
{
    lemma_rounds_pending(root, depth, width, rounds);
    lemma_pending_zero(
        root,
        chokudai_rounds(initial_beams(root, depth), width, rounds),
        depth + 1,
    );
}

/// No state of the frontier leads to more than its root move does.
pub open spec fn within_moves(root: MazeModel, depth: nat, f: Seq<MazeModel>) -> bool {
    forall|i: int|
        0 <= i < f.len() ==> outcome_through(root, depth, #[trigger] f[i]) <= outcome_of_move(
            root,
            f[i].first_action->0 as int,
        )
}

/// A state of the frontier leads to `value` or more.
pub open spec fn reaches(root: MazeModel, depth: nat, f: Seq<MazeModel>, value: int) -> bool {
    exists|i: int| 0 <= i < f.len() && outcome_through(root, depth, #[trigger] f[i]) >= value
}

/// What holds of the frontiers of a search all along: each is ranked, below
/// the root no state leads to more than its root move does, and on one of
/// them a state leads to as much as any game can collect.
pub open spec fn on_track(root: MazeModel, beams: Seq<Seq<MazeModel>>) -> bool {
    &&& forall|t: int| 0 <= t < beams.len() ==> ranked(#[trigger] beams[t])
    &&& forall|t: int| 1 <= t < beams.len() ==> within_moves(root, t as nat, #[trigger] beams[t])
    &&& exists|t: int|
        0 <= t < beams.len() && reaches(
            root,
            t as nat,
            #[trigger] beams[t],
            best_outcome(root, root.turns_left()),
        )
}

/// Pushing the successors of a state keeps a frontier within its moves, and
/// puts on it a state that leads to as much as their parent.
pub proof fn lemma_push_children_outcomes(
    root: MazeModel,
    depth: nat,
    p: MazeModel,
    next: Seq<MazeModel>,
    value: int,
)
    requires
        root.wf(),
        root.turn + depth < root.end_turn,
        at_depth(root, depth, p),
        depth >= 1 ==> outcome_through(root, depth, p) <= outcome_of_move(
            root,
            p.first_action->0 as int,
        ),
        within_moves(root, depth + 1, next),
    ensures
        within_moves(root, depth + 1, push_all(next, children(p, depth == 0))),
        reaches(root, depth + 1, next, value) || outcome_through(root, depth, p) >= value
            ==> reaches(root, depth + 1, push_all(next, children(p, depth == 0)), value),
{
    let kids = children(p, depth == 0);
    let pushed = push_all(next, kids);
    assert forall|i: int| 0 <= i < pushed.len() implies outcome_through(
        root,
        depth + 1,
        #[trigger] pushed[i],
    ) <= outcome_of_move(root, pushed[i].first_action->0 as int) by {
        let y = pushed[i];
        lemma_push_all_members(next, kids, y);
        assert(pushed.contains(y));
        if next.contains(y) {
            let k = choose|k: int| 0 <= k < next.len() && next[k] == y;
        } else {
            let j = choose|j: int| 0 <= j < kids.len() && kids[j] == y;
            lemma_child_outcome(root, depth, p, j);
        }
    }
    if reaches(root, depth + 1, next, value) {
        let k = choose|k: int|
            0 <= k < next.len() && outcome_through(root, depth + 1, #[trigger] next[k]) >= value;
        lemma_push_all_members(next, kids, next[k]);
        assert(next.contains(next[k]));
        let i = choose|i: int| 0 <= i < pushed.len() && pushed[i] == next[k];
        assert(outcome_through(root, depth + 1, pushed[i]) >= value);
    } else if outcome_through(root, depth, p) >= value {
        let j = lemma_best_child(root, depth, p);
        lemma_push_all_members(next, kids, kids[j]);
        assert(kids.contains(kids[j]));
        let i = choose|i: int| 0 <= i < pushed.len() && pushed[i] == kids[j];
        assert(outcome_through(root, depth + 1, pushed[i]) >= value);
    }
}

/// Advancing a depth keeps both frontiers ranked and within their moves, and
/// a state that leads to `value` stays on one of the two or hands the lead
/// on to a successor.
pub proof fn lemma_advance_level_outcomes(
    root: MazeModel,
    depth: nat,
    now: Seq<MazeModel>,
    next: Seq<MazeModel>,
    n: nat,
    value: int,
)
    requires
        root.wf(),
        all_at_depth(root, depth, now),
        all_at_depth(root, depth + 1, next),
        ranked(now),
        ranked(next),
        depth >= 1 ==> within_moves(root, depth, now),
        within_moves(root, depth + 1, next),
    ensures
        ranked(advance_level(now, next, n, depth == 0).0),
        ranked(advance_level(now, next, n, depth == 0).1),
        depth >= 1 ==> within_moves(root, depth, advance_level(now, next, n, depth == 0).0),
        within_moves(root, depth + 1, advance_level(now, next, n, depth == 0).1),
        reaches(root, depth + 1, next, value) ==> reaches(
            root,
            depth + 1,
            advance_level(now, next, n, depth == 0).1,
            value,
        ),
        reaches(root, depth, now, value) ==> reaches(
            root,
            depth,
            advance_level(now, next, n, depth == 0).0,
            value,
        ) || reaches(root, depth + 1, advance_level(now, next, n, depth == 0).1, value),
    decreases n,
{
    if n == 0 || now.len() == 0 || now[0].is_done() {
    } else {
        let p = now[0];
        let rest = now.drop_first();
        let kids = children(p, depth == 0);
        let pushed = push_all(next, kids);
        assert(at_depth(root, depth, p));
        assert forall|i: int| 0 <= i < rest.len() implies at_depth(
            root,
            depth,
            #[trigger] rest[i],
        ) by {
            assert(rest[i] == now[i + 1]);
        }
        assert(ranked(rest)) by {
            assert forall|i: int, j: int| 0 <= i < j < rest.len() implies (
            #[trigger] rest[i]).evaluated_score >= (#[trigger] rest[j]).evaluated_score by {
                assert(rest[i] == now[i + 1] && rest[j] == now[j + 1]);
            }
        }
        if depth >= 1 {
            assert forall|i: int| 0 <= i < rest.len() implies outcome_through(
                root,
                depth,
                #[trigger] rest[i],
            ) <= outcome_of_move(root, rest[i].first_action->0 as int) by {
                assert(rest[i] == now[i + 1]);
            }
        }
        lemma_children_at_depth(root, depth, p);
        lemma_push_all_at_depth(root, depth + 1, next, kids);
        lemma_push_all_ranked(next, kids);
        lemma_push_children_outcomes(root, depth, p, next, value);
        lemma_advance_level_outcomes(root, depth, rest, pushed, (n - 1) as nat, value);
        if reaches(root, depth, now, value) {
            let i = choose|i: int|
                0 <= i < now.len() && outcome_through(root, depth, #[trigger] now[i]) >= value;
            if i > 0 {
                assert(rest[i - 1] == now[i]);
                assert(reaches(root, depth, rest, value));
            }
        }
    }
}

/// A round, whole or in part, keeps a search on track.
pub proof fn lemma_sweep_on_track(
    root: MazeModel,
    depth: nat,
    beams: Seq<Seq<MazeModel>>,
    levels: nat,
    width: nat,
)
    requires
        root.wf(),
        levels_ok(root, beams),
        beams.len() == depth + 1,
        levels <= depth,
        on_track(root, beams),
    ensures
        on_track(root, sweep(beams, levels, width)),
    decreases levels,
{
    if levels > 0 {
        let t: int = levels - 1;
        let best = best_outcome(root, root.turns_left());
        lemma_sweep_on_track(root, depth, beams, t as nat, width);
        lemma_sweep_levels_ok(root, beams, t as nat, width);
        let before = sweep(beams, t as nat, width);
        let now = before[t];
        let next = before[t + 1];
        let (a, b) = advance_level(now, next, width, t == 0);
        let after = before.update(t, a).update(t + 1, b);
        assert(after == sweep(beams, levels, width));
        assert(all_at_depth(root, t as nat, now));
        assert(all_at_depth(root, (t + 1) as nat, next));
        assert(ranked(now) && ranked(next));
        assert(within_moves(root, (t + 1) as nat, next));
        if t >= 1 {
            assert(within_moves(root, t as nat, now));
        }
        lemma_advance_level_outcomes(root, t as nat, now, next, width, best);
        assert forall|u: int| 0 <= u < after.len() implies ranked(#[trigger] after[u]) by {
            if u != t && u != t + 1 {
                assert(after[u] == before[u]);
            }
        }
        assert forall|u: int| 1 <= u < after.len() implies within_moves(
            root,
            u as nat,
            #[trigger] after[u],
        ) by {
            if u != t && u != t + 1 {
                assert(after[u] == before[u]);
            }
        }
        let u = choose|u: int|
            0 <= u < before.len() && reaches(root, u as nat, #[trigger] before[u], best);
        if u == t {
            if reaches(root, t as nat, a, best) {
                assert(after[t] == a);
            } else {
                assert(after[t + 1] == b);
                assert(reaches(root, (t + 1) as nat, after[t + 1], best));
            }
        } else if u == t + 1 {
            assert(after[t + 1] == b);
            assert(reaches(root, (t + 1) as nat, after[t + 1], best));
        } else {
            assert(after[u] == before[u]);
            assert(reaches(root, u as nat, after[u], best));
        }
    }
}

/// A search is on track from its start and stays so round after round.
pub proof fn lemma_rounds_on_track(root: MazeModel, depth: nat, width: nat, rounds: nat)
    requires
        root.wf(),
    ensures
        on_track(root, chokudai_rounds(initial_beams(root, depth), width, rounds)),
    decreases rounds,
{
    let start = initial_beams(root, depth);
    if rounds == 0 {
        assert(start[0][0] == root);
        assert(outcome_through(root, 0, start[0][0]) == best_outcome(root, root.turns_left()));
        assert(reaches(root, 0, start[0], best_outcome(root, root.turns_left())));
    } else {
        let before = chokudai_rounds(start, width, (rounds - 1) as nat);
        lemma_rounds_on_track(root, depth, width, (rounds - 1) as nat);
        lemma_rounds_levels_ok(root, depth, width, (rounds - 1) as nat);
        lemma_sweep_on_track(root, depth, before, depth, width);
    }
}

/// The search rests its choice on the best state of a frontier below the
/// root that holds a state, when the deeper ones hold none.
pub proof fn lemma_deepest_at(beams: Seq<Seq<MazeModel>>, upto: nat, d: int)
    requires
        1 <= d < upto <= beams.len(),
        beams[d].len() > 0,
        forall|u: int| d < u < upto ==> (#[trigger] beams[u]).len() == 0,
    ensures
        deepest_best(beams, upto) == Some(beams[d][0]),
    decreases upto,
{
    if upto - 1 > d {
        assert(beams[upto - 1].len() == 0);
        lemma_deepest_at(beams, (upto - 1) as nat, d);
    }
}

/// Chokudai search that reaches to the end of the game, given as many
/// rounds as the root weighs, chooses the first move of a best game: a game
/// that begins with the move it chooses can collect as much as any game.
pub proof fn law_patient_chokudai_finds_a_best_game(
    root: MazeModel,
    width: nat,
    depth: nat,
    rounds: nat,
)
    requires
        root.wf(),
        !root.is_done(),
        width >= 1,
        depth >= root.turns_left(),
        rounds >= work(root.turns_left()),
    ensures
        root.legal(chokudai_choice(root, width, depth, rounds) as int),
        outcome_of_move(root, chokudai_choice(root, width, depth, rounds) as int) == best_outcome(
            root,
            root.turns_left(),
        ),
{
    let left = root.turns_left() as int;
    let beams = chokudai_rounds(initial_beams(root, depth), width, rounds);
    let best = best_outcome(root, root.turns_left());
    lemma_rounds_levels_ok(root, depth, width, rounds);
    lemma_rounds_on_track(root, depth, width, rounds);
    lemma_rounds_drain(root, depth, width, rounds);
    lemma_legal_actions_nonempty(root);
    law_exhaustive_choice_is_best(root);
    let u = choose|u: int|
        0 <= u < beams.len() && reaches(root, u as nat, #[trigger] beams[u], best);
    let i = choose|i: int|
        0 <= i < beams[u].len() && outcome_through(root, u as nat, #[trigger] beams[u][i]) >= best;
    assert(u >= left) by {
        if u < left {
            assert(beams[u].len() == 0);
        }
    }
    assert(all_at_depth(root, u as nat, beams[u]));
    assert(at_depth(root, u as nat, beams[u][i]));
    assert(u == left);
    let level = beams[left];
    let top = level[0];
    assert(at_depth(root, left as nat, top));
    assert forall|v: int| left < v < depth + 1 implies (#[trigger] beams[v]).len() == 0 by {
        if beams[v].len() > 0 {
            assert(all_at_depth(root, v as nat, beams[v]));
            assert(at_depth(root, v as nat, beams[v][0]));
        }
    }
    lemma_deepest_at(beams, depth + 1, left);
    assert(chokudai_reported(root, width, depth, rounds) == Some(top));
    let tag = top.first_action->0;
    assert(chokudai_choice(root, width, depth, rounds) == tag);
    let k = choose|k: int| 0 <= k < root.legal_actions().len() && root.legal_actions()[k] == tag;
    assert(root.legal(tag as int));
    assert(ranked(level));
    if i > 0 {
        assert(level[0].evaluated_score >= level[i].evaluated_score);
    }
    assert(outcome_through(root, left as nat, level[i]) == level[i].evaluated_score);
    assert(outcome_through(root, left as nat, top) == top.evaluated_score);
    assert(within_moves(root, left as nat, level));
    assert(outcome_through(root, left as nat, top) <= outcome_of_move(root, tag as int));
}

/// Chokudai search that reaches to the end of the game, given as many
/// rounds as the root weighs, never chooses a worse move than beam search
/// does, whatever the width of the beam and whenever its clock expires.
pub proof fn law_patient_chokudai_is_no_worse_than_beam(
    root: MazeModel,
    width: nat,
    depth: nat,
    rounds: nat,
    beam_width: nat,
    budget: nat,
)
    requires
        root.wf(),
        !root.is_done(),
        width >= 1,
        depth >= root.turns_left(),
        rounds >= work(root.turns_left()),
    ensures
        outcome_of_move(root, beam_choice(root, beam_width, budget) as int) <= outcome_of_move(
            root,
            chokudai_choice(root, width, depth, rounds) as int,
        ),
{
    law_patient_chokudai_finds_a_best_game(root, width, depth, rounds);
    law_exhaustive_choice_is_best(root);
    lemma_beam_choice_legal(root, beam_width, budget);
    lemma_legal_actions_nonempty(root);
    let choice = beam_choice(root, beam_width, budget);
    let k = choose|k: int| 0 <= k < root.legal_actions().len() && root.legal_actions()[k] == choice;
    assert(root.legal(choice as int));
}

} // verus!
