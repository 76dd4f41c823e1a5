//! Chokudai search: one frontier for every depth, all of them advanced a
//! little in every round, round after round until the clock expires.

use crate::clock::Clock;
use crate::clock::TimeKeeper;
use crate::expand::all_at_depth;
use crate::expand::at_depth;
use crate::expand::children;
use crate::expand::expand_into;
use crate::expand::lemma_children_at_depth;
use crate::expand::lemma_push_all_at_depth;
use crate::expand::or_first_legal;
use crate::expand::report_or_first_legal;
use crate::frontier::Frontier;
use crate::frontier::push_all;
use crate::maze::lemma_legal_actions_nonempty;
use crate::maze::MazeModel;
use crate::maze::MazeState;
use vstd::prelude::*;

verus! {

/// One depth of a round: the best states of `now` are expanded into `next`,
/// up to `n` of them, until `now` is empty or its best state has finished
/// its game. The result is what is left of `now`, and `next` with the
/// successors pushed.
pub open spec fn advance_level(
    now: Seq<MazeModel>,
    next: Seq<MazeModel>,
    n: nat,
    at_root: bool,
) -> (Seq<MazeModel>, Seq<MazeModel>)
    decreases n,
{
    if n == 0 || now.len() == 0 || now[0].is_done() {
        (now, next)
    } else {
        advance_level(
            now.drop_first(),
            push_all(next, children(now[0], at_root)),
            (n - 1) as nat,
            at_root,
        )
    }
}

/// The frontiers after the first `levels` depths of a round have been
/// advanced, the shallowest first.
pub open spec fn sweep(beams: Seq<Seq<MazeModel>>, levels: nat, width: nat) -> Seq<Seq<MazeModel>>
    decreases levels,
{
    if levels == 0 {
        beams
    } else {
        let before = sweep(beams, (levels - 1) as nat, width);
        let t = levels - 1;
        let (now, next) = advance_level(before[t], before[t + 1], width, t == 0);
        before.update(t, now).update(t + 1, next)
    }
}

/// The frontiers after one whole round: every depth but the last is advanced.
pub open spec fn chokudai_round(beams: Seq<Seq<MazeModel>>, width: nat) -> Seq<Seq<MazeModel>> {
    sweep(beams, (beams.len() - 1) as nat, width)
}

/// The frontiers after `rounds` rounds.
pub open spec fn chokudai_rounds(beams: Seq<Seq<MazeModel>>, width: nat, rounds: nat) -> Seq<
    Seq<MazeModel>,
>
    decreases rounds,
{
    if rounds == 0 {
        beams
    } else {
        chokudai_round(chokudai_rounds(beams, width, (rounds - 1) as nat), width)
    }
}

/// The frontiers at the start of a search: the root at depth 0, nothing below.
pub open spec fn initial_beams(root: MazeModel, depth: nat) -> Seq<Seq<MazeModel>> {
    Seq::new(
        depth + 1,
        |t: int|
            if t == 0 {
                seq![root]
            } else {
                Seq::empty()
            },
    )
}

/// The best state of the deepest frontier that holds one, among the
/// frontiers at depths 1 to `upto - 1`; `None` when they are all empty.
pub open spec fn deepest_best(beams: Seq<Seq<MazeModel>>, upto: nat) -> Option<MazeModel>
    decreases upto,
{
    if upto <= 1 {
        None
    } else if beams[upto - 1].len() > 0 {
        Some(beams[upto - 1][0])
    } else {
        deepest_best(beams, (upto - 1) as nat)
    }
}

/// The state on which chokudai search rests its choice after `rounds`
/// rounds: the best of the deepest frontier below the root that holds a state.
pub open spec fn chokudai_reported(root: MazeModel, width: nat, depth: nat, rounds: nat) -> Option<
    MazeModel,
> {
    deepest_best(chokudai_rounds(initial_beams(root, depth), width, rounds), depth + 1)
}

/// The tag of a reported state.
pub open spec fn tag_of(report: Option<MazeModel>) -> Option<usize> {
    match report {
        Some(s) => s.first_action,
        None => None,
    }
}

/// The move that chokudai search chooses at `root` after `rounds` rounds: the
/// root move of the state it rests on, or the first legal move where it has
/// reached no state.
pub open spec fn chokudai_choice(root: MazeModel, width: nat, depth: nat, rounds: nat) -> usize {
    or_first_legal(root, tag_of(chokudai_reported(root, width, depth, rounds)))
}

/// The number of rounds that a search runs under a clock that lets `budget`
/// checks pass: the clock is asked after every round, and no search runs more
/// rounds than a `usize` can count.
pub open spec fn rounds_under(budget: nat) -> nat {
    if budget + 1 <= usize::MAX {
        budget + 1
    } else {
        usize::MAX as nat
    }
}

/// The state that chokudai search rests on under a clock: where the clock's
/// budget is fixed in advance, the state reported after the rounds that it
/// allows; where the machine's time decides, the state reported after the
/// rounds that were run, at least one.
pub open spec fn chokudai_report_outcome(
    root: MazeModel,
    width: nat,
    depth: nat,
    checks_left: Option<nat>,
    best: Option<MazeModel>,
) -> bool {
    match checks_left {
        Some(budget) => best == chokudai_reported(root, width, depth, rounds_under(budget)),
        None => exists|rounds: nat|
            1 <= rounds <= usize::MAX && best == chokudai_reported(root, width, depth, rounds),
    }
}

/// What chokudai search returns under a clock: where the clock's budget is
/// fixed in advance, the choice after the rounds that it allows; where the
/// machine's time decides, the choice after the rounds that were run, at
/// least one.
pub open spec fn chokudai_outcome(
    root: MazeModel,
    width: nat,
    depth: nat,
    checks_left: Option<nat>,
    action: usize,
) -> bool {
    match checks_left {
        Some(budget) => action == chokudai_choice(root, width, depth, rounds_under(budget)),
        None => exists|rounds: nat|
            1 <= rounds <= usize::MAX && action == chokudai_choice(root, width, depth, rounds),
    }
}

/// A state and its model, or neither.
pub open spec fn model_of(best: Option<MazeState>) -> Option<MazeModel> {
    match best {
        Some(s) => Some(s@),
        None => None,
    }
}

/// Every frontier holds states of its own depth below the root.
pub open spec fn levels_ok(root: MazeModel, beams: Seq<Seq<MazeModel>>) -> bool {
    forall|t: int| 0 <= t < beams.len() ==> all_at_depth(root, t as nat, #[trigger] beams[t])
}

/// Advancing one depth keeps both frontiers at their depths.
pub proof fn lemma_advance_level_at_depth(
    root: MazeModel,
    depth: nat,
    now: Seq<MazeModel>,
    next: Seq<MazeModel>,
    n: nat,
)
    requires
        root.wf(),
        all_at_depth(root, depth, now),
        all_at_depth(root, depth + 1, next),
    ensures
        all_at_depth(root, depth, advance_level(now, next, n, depth == 0).0),
        all_at_depth(root, depth + 1, advance_level(now, next, n, depth == 0).1),
    decreases n,
{
    if n == 0 || now.len() == 0 || now[0].is_done() {
    } else {
        let rest = now.drop_first();
        assert forall|i: int| 0 <= i < rest.len() implies at_depth(
            root,
            depth,
            #[trigger] rest[i],
        ) by {
            assert(rest[i] == now[i + 1]);
        }
        assert(at_depth(root, depth, now[0]));
        lemma_children_at_depth(root, depth, now[0]);
        lemma_push_all_at_depth(root, depth + 1, next, children(now[0], depth == 0));
        lemma_advance_level_at_depth(
            root,
            depth,
            rest,
            push_all(next, children(now[0], depth == 0)),
            (n - 1) as nat,
        );
    }
}

/// A round, whole or in part, keeps every frontier at its depth and the
/// number of frontiers as it was.
pub proof fn lemma_sweep_levels_ok(
    root: MazeModel,
    beams: Seq<Seq<MazeModel>>,
    levels: nat,
    width: nat,
)
    requires
        root.wf(),
        levels_ok(root, beams),
        levels < beams.len(),
    ensures
        levels_ok(root, sweep(beams, levels, width)),
        sweep(beams, levels, width).len() == beams.len(),
    decreases levels,
{
    if levels > 0 {
        let before = sweep(beams, (levels - 1) as nat, width);
        lemma_sweep_levels_ok(root, beams, (levels - 1) as nat, width);
        let t = levels - 1;
        assert(all_at_depth(root, t as nat, before[t]));
        assert(all_at_depth(root, (t + 1) as nat, before[t + 1]));
        lemma_advance_level_at_depth(root, t as nat, before[t], before[t + 1], width);
        let after = sweep(beams, levels, width);
        assert forall|u: int| 0 <= u < after.len() implies all_at_depth(
            root,
            u as nat,
            #[trigger] after[u],
        ) by {
            if u != t && u != t + 1 {
                assert(after[u] == before[u]);
            }
        }
    }
}

/// Rounds keep every frontier at its depth.
pub proof fn lemma_rounds_levels_ok(root: MazeModel, depth: nat, width: nat, rounds: nat)
    requires
        root.wf(),
    ensures
        levels_ok(root, chokudai_rounds(initial_beams(root, depth), width, rounds)),
        chokudai_rounds(initial_beams(root, depth), width, rounds).len() == depth + 1,
    decreases rounds,
{
    if rounds > 0 {
        lemma_rounds_levels_ok(root, depth, width, (rounds - 1) as nat);
        let before = chokudai_rounds(initial_beams(root, depth), width, (rounds - 1) as nat);
        lemma_sweep_levels_ok(root, before, depth, width);
    }
}

/// The state found below the root is a state of the game, tagged with a
/// legal move of the root.
pub proof fn lemma_deepest_best_legal(root: MazeModel, beams: Seq<Seq<MazeModel>>, upto: nat)
    requires
        levels_ok(root, beams),
        upto <= beams.len(),
    ensures
        deepest_best(beams, upto) matches Some(s) ==> {
            &&& s.wf()
            &&& s.first_action is Some
            &&& root.legal_actions().contains(s.first_action->0)
        },
    decreases upto,
{
    if upto <= 1 {
    } else if beams[upto - 1].len() > 0 {
        assert(all_at_depth(root, (upto - 1) as nat, beams[upto - 1]));
        assert(at_depth(root, (upto - 1) as nat, beams[upto - 1][0]));
    } else {
        lemma_deepest_best_legal(root, beams, (upto - 1) as nat);
    }
}

/// The state that chokudai search rests on is a state of the game, tagged
/// with a legal move of the root.
pub proof fn lemma_chokudai_reported_legal(root: MazeModel, width: nat, depth: nat, rounds: nat)
    requires
        root.wf(),
    ensures
        chokudai_reported(root, width, depth, rounds) matches Some(s) ==> {
            &&& s.wf()
            &&& s.first_action is Some
            &&& root.legal_actions().contains(s.first_action->0)
        },
{
    lemma_rounds_levels_ok(root, depth, width, rounds);
    let beams = chokudai_rounds(initial_beams(root, depth), width, rounds);
    lemma_deepest_best_legal(root, beams, depth + 1);
}

/// Chokudai search always chooses a legal move of the root: whatever the
/// width and the depth, and after any number of rounds.
pub proof fn lemma_chokudai_choice_legal(root: MazeModel, width: nat, depth: nat, rounds: nat)
    requires
        root.wf(),
    ensures
        root.legal_actions().contains(chokudai_choice(root, width, depth, rounds)),
{
    lemma_legal_actions_nonempty(root);
    lemma_chokudai_reported_legal(root, width, depth, rounds);
    if tag_of(chokudai_reported(root, width, depth, rounds)) is None {
        assert(root.legal_actions()[0] == chokudai_choice(root, width, depth, rounds));
    }
}

/// The frontiers of a search as sequences of states, shallowest first.
pub open spec fn frontier_views(beams: Seq<Frontier>) -> Seq<Seq<MazeModel>> {
    beams.map_values(|f: Frontier| f@)
}

/// True when the frontier holds a state and its best state has turns left.
fn top_is_open(now: &Frontier) -> (open: bool)
    ensures
        open == (now@.len() > 0 && !now@[0].is_done()),
{
    match now.peek() {
        None => false,
        Some(top) => !top.is_done(),
    }
}

/// Advances one depth of a round: expands up to `beam_width` of the best
/// states of `now` into `next`.
fn advance_level_of(
    now: &mut Frontier,
    next: &mut Frontier,
    beam_width: usize,
    at_root: bool,
    Ghost(root): Ghost<MazeModel>,
    Ghost(depth): Ghost<nat>,
)
    requires
        root.wf(),
        at_root == (depth == 0),
        all_at_depth(root, depth, old(now)@),
        all_at_depth(root, depth + 1, old(next)@),
    ensures
        (final(now)@, final(next)@) == advance_level(
            old(now)@,
            old(next)@,
            beam_width as nat,
            at_root,
        ),
{
    let mut i: usize = 0;
    while i < beam_width && top_is_open(now)
        invariant
            root.wf(),
            at_root == (depth == 0),
            i <= beam_width,
            all_at_depth(root, depth, now@),
            all_at_depth(root, depth + 1, next@),
            advance_level(old(now)@, old(next)@, beam_width as nat, at_root) == advance_level(
                now@,
                next@,
                (beam_width - i) as nat,
                at_root,
            ),
        decreases beam_width - i,
    {
        let ghost before = now@;
        let popped = now.pop();
        let now_state = popped.unwrap();
        proof {
            assert(at_depth(root, depth, before[0]));
            assert forall|k: int| 0 <= k < now@.len() implies at_depth(
                root,
                depth,
                #[trigger] now@[k],
            ) by {
                assert(now@[k] == before[k + 1]);
            }
            lemma_children_at_depth(root, depth, now_state@);
            lemma_push_all_at_depth(root, depth + 1, next@, children(now_state@, at_root));
        }
        expand_into(&now_state, at_root, next);
        i = i + 1;
    }
}

/// Runs one round: advances every depth but the last, the shallowest first.
fn run_round(beams: &mut Vec<Frontier>, beam_width: usize, Ghost(root): Ghost<MazeModel>)
    requires
        root.wf(),
        old(beams)@.len() >= 1,
        levels_ok(root, frontier_views(old(beams)@)),
    ensures
        final(beams)@.len() == old(beams)@.len(),
        frontier_views(final(beams)@) == chokudai_round(
            frontier_views(old(beams)@),
            beam_width as nat,
        ),
        levels_ok(root, frontier_views(final(beams)@)),
{
    let ghost start = frontier_views(beams@);
    let ghost width = beam_width as nat;
    let beam_depth: usize = beams.len() - 1;
    let mut t: usize = 0;
    while t < beam_depth
        invariant
            root.wf(),
            width == beam_width as nat,
            start == frontier_views(old(beams)@),
            levels_ok(root, start),
            beams@.len() == beam_depth + 1,
            start.len() == beam_depth + 1,
            t <= beam_depth,
            frontier_views(beams@) == sweep(start, t as nat, width),
        decreases beam_depth - t,
    {
        let ghost before = frontier_views(beams@);
        proof {
            lemma_sweep_levels_ok(root, start, t as nat, width);
            assert(all_at_depth(root, t as nat, before[t as int]));
            assert(all_at_depth(root, (t + 1) as nat, before[t + 1]));
        }
        let mut now = Frontier::new();
        let mut next = Frontier::new();
        core::mem::swap(&mut now, &mut beams[t]);
        core::mem::swap(&mut next, &mut beams[t + 1]);
        assert(now@ == before[t as int]);
        assert(next@ == before[t + 1]);
        advance_level_of(&mut now, &mut next, beam_width, t == 0, Ghost(root), Ghost(t as nat));
        beams.set(t, now);
        beams.set(t + 1, next);
        proof {
            let (now_after, next_after) = advance_level(
                before[t as int],
                before[t + 1],
                width,
                t == 0,
            );
            assert(frontier_views(beams@) =~= before.update(t as int, now_after).update(
                t + 1,
                next_after,
            ));
        }
        t = t + 1;
    }
    proof {
        lemma_sweep_levels_ok(root, start, beam_depth as nat, width);
    }
}

/// The state to report: the best state of the deepest frontier below the
/// root that holds a state.
fn deepest_best_of(beams: &Vec<Frontier>) -> (best: Option<&MazeState>)
    requires
        beams@.len() >= 1,
    ensures
        best matches Some(s) ==> deepest_best(frontier_views(beams@), beams@.len()) == Some(s@),
        best is None ==> deepest_best(frontier_views(beams@), beams@.len()) is None,
{
    let mut t: usize = beams.len();
    while t > 1
        invariant
            1 <= t <= beams@.len(),
            deepest_best(frontier_views(beams@), beams@.len()) == deepest_best(
                frontier_views(beams@),
                t as nat,
            ),
        decreases t,
    {
        match beams[t - 1].peek() {
            Some(best_state) => {
                return Some(best_state);
            },
            None => {},
        }
        t = t - 1;
    }
    None
}

/// Runs chokudai search under the given clock and returns the state on which
/// it rests its choice: the best state of the deepest frontier below the root
/// that holds a state, or `None` where no state was reached.
///
/// The search keeps a frontier for each depth from 0 to `beam_depth`. A round
/// advances each depth in turn by up to `beam_width` expansions; the clock is
/// asked once after every round, so a round is never cut short.
pub fn chokudai_search_best<C: Clock>(
    state: &MazeState,
    beam_width: usize,
    beam_depth: usize,
    clock: &mut C,
) -> (best: Option<MazeState>)
    requires
        state.wf(),
        beam_depth < usize::MAX,
    ensures
        chokudai_report_outcome(
            state@,
            beam_width as nat,
            beam_depth as nat,
            old(clock).checks_left(),
            model_of(best),
        ),
        best matches Some(s) ==> {
            &&& s.wf()
            &&& s@.first_action is Some
            &&& state@.legal_actions().contains(s@.first_action->0)
        },
{
    let ghost root = state@;
    let ghost width = beam_width as nat;
    let ghost start = initial_beams(root, beam_depth as nat);
    let ghost c0 = clock.checks_left();
    let mut beam: Vec<Frontier> = Vec::new();
    let mut first = Frontier::new();
    first.push(state.clone());
    beam.push(first);
    let mut d: usize = 0;
    while d < beam_depth
        invariant
            d <= beam_depth,
            beam@.len() == d + 1,
            beam@[0]@ == seq![root],
            forall|t: int| 1 <= t <= d ==> (#[trigger] beam@[t])@ == Seq::<MazeModel>::empty(),
        decreases beam_depth - d,
    {
        beam.push(Frontier::new());
        d = d + 1;
    }
    proof {
        assert(frontier_views(beam@) =~= start);
        lemma_rounds_levels_ok(root, beam_depth as nat, width, 0);
    }
    let mut rounds: usize = 0;
    let mut over = false;
    while !over
        invariant
            root.wf(),
            root == state@,
            width == beam_width as nat,
            start == initial_beams(root, beam_depth as nat),
            beam@.len() == beam_depth + 1,
            frontier_views(beam@) == chokudai_rounds(start, width, rounds as nat),
            levels_ok(root, frontier_views(beam@)),
            c0 == old(clock).checks_left(),
            !over ==> rounds < usize::MAX,
            !over ==> (c0 matches Some(n) ==> n >= rounds && clock.checks_left() == Some(
                (n - rounds) as nat,
            )),
            over ==> rounds >= 1,
            over ==> (c0 matches Some(n) ==> rounds == rounds_under(n)),
            c0 is None ==> clock.checks_left() is None,
        decreases usize::MAX - rounds + (if over { 0int } else { 1int }),
    {
        run_round(&mut beam, beam_width, Ghost(root));
        rounds = rounds + 1;
        let expired = clock.expired();
        over = expired || rounds == usize::MAX;
    }
    proof {
        lemma_chokudai_reported_legal(root, width, beam_depth as nat, rounds as nat);
    }
    match deepest_best_of(&beam) {
        Some(best_state) => {
            let best = Some(best_state.clone());
            assert(model_of(best) == chokudai_reported(
                root,
                width,
                beam_depth as nat,
                rounds as nat,
            ));
            best
        },
        None => {
            assert(model_of(None) == chokudai_reported(
                root,
                width,
                beam_depth as nat,
                rounds as nat,
            ));
            None
        },
    }
}

/// Chooses the next move by chokudai search under the given clock: the root
/// move of the state that [`chokudai_search_best`] returns, or the first
/// legal move where it returns none.
pub fn chokudai_search_action<C: Clock>(
    state: &MazeState,
    beam_width: usize,
    beam_depth: usize,
    clock: &mut C,
) -> (action: usize)
    requires
        state.wf(),
        beam_depth < usize::MAX,
    ensures
        state@.legal_actions().contains(action),
        chokudai_outcome(
            state@,
            beam_width as nat,
            beam_depth as nat,
            old(clock).checks_left(),
            action,
        ),
{
    let ghost c0 = clock.checks_left();
    let ghost width = beam_width as nat;
    let ghost depth = beam_depth as nat;
    let best = chokudai_search_best(state, beam_width, beam_depth, clock);
    let tag = match best {
        Some(best_state) => best_state.first_action(),
        None => None,
    };
    let action = report_or_first_legal(state, tag);
    proof {
        assert(tag == tag_of(model_of(best)));
        let rounds = match c0 {
            Some(budget) => rounds_under(budget),
            None => choose|rounds: nat|
                1 <= rounds <= usize::MAX && model_of(best) == chokudai_reported(
                    state@,
                    width,
                    depth,
                    rounds,
                ),
        };
        assert(action == chokudai_choice(state@, width, depth, rounds));
        lemma_chokudai_choice_legal(state@, width, depth, rounds);
    }
    action
}

/// Chooses the next move by chokudai search within `time_threshold`
/// milliseconds of wall-clock time.
///
/// Which move comes back depends on how many rounds the time allowed: it is
/// the choice of chokudai search after some number of rounds, at least one.
/// With a threshold of zero the search runs one round.
pub fn chokudai_search_action_wirh_time_threshold(
    state: &MazeState,
    beam_width: usize,
    beam_depth: usize,
    time_threshold: usize,
) -> (action: usize)
    requires
        state.wf(),
        beam_depth < usize::MAX,
    ensures
        state@.legal_actions().contains(action),
        exists|rounds: nat|
            1 <= rounds <= usize::MAX && action == chokudai_choice(
                state@,
                beam_width as nat,
                beam_depth as nat,
                rounds,
            ),
        time_threshold == 0 ==> action == chokudai_choice(
            state@,
            beam_width as nat,
            beam_depth as nat,
            1,
        ),
{
    let mut time_keeper = TimeKeeper::new(time_threshold);
    chokudai_search_action(state, beam_width, beam_depth, &mut time_keeper)
}

/// Under a clock with a counted budget, chokudai search is a function of the
/// root, the width, the depth and the budget: two runs return the same move.
pub proof fn law_chokudai_repeatable(
    root: MazeModel,
    width: nat,
    depth: nat,
    budget: nat,
    first: usize,
    second: usize,
)
    requires
        chokudai_outcome(root, width, depth, Some(budget), first),
        chokudai_outcome(root, width, depth, Some(budget), second),
    ensures
        first == second,
{
}

} // verus!
