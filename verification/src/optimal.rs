//! What the search of the whole game tree is good for: the move it chooses
//! is the first move of a game that collects as much as any game can.

use crate::beam::beam_choice;
use crate::beam::expand;
use crate::exhaustive::exhaustive_choice;
use crate::exhaustive::full_level;
use crate::exhaustive::law_wide_beam_is_exhaustive;
use crate::exhaustive::lemma_full_level;
use crate::exhaustive::level_bound;
use crate::expand::at_depth;
use crate::expand::children;
use crate::frontier::lemma_push_all_members;
use crate::frontier::lemma_push_all_ranked;
use crate::frontier::push_all;
use crate::frontier::ranked;
use crate::maze::ACTION_COUNT;
use crate::maze::lemma_legal_actions_nonempty;
use crate::maze::lemma_legal_below;
use crate::maze::MazeModel;
use vstd::prelude::*;

verus! {

/// The most that a game can have collected `turns` moves on from `s`, were
/// only the directions below `n` open to its first move; the score of `s`
/// itself where no move is open.
pub open spec fn best_after(s: MazeModel, turns: nat, n: nat) -> int
    decreases turns, n,
{
    if turns == 0 || n == 0 {
        s.game_score
    } else {
        let rest = best_after(s, turns, (n - 1) as nat);
        if s.legal(n - 1) {
            let via = best_after(s.advance(n - 1), (turns - 1) as nat, ACTION_COUNT as nat);
            if via > rest {
                via
            } else {
                rest
            }
        } else {
            rest
        }
    }
}

/// The most that a game can have collected `turns` moves on from `s`.
pub open spec fn best_outcome(s: MazeModel, turns: nat) -> int {
    best_after(s, turns, ACTION_COUNT as nat)
}

/// Two states that differ at most in what a search notes on them: the
/// ranking score and the tag.
pub open spec fn same_position(s: MazeModel, t: MazeModel) -> bool {
    &&& s.height == t.height
    &&& s.width == t.width
    &&& s.end_turn == t.end_turn
    &&& s.character == t.character
    &&& s.points == t.points
    &&& s.turn == t.turn
    &&& s.game_score == t.game_score
}

/// What a game can collect does not depend on what a search notes on its
/// states.
pub proof fn lemma_outcome_of_position(s: MazeModel, t: MazeModel, turns: nat, n: nat)
    requires
        same_position(s, t),
    ensures
        best_after(s, turns, n) == best_after(t, turns, n),
    decreases turns, n,
{
    if turns == 0 || n == 0 {
    } else {
        lemma_outcome_of_position(s, t, turns, (n - 1) as nat);
        if s.legal(n - 1) {
            lemma_outcome_of_position(
                s.advance(n - 1),
                t.advance(n - 1),
                (turns - 1) as nat,
                ACTION_COUNT as nat,
            );
        }
    }
}

/// No first move among those counted leads to more than the best, the best
/// is at least the score so far, and it is the score so far or what one of
/// those moves leads to.
pub proof fn lemma_best_after(s: MazeModel, turns: nat, n: nat)
    requires
        turns > 0,
    ensures
        best_after(s, turns, n) >= s.game_score,
        forall|a: int|
            0 <= a < n && s.legal(a) ==> best_outcome(#[trigger] s.advance(a), (turns - 1) as nat)
                <= best_after(s, turns, n),
        best_after(s, turns, n) == s.game_score || exists|a: int|
            0 <= a < n && s.legal(a) && best_outcome(#[trigger] s.advance(a), (turns - 1) as nat)
                == best_after(s, turns, n),
    decreases n,
{
    if n > 0 {
        lemma_best_after(s, turns, (n - 1) as nat);
        let rest = best_after(s, turns, (n - 1) as nat);
        if s.legal(n - 1) {
            let via = best_outcome(s.advance(n - 1), (turns - 1) as nat);
            if via > rest {
            } else if rest != s.game_score {
                let a = choose|a: int|
                    0 <= a < n - 1 && s.legal(a) && best_outcome(
                        #[trigger] s.advance(a),
                        (turns - 1) as nat,
                    ) == rest;
                assert(0 <= a < n && s.legal(a));
            }
        } else if rest != s.game_score {
            let a = choose|a: int|
                0 <= a < n - 1 && s.legal(a) && best_outcome(
                    #[trigger] s.advance(a),
                    (turns - 1) as nat,
                ) == rest;
            assert(0 <= a < n && s.legal(a));
        }
    }
}

/// A game never has less than it had.
pub proof fn lemma_outcome_at_least_score(s: MazeModel, turns: nat)
    ensures
        best_outcome(s, turns) >= s.game_score,
{
    if turns > 0 {
        lemma_best_after(s, turns, ACTION_COUNT as nat);
    }
}

/// The best outcome is the outcome of the best first move: no legal move
/// leads to more, and one leads to as much.
pub proof fn lemma_best_outcome(s: MazeModel, turns: nat)
    requires
        s.wf(),
        turns > 0,
    ensures
        forall|a: int|
            s.legal(a) ==> best_outcome(#[trigger] s.advance(a), (turns - 1) as nat)
                <= best_outcome(s, turns),
        exists|a: int|
            s.legal(a) && best_outcome(#[trigger] s.advance(a), (turns - 1) as nat)
                == best_outcome(s, turns),
{
    lemma_best_after(s, turns, ACTION_COUNT as nat);
    if best_outcome(s, turns) == s.game_score {
        lemma_legal_actions_nonempty(s);
        let a = s.legal_actions()[0] as int;
        assert(s.legal(a));
        lemma_outcome_at_least_score(s.advance(a), (turns - 1) as nat);
        assert(best_outcome(s.advance(a), (turns - 1) as nat) == best_outcome(s, turns));
    }
}

/// A round that expands its whole frontier brings forth the successors of
/// every state of the frontier, and nothing else.
pub proof fn lemma_expand_members(
    now: Seq<MazeModel>,
    next: Seq<MazeModel>,
    at_root: bool,
    y: MazeModel,
)
    ensures
        expand(now, next, now.len(), at_root).contains(y) <==> next.contains(y) || exists|i: int|
            0 <= i < now.len() && (#[trigger] children(now[i], at_root)).contains(y),
    decreases now.len(),
{
    if now.len() > 0 {
        let rest = now.drop_first();
        let pushed = push_all(next, children(now[0], at_root));
        lemma_push_all_members(next, children(now[0], at_root), y);
        lemma_expand_members(rest, pushed, at_root, y);
        if exists|i: int| 0 <= i < rest.len() && (#[trigger] children(rest[i], at_root)).contains(y) {
            let i = choose|i: int|
                0 <= i < rest.len() && (#[trigger] children(rest[i], at_root)).contains(y);
            assert(rest[i] == now[i + 1]);
            assert(children(now[i + 1], at_root).contains(y));
        }
        if exists|i: int| 0 <= i < now.len() && (#[trigger] children(now[i], at_root)).contains(y) {
            let i = choose|i: int|
                0 <= i < now.len() && (#[trigger] children(now[i], at_root)).contains(y);
            if i > 0 {
                assert(rest[i - 1] == now[i]);
                assert(children(rest[i - 1], at_root).contains(y));
            }
        }
    }
}

/// A round keeps a ranked frontier ranked.
pub proof fn lemma_expand_ranked(now: Seq<MazeModel>, next: Seq<MazeModel>, n: nat, at_root: bool)
    requires
        ranked(next),
    ensures
        ranked(expand(now, next, n, at_root)),
    decreases n,
{
    if n == 0 || now.len() == 0 {
    } else {
        lemma_push_all_ranked(next, children(now[0], at_root));
        lemma_expand_ranked(
            now.drop_first(),
            push_all(next, children(now[0], at_root)),
            (n - 1) as nat,
            at_root,
        );
    }
}

/// What a game through `x`, a state `depth` moves below the root, can have
/// collected at its end.
pub open spec fn outcome_through(root: MazeModel, depth: nat, x: MazeModel) -> int {
    best_outcome(x, (root.turns_left() - depth) as nat)
}

/// What a game that begins with the move `action` can have collected at its
/// end.
pub open spec fn outcome_of_move(root: MazeModel, action: int) -> int {
    best_outcome(root.advance(action), (root.turns_left() - 1) as nat)
}

/// A successor leads to no more than its root move does: the successor of
/// the root to as much, the successor of a deeper state to no more than the
/// state itself.
pub proof fn lemma_child_outcome(root: MazeModel, depth: nat, p: MazeModel, j: int)
    requires
        root.wf(),
        root.turn + depth < root.end_turn,
        at_depth(root, depth, p),
        0 <= j < children(p, depth == 0).len(),
        depth >= 1 ==> outcome_through(root, depth, p) <= outcome_of_move(
            root,
            p.first_action->0 as int,
        ),
    ensures
        outcome_through(root, depth + 1, children(p, depth == 0)[j]) <= outcome_of_move(
            root,
            children(p, depth == 0)[j].first_action->0 as int,
        ),
{
    let left = root.turns_left();
    let a = p.legal_actions()[j];
    let x = children(p, depth == 0)[j];
    lemma_legal_actions_nonempty(p);
    assert(p.legal(a as int));
    assert(x == p.child(a, depth == 0));
    lemma_outcome_of_position(
        x,
        p.advance(a as int),
        (left - depth - 1) as nat,
        ACTION_COUNT as nat,
    );
    if depth == 0 {
        assert(x.first_action == Some(a));
    } else {
        lemma_best_outcome(p, (left - depth) as nat);
        assert(x.first_action == p.first_action);
    }
}

/// One successor of a state with turns left leads to as much as the state
/// itself.
pub proof fn lemma_best_child(root: MazeModel, depth: nat, p: MazeModel) -> (j: int)
    requires
        root.wf(),
        root.turn + depth < root.end_turn,
        at_depth(root, depth, p),
    ensures
        0 <= j < children(p, depth == 0).len(),
        outcome_through(root, depth + 1, children(p, depth == 0)[j]) == outcome_through(
            root,
            depth,
            p,
        ),
{
    let left = root.turns_left();
    lemma_best_outcome(p, (left - depth) as nat);
    let a = choose|a: int|
        p.legal(a) && best_outcome(#[trigger] p.advance(a), (left - depth - 1) as nat)
            == best_outcome(p, (left - depth) as nat);
    lemma_legal_below(p, ACTION_COUNT as nat);
    assert(p.legal_actions().contains(a as usize));
    let j = choose|j: int| 0 <= j < p.legal_actions().len() && p.legal_actions()[j] == a as usize;
    let x = p.child(a as usize, depth == 0);
    assert(children(p, depth == 0)[j] == x);
    lemma_outcome_of_position(x, p.advance(a), (left - depth - 1) as nat, ACTION_COUNT as nat);
    j
}

/// At every level of the unpruned search, no state leads to more than its
/// root move does, and one state leads to as much as any game can collect.
pub proof fn lemma_full_level_outcomes(root: MazeModel, depth: nat)
    requires
        root.wf(),
        root.turn + depth <= root.end_turn,
    ensures
        ranked(full_level(root, depth)),
        depth >= 1 ==> forall|i: int|
            0 <= i < full_level(root, depth).len() ==> outcome_through(
                root,
                depth,
                #[trigger] full_level(root, depth)[i],
            ) <= outcome_of_move(root, full_level(root, depth)[i].first_action->0 as int),
        exists|i: int|
            0 <= i < full_level(root, depth).len() && outcome_through(
                root,
                depth,
                #[trigger] full_level(root, depth)[i],
            ) >= best_outcome(root, root.turns_left()),
    decreases depth,
{
    let level = full_level(root, depth);
    let left = root.turns_left();
    if depth == 0 {
        assert(level[0] == root);
        assert(outcome_through(root, 0, level[0]) == best_outcome(root, left));
    } else {
        let d = (depth - 1) as nat;
        let above = full_level(root, d);
        let r = (d == 0);
        lemma_full_level_outcomes(root, d);
        lemma_full_level(root, d);
        lemma_full_level(root, depth);
        lemma_expand_ranked(above, Seq::empty(), above.len(), r);
        assert forall|i: int| 0 <= i < level.len() implies outcome_through(
            root,
            depth,
            #[trigger] level[i],
        ) <= outcome_of_move(root, level[i].first_action->0 as int) by {
            let x = level[i];
            lemma_expand_members(above, Seq::empty(), r, x);
            assert(level.contains(x));
            let k = choose|k: int|
                0 <= k < above.len() && (#[trigger] children(above[k], r)).contains(x);
            assert(at_depth(root, d, above[k]));
            let kids = children(above[k], r);
            let j = choose|j: int| 0 <= j < kids.len() && kids[j] == x;
            lemma_child_outcome(root, d, above[k], j);
        }
        let w = choose|w: int|
            0 <= w < above.len() && outcome_through(root, d, #[trigger] above[w])
                >= best_outcome(root, left);
        assert(at_depth(root, d, above[w]));
        let j = lemma_best_child(root, d, above[w]);
        let x = children(above[w], r)[j];
        assert(children(above[w], r).contains(x));
        lemma_expand_members(above, Seq::empty(), r, x);
        assert(level.contains(x));
        let i = choose|i: int| 0 <= i < level.len() && level[i] == x;
        assert(outcome_through(root, depth, level[i]) >= best_outcome(root, left));
    }
}

/// The search of the whole game tree chooses the first move of a best game:
/// a game that begins with the move it chooses can collect as much as any
/// game, and no first move leads to more.
pub proof fn law_exhaustive_choice_is_best(root: MazeModel)
    requires
        root.wf(),
        !root.is_done(),
    ensures
        root.legal(exhaustive_choice(root) as int),
        outcome_of_move(root, exhaustive_choice(root) as int) == best_outcome(
            root,
            root.turns_left(),
        ),
        forall|a: int|
            root.legal(a) ==> #[trigger] outcome_of_move(root, a) <= best_outcome(
                root,
                root.turns_left(),
            ),
{
    let left = root.turns_left();
    let level = full_level(root, left);
    lemma_full_level(root, left);
    lemma_full_level_outcomes(root, left);
    lemma_best_outcome(root, left);
    lemma_legal_actions_nonempty(root);
    let top = level[0];
    assert(at_depth(root, left, top));
    let tag = top.first_action->0;
    assert(exhaustive_choice(root) == tag);
    let k = choose|k: int| 0 <= k < root.legal_actions().len() && root.legal_actions()[k] == tag;
    assert(root.legal(tag as int));
    let w = choose|w: int|
        0 <= w < level.len() && outcome_through(root, left, #[trigger] level[w]) >= best_outcome(
            root,
            left,
        );
    assert(at_depth(root, left, level[w]));
    assert(outcome_through(root, left, level[w]) == level[w].evaluated_score);
    assert(outcome_through(root, left, top) == top.evaluated_score);
    if w > 0 {
        assert(level[0].evaluated_score >= level[w].evaluated_score);
    }
    assert forall|a: int| root.legal(a) implies #[trigger] outcome_of_move(root, a)
        <= best_outcome(root, left) by {
        assert(best_outcome(root.advance(a), (left - 1) as nat) <= best_outcome(root, left));
    }
}

/// A beam as wide as the game tree can get before its last turn, under a
/// clock that lets it expand `width` states in every turn that is left,
/// chooses the first move of a best game.
pub proof fn law_wide_beam_finds_a_best_game(root: MazeModel, width: nat, budget: nat)
    requires
        root.wf(),
        !root.is_done(),
        width >= level_bound((root.turns_left() - 1) as nat),
        budget >= root.turns_left() * width,
    ensures
        root.legal(beam_choice(root, width, budget) as int),
        outcome_of_move(root, beam_choice(root, width, budget) as int) == best_outcome(
            root,
            root.turns_left(),
        ),
{
    law_wide_beam_is_exhaustive(root, width, budget);
    law_exhaustive_choice_is_best(root);
}

} // verus!
