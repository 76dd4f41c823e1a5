//! The priority structure of a search: states ranked by evaluated score, best
//! first. Among states of equal score the one that was pushed first comes
//! first, so the order in which a frontier hands out its states is fixed by
//! the order in which they were pushed.

use crate::maze::MazeModel;
use crate::maze::MazeState;
use crate::ordering::ranks_above;
use vstd::prelude::*;

verus! {

/// Best first: no state is ranked above one that comes before it.
pub open spec fn ranked(s: Seq<MazeModel>) -> bool {
    forall|i: int, j: int|
        0 <= i < j < s.len() ==> (#[trigger] s[i]).evaluated_score >= (#[trigger] s[j]).evaluated_score
}

/// The place of a new state of the given score: behind every leading state
/// that scores as much or more.
pub open spec fn rank_of(s: Seq<MazeModel>, score: int) -> nat
    decreases s.len(),
{
    if s.len() == 0 || s[0].evaluated_score < score {
        0
    } else {
        1 + rank_of(s.drop_first(), score)
    }
}

/// The frontier after one push.
pub open spec fn insert_ranked(s: Seq<MazeModel>, x: MazeModel) -> Seq<MazeModel> {
    s.insert(rank_of(s, x.evaluated_score) as int, x)
}

/// The frontier after pushing the states of `xs`, first to last.
pub open spec fn push_all(s: Seq<MazeModel>, xs: Seq<MazeModel>) -> Seq<MazeModel>
    decreases xs.len(),
{
    if xs.len() == 0 {
        s
    } else {
        insert_ranked(push_all(s, xs.drop_last()), xs.last())
    }
}

/// The place of a new state lies within the sequence, behind states that score
/// as much or more and in front of one that scores less.
pub proof fn lemma_rank_of(s: Seq<MazeModel>, score: int)
    ensures
        rank_of(s, score) <= s.len(),
        forall|j: int| 0 <= j < rank_of(s, score) ==> (#[trigger] s[j]).evaluated_score >= score,
        rank_of(s, score) < s.len() ==> s[rank_of(s, score) as int].evaluated_score < score,
    decreases s.len(),
{
    if s.len() == 0 || s[0].evaluated_score < score {
    } else {
        let rest = s.drop_first();
        lemma_rank_of(rest, score);
        assert forall|j: int| 0 <= j < rank_of(s, score) implies (#[trigger] s[j]).evaluated_score
            >= score by {
            if j > 0 {
                assert(s[j] == rest[j - 1]);
            }
        }
        if rank_of(s, score) < s.len() {
            assert(s[rank_of(s, score) as int] == rest[rank_of(rest, score) as int]);
        }
    }
}

/// The place of a new state is the only index with those two properties.
pub proof fn lemma_rank_of_is(s: Seq<MazeModel>, score: int, i: int)
    requires
        0 <= i <= s.len(),
        forall|j: int| 0 <= j < i ==> (#[trigger] s[j]).evaluated_score >= score,
        i < s.len() ==> s[i].evaluated_score < score,
    ensures
        rank_of(s, score) == i,
{
    lemma_rank_of(s, score);
    let r = rank_of(s, score) as int;
    if r < i {
        assert(s[r].evaluated_score >= score);
    } else if i < r {
        assert(s[i].evaluated_score >= score);
    }
}

/// A push into a ranked frontier leaves it ranked.
pub proof fn lemma_insert_keeps_ranked(s: Seq<MazeModel>, x: MazeModel)
    requires
        ranked(s),
    ensures
        ranked(insert_ranked(s, x)),
{
    lemma_rank_of(s, x.evaluated_score);
    let r = rank_of(s, x.evaluated_score) as int;
    let t = insert_ranked(s, x);
    assert forall|i: int, j: int| 0 <= i < j < t.len() implies (#[trigger] t[i]).evaluated_score >= (
    #[trigger] t[j]).evaluated_score by {
        if j < r {
            assert(t[i] == s[i] && t[j] == s[j]);
        } else if j == r {
            assert(t[i] == s[i]);
        } else if i < r {
            assert(t[i] == s[i] && t[j] == s[j - 1]);
        } else if i == r {
            assert(t[j] == s[j - 1]);
            if r < j - 1 {
                assert(s[r].evaluated_score >= s[j - 1].evaluated_score);
            }
        } else {
            assert(t[i] == s[i - 1] && t[j] == s[j - 1]);
        }
    }
}

/// Pushing any number of states into a ranked frontier leaves it ranked, and
/// makes it longer by that number.
pub proof fn lemma_push_all_ranked(s: Seq<MazeModel>, xs: Seq<MazeModel>)
    requires
        ranked(s),
    ensures
        ranked(push_all(s, xs)),
        push_all(s, xs).len() == s.len() + xs.len(),
    decreases xs.len(),
{
    if xs.len() > 0 {
        lemma_push_all_ranked(s, xs.drop_last());
        lemma_rank_of(push_all(s, xs.drop_last()), xs.last().evaluated_score);
        lemma_insert_keeps_ranked(push_all(s, xs.drop_last()), xs.last());
    }
}

/// Pushes make a frontier longer by the number of states pushed.
pub proof fn lemma_push_all_len(f: Seq<MazeModel>, xs: Seq<MazeModel>)
    ensures
        push_all(f, xs).len() == f.len() + xs.len(),
    decreases xs.len(),
{
    if xs.len() > 0 {
        lemma_push_all_len(f, xs.drop_last());
        lemma_rank_of(push_all(f, xs.drop_last()), xs.last().evaluated_score);
    }
}

/// The best state of a frontier after a push: the new state where it scores
/// more than the best so far, else the best so far.
pub proof fn lemma_top_after_insert(f: Seq<MazeModel>, x: MazeModel)
    ensures
        insert_ranked(f, x).len() == f.len() + 1,
        insert_ranked(f, x)[0] == if f.len() == 0 || f[0].evaluated_score < x.evaluated_score {
            x
        } else {
            f[0]
        },
{
    lemma_rank_of(f, x.evaluated_score);
    if f.len() == 0 || f[0].evaluated_score < x.evaluated_score {
    } else {
        assert(rank_of(f, x.evaluated_score) == 1 + rank_of(f.drop_first(), x.evaluated_score));
    }
}

/// Pushes never lower the best state of a frontier that holds one.
pub proof fn lemma_push_all_top(f: Seq<MazeModel>, xs: Seq<MazeModel>)
    requires
        f.len() > 0,
    ensures
        push_all(f, xs).len() > 0,
        push_all(f, xs)[0].evaluated_score >= f[0].evaluated_score,
    decreases xs.len(),
{
    if xs.len() > 0 {
        lemma_push_all_top(f, xs.drop_last());
        lemma_top_after_insert(push_all(f, xs.drop_last()), xs.last());
    }
}

/// After a push a frontier holds what it held, and the state pushed.
pub proof fn lemma_insert_members(f: Seq<MazeModel>, x: MazeModel, y: MazeModel)
    ensures
        insert_ranked(f, x).contains(y) <==> f.contains(y) || y == x,
{
    lemma_rank_of(f, x.evaluated_score);
    let r = rank_of(f, x.evaluated_score) as int;
    let g = insert_ranked(f, x);
    if g.contains(y) {
        let j = choose|j: int| 0 <= j < g.len() && g[j] == y;
        if j < r {
            assert(f[j] == y);
        } else if j > r {
            assert(f[j - 1] == y);
        }
    }
    if f.contains(y) {
        let i = choose|i: int| 0 <= i < f.len() && f[i] == y;
        if i < r {
            assert(g[i] == y);
        } else {
            assert(g[i + 1] == y);
        }
    }
    if y == x {
        assert(g[r] == y);
    }
}

/// After pushes a frontier holds what it held, and the states pushed.
pub proof fn lemma_push_all_members(f: Seq<MazeModel>, xs: Seq<MazeModel>, y: MazeModel)
    ensures
        push_all(f, xs).contains(y) <==> f.contains(y) || xs.contains(y),
    decreases xs.len(),
{
    if xs.len() > 0 {
        let front = xs.drop_last();
        lemma_push_all_members(f, front, y);
        lemma_insert_members(push_all(f, front), xs.last(), y);
        if xs.contains(y) {
            let i = choose|i: int| 0 <= i < xs.len() && xs[i] == y;
            if i < xs.len() - 1 {
                assert(front[i] == y);
            }
        }
        if front.contains(y) {
            let i = choose|i: int| 0 <= i < front.len() && front[i] == y;
            assert(xs[i] == y);
        }
        if y == xs.last() {
            assert(xs[xs.len() - 1] == y);
        }
    }
}

/// A priority structure of game states, best first.
pub struct Frontier {
    items: Vec<MazeState>,
}

impl View for Frontier {
    type V = Seq<MazeModel>;

    /// The states in the order in which `pop` hands them out.
    closed spec fn view(&self) -> Seq<MazeModel> {
        self.items@.map_values(|s: MazeState| s@)
    }
}

impl Frontier {
    /// The states are held best first.
    pub open spec fn wf(&self) -> bool {
        ranked(self@)
    }

    /// An empty frontier.
    pub fn new() -> (frontier: Self)
        ensures
            frontier@ == Seq::<MazeModel>::empty(),
            frontier.wf(),
    {
        let frontier = Frontier { items: Vec::new() };
        assert(frontier@ =~= Seq::<MazeModel>::empty());
        frontier
    }

    /// The number of states held.
    pub fn len(&self) -> (n: usize)
        ensures
            n == self@.len(),
    {
        self.items.len()
    }

    /// True when no state is held.
    pub fn is_empty(&self) -> (empty: bool)
        ensures
            empty == (self@.len() == 0),
    {
        self.items.len() == 0
    }

    /// Adds a state: it goes behind the states that score as much or more.
    pub fn push(&mut self, state: MazeState)
        ensures
            final(self)@ == insert_ranked(old(self)@, state@),
            old(self).wf() ==> final(self).wf(),
    {
        let ghost score = state@.evaluated_score;
        let mut i: usize = 0;
        while i < self.items.len() && !ranks_above(&state, &self.items[i])
            invariant
                i <= self.items.len(),
                self.items == old(self).items,
                score == state@.evaluated_score,
                forall|j: int| 0 <= j < i ==> (#[trigger] self@[j]).evaluated_score >= score,
            decreases self.items.len() - i,
        {
            i = i + 1;
        }
        proof {
            lemma_rank_of_is(self@, score, i as int);
            if self.wf() {
                lemma_insert_keeps_ranked(self@, state@);
            }
        }
        self.items.insert(i, state);
        assert(self@ =~= insert_ranked(old(self)@, state@));
    }

    /// The best state, if any.
    pub fn peek(&self) -> (top: Option<&MazeState>)
        ensures
            self@.len() == 0 ==> top is None,
            self@.len() > 0 ==> top is Some && top->0@ == self@[0],
            self.wf() && self@.len() > 0 ==> forall|i: int|
                0 <= i < self@.len() ==> (#[trigger] self@[i]).evaluated_score
                    <= top->0@.evaluated_score,
    {
        if self.items.len() == 0 {
            None
        } else {
            Some(&self.items[0])
        }
    }

    /// Takes the best state out, if any.
    pub fn pop(&mut self) -> (top: Option<MazeState>)
        ensures
            old(self)@.len() == 0 ==> top is None && final(self)@ == old(self)@,
            old(self)@.len() > 0 ==> {
                &&& top is Some
                &&& top->0@ == old(self)@[0]
                &&& final(self)@ == old(self)@.drop_first()
            },
            old(self).wf() ==> final(self).wf(),
            old(self).wf() && old(self)@.len() > 0 ==> forall|i: int|
                0 <= i < old(self)@.len() ==> (#[trigger] old(self)@[i]).evaluated_score
                    <= top->0@.evaluated_score,
    {
        if self.items.len() == 0 {
            None
        } else {
            let state = self.items.remove(0);
            assert(self@ =~= old(self)@.drop_first());
            Some(state)
        }
    }
}

} // verus!
