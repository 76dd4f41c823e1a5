//! The game that plays itself: several characters walk a board of point cells,
//! each stepping every turn to the neighbouring cell with the most points.
//! What a player chooses is where the characters start.

use crate::maze::ACTION_COUNT;
use crate::maze::Coord;
use crate::maze::dx;
use crate::maze::dy;
use crate::maze::lemma_cell_in_range;
use crate::maze::step_of;
use crate::rng::GameRng;
use crate::text::digit_char;
use crate::text::header;
use crate::text::push_digit;
use crate::text::push_header;
use crate::text::push_mark;
use vstd::prelude::*;

verus! {

/// The largest value of a point cell; 0 is an empty cell.
pub const MAX_GAIN: usize = 9;

/// The game state as a mathematical value.
pub struct AutoMoveModel {
    pub height: nat,
    pub width: nat,
    pub end_turn: nat,
    /// The point cells, row after row.
    pub points: Seq<usize>,
    pub turn: nat,
    /// Row and column of each character.
    pub characters: Seq<(int, int)>,
    /// Points collected so far.
    pub game_score: int,
}

/// Boards, game lengths and numbers of characters that a state can have: a
/// board of at least two cells whose coordinates fit in `i32`, and a game in
/// which the score cannot overflow.
pub open spec fn auto_dims_ok(height: nat, width: nat, end_turn: nat, characters: nat) -> bool {
    &&& 0 < height <= i32::MAX
    &&& 0 < width <= i32::MAX
    &&& height * width >= 2
    &&& height * width <= usize::MAX
    &&& end_turn <= usize::MAX
    &&& characters <= usize::MAX
    &&& MAX_GAIN * (characters * end_turn) <= i64::MAX
    &&& MAX_GAIN * (characters * end_turn) <= usize::MAX
}

impl AutoMoveModel {
    /// Index of a cell in `points`.
    pub open spec fn cell(self, y: int, x: int) -> int {
        y * self.width + x
    }

    pub open spec fn in_board(self, y: int, x: int) -> bool {
        0 <= y < self.height && 0 <= x < self.width
    }

    /// The most that the characters can still collect.
    pub open spec fn yet_to_gain(self) -> int {
        MAX_GAIN * (self.characters.len() * (self.end_turn - self.turn))
    }

    /// The invariant of every state of a game.
    pub open spec fn wf(self) -> bool {
        &&& auto_dims_ok(self.height, self.width, self.end_turn, self.characters.len())
        &&& self.points.len() == self.height * self.width
        &&& forall|i: int| 0 <= i < self.points.len() ==> #[trigger] self.points[i] <= MAX_GAIN
        &&& forall|k: int|
            0 <= k < self.characters.len() ==> self.in_board(
                (#[trigger] self.characters[k]).0,
                self.characters[k].1,
            )
        &&& self.turn <= self.end_turn
        &&& 0 <= self.game_score
        &&& self.game_score + self.yet_to_gain() <= i64::MAX
        &&& self.game_score + self.yet_to_gain() <= usize::MAX
    }

    /// No turns remain.
    pub open spec fn is_done(self) -> bool {
        self.turn == self.end_turn
    }

    /// The state with one character put on a cell.
    pub open spec fn set_character(self, id: int, y: int, x: int) -> AutoMoveModel {
        AutoMoveModel { characters: self.characters.update(id, (y, x)), ..self }
    }

    /// Where a direction leads from a cell.
    pub open spec fn target(at: (int, int), action: int) -> (int, int) {
        (at.0 + dy(action), at.1 + dx(action))
    }

    /// A direction is legal at a cell when it stays on the board.
    pub open spec fn legal(self, at: (int, int), action: int) -> bool {
        &&& 0 <= action < ACTION_COUNT
        &&& self.in_board(Self::target(at, action).0, Self::target(at, action).1)
    }

    /// The points of the cell that a direction leads to.
    pub open spec fn gain(self, at: (int, int), action: int) -> int {
        self.points[self.cell(Self::target(at, action).0, Self::target(at, action).1)] as int
    }

    /// The direction that a character at `at` takes, were only the directions
    /// below `n` open to it: the legal one that leads to the most points; of
    /// several that lead to as many, the first.
    pub open spec fn best_step_below(self, at: (int, int), n: nat) -> Option<int>
        decreases n,
    {
        if n == 0 {
            None
        } else {
            let before = self.best_step_below(at, (n - 1) as nat);
            let action = n - 1;
            if !self.legal(at, action) {
                before
            } else {
                match before {
                    None => Some(action),
                    Some(best) => if self.gain(at, action) > self.gain(at, best) {
                        Some(action)
                    } else {
                        Some(best)
                    },
                }
            }
        }
    }

    /// The direction that a character at `at` takes.
    pub open spec fn best_step(self, at: (int, int)) -> int {
        match self.best_step_below(at, ACTION_COUNT as nat) {
            Some(action) => action,
            None => 0,
        }
    }

    /// The state after one character has stepped.
    pub open spec fn move_player(self, id: int) -> AutoMoveModel {
        let at = self.characters[id];
        self.set_character(
            id,
            Self::target(at, self.best_step(at)).0,
            Self::target(at, self.best_step(at)).1,
        )
    }

    /// The state after the first `n` characters have stepped, one after the
    /// other.
    pub open spec fn move_players(self, n: nat) -> AutoMoveModel
        decreases n,
    {
        if n == 0 {
            self
        } else {
            self.move_players((n - 1) as nat).move_player(n - 1)
        }
    }

    /// The state after one character has collected the points of its cell.
    pub open spec fn collect(self, id: int) -> AutoMoveModel {
        let at = self.cell(self.characters[id].0, self.characters[id].1);
        AutoMoveModel {
            game_score: self.game_score + self.points[at],
            points: self.points.update(at, 0usize),
            ..self
        }
    }

    /// The state after the first `n` characters have collected, one after the
    /// other: of two on one cell the first takes the points.
    pub open spec fn collect_all(self, n: nat) -> AutoMoveModel
        decreases n,
    {
        if n == 0 {
            self
        } else {
            self.collect_all((n - 1) as nat).collect(n - 1)
        }
    }

    /// The state after one turn: every character steps, then every character
    /// collects.
    pub open spec fn advance(self) -> AutoMoveModel {
        let moved = self.move_players(self.characters.len());
        let collected = moved.collect_all(self.characters.len());
        AutoMoveModel { turn: self.turn + 1, ..collected }
    }

    /// The state with the cells under the first `n` characters emptied.
    pub open spec fn clear_under(self, n: nat) -> AutoMoveModel
        decreases n,
    {
        if n == 0 {
            self
        } else {
            let before = self.clear_under((n - 1) as nat);
            let at = self.cell(self.characters[n - 1].0, self.characters[n - 1].1);
            AutoMoveModel { points: before.points.update(at, 0usize), ..before }
        }
    }

    /// The state after `turns` more turns.
    pub open spec fn play(self, turns: nat) -> AutoMoveModel
        decreases turns,
    {
        if turns == 0 {
            self
        } else {
            self.advance().play((turns - 1) as nat)
        }
    }

    /// The score at the end of the game that is played from this state on.
    pub open spec fn final_score(self) -> int {
        self.play((self.end_turn - self.turn) as nat).game_score
    }

    /// The score of a placement: the score at the end of the game that starts
    /// with the cells under the characters emptied.
    pub open spec fn placement_score(self) -> int {
        self.clear_under(self.characters.len()).final_score()
    }

    /// The same game with the characters elsewhere.
    pub open spec fn same_board(self, other: AutoMoveModel) -> bool {
        &&& self.height == other.height
        &&& self.width == other.width
        &&& self.end_turn == other.end_turn
        &&& self.points == other.points
        &&& self.turn == other.turn
        &&& self.game_score == other.game_score
        &&& self.characters.len() == other.characters.len()
    }
}

impl AutoMoveModel {
    /// True when one of the first `n` characters stands on the cell.
    pub open spec fn occupied_by(self, y: int, x: int, n: nat) -> bool
        decreases n,
    {
        n > 0 && (self.occupied_by(y, x, (n - 1) as nat) || self.characters[n - 1] == (y, x))
    }

    /// How a cell shows in the text form: `@` where a character stands, the
    /// digit of its points, or `.` where it is empty.
    pub open spec fn cell_char(self, y: int, x: int) -> char {
        if self.occupied_by(y, x, self.characters.len()) {
            '@'
        } else if self.points[self.cell(y, x)] > 0 {
            digit_char(self.points[self.cell(y, x)] as int)
        } else {
            '.'
        }
    }

    /// The first `upto` cells of row `y`.
    pub open spec fn row_text(self, y: int, upto: nat) -> Seq<char>
        decreases upto,
    {
        if upto == 0 {
            Seq::empty()
        } else {
            self.row_text(y, (upto - 1) as nat).push(self.cell_char(y, upto - 1))
        }
    }

    /// The first `rows` rows, each ended by a line feed.
    pub open spec fn board_text(self, rows: nat) -> Seq<char>
        decreases rows,
    {
        if rows == 0 {
            Seq::empty()
        } else {
            self.board_text((rows - 1) as nat) + self.row_text(rows - 1, self.width).push('\n')
        }
    }

    /// The text form of a state: the header, then the board row by row.
    pub open spec fn text(self) -> Seq<char> {
        header(self.turn, self.game_score as nat) + self.board_text(self.height)
    }
}

/// On a board of two cells or more a character always has a legal direction,
/// and the direction it takes is legal.
pub proof fn lemma_best_step_legal(s: AutoMoveModel, at: (int, int))
    requires
        s.wf(),
        s.in_board(at.0, at.1),
    ensures
        s.best_step_below(at, ACTION_COUNT as nat) is Some,
        s.legal(at, s.best_step(at)),
{
    assert(s.height >= 2 || s.width >= 2) by (nonlinear_arith)
        requires
            s.height * s.width >= 2,
            s.height > 0,
            s.width > 0,
    ;
    lemma_best_step_below(s, at, 1);
    lemma_best_step_below(s, at, 2);
    lemma_best_step_below(s, at, 3);
    lemma_best_step_below(s, at, 4);
    if s.width >= 2 {
        assert(s.legal(at, 0) || s.legal(at, 1));
    } else {
        assert(s.legal(at, 2) || s.legal(at, 3));
    }
}

/// The direction taken among those below `n` is one of them and legal; there
/// is one as soon as one of them is legal.
pub proof fn lemma_best_step_below(s: AutoMoveModel, at: (int, int), n: nat)
    ensures
        s.best_step_below(at, n) matches Some(best) ==> 0 <= best < n && s.legal(at, best),
        (exists|a: int| 0 <= a < n && s.legal(at, a)) ==> s.best_step_below(at, n) is Some,
    decreases n,
{
    if n > 0 {
        lemma_best_step_below(s, at, (n - 1) as nat);
        if s.best_step_below(at, n) is None {
            assert forall|a: int| 0 <= a < n implies !s.legal(at, a) by {
                if a < n - 1 {
                    if s.legal(at, a) {
                        assert(s.best_step_below(at, (n - 1) as nat) is Some);
                    }
                }
            }
        }
    }
}

/// A step keeps a state a state of its game.
pub proof fn lemma_move_player_wf(s: AutoMoveModel, id: int)
    requires
        s.wf(),
        0 <= id < s.characters.len(),
    ensures
        s.move_player(id).wf(),
        s.move_player(id).same_board(s),
{
    let at = s.characters[id];
    lemma_best_step_legal(s, at);
    let next = s.move_player(id);
    assert forall|k: int| 0 <= k < next.characters.len() implies next.in_board(
        (#[trigger] next.characters[k]).0,
        next.characters[k].1,
    ) by {
        if k != id {
            assert(next.characters[k] == s.characters[k]);
        }
    }
}

/// Steps keep a state a state of its game.
pub proof fn lemma_move_players_wf(s: AutoMoveModel, n: nat)
    requires
        s.wf(),
        n <= s.characters.len(),
    ensures
        s.move_players(n).wf(),
        s.move_players(n).same_board(s),
    decreases n,
{
    if n > 0 {
        lemma_move_players_wf(s, (n - 1) as nat);
        lemma_move_player_wf(s.move_players((n - 1) as nat), n - 1);
    }
}

/// What holds of a state but the bound on its score.
pub open spec fn board_ok(s: AutoMoveModel) -> bool {
    &&& auto_dims_ok(s.height, s.width, s.end_turn, s.characters.len())
    &&& s.points.len() == s.height * s.width
    &&& forall|i: int| 0 <= i < s.points.len() ==> #[trigger] s.points[i] <= MAX_GAIN
    &&& forall|k: int|
        0 <= k < s.characters.len() ==> s.in_board((#[trigger] s.characters[k]).0, s.characters[k].1)
    &&& s.turn <= s.end_turn
    &&& 0 <= s.game_score
}

/// Collecting adds at most the largest cell value for each character.
pub proof fn lemma_collect_all(s: AutoMoveModel, n: nat)
    requires
        board_ok(s),
        n <= s.characters.len(),
    ensures
        board_ok(s.collect_all(n)),
        s.collect_all(n).characters == s.characters,
        s.collect_all(n).height == s.height,
        s.collect_all(n).width == s.width,
        s.collect_all(n).end_turn == s.end_turn,
        s.collect_all(n).turn == s.turn,
        s.game_score <= s.collect_all(n).game_score <= s.game_score + MAX_GAIN * n,
    decreases n,
{
    if n > 0 {
        lemma_collect_all(s, (n - 1) as nat);
        let before = s.collect_all((n - 1) as nat);
        let c = before.characters[n - 1];
        lemma_cell_in_range(s.height as int, s.width as int, c.0, c.1);
        let after = before.collect(n - 1);
        let at = before.cell(c.0, c.1);
        assert(before.points[at] <= MAX_GAIN);
        assert forall|i: int| 0 <= i < after.points.len() implies #[trigger] after.points[i]
            <= MAX_GAIN by {
            if i != at {
                assert(after.points[i] == before.points[i]);
            }
        }
        assert(MAX_GAIN * n == MAX_GAIN * (n - 1) + MAX_GAIN) by (nonlinear_arith);
    }
}

/// A turn of a running game leads to a state of the same game, one turn
/// later.
pub proof fn lemma_advance_wf(s: AutoMoveModel)
    requires
        s.wf(),
        !s.is_done(),
    ensures
        s.advance().wf(),
        s.advance().turn == s.turn + 1,
        s.advance().end_turn == s.end_turn,
        s.advance().characters.len() == s.characters.len(),
{
    let n = s.characters.len();
    lemma_move_players_wf(s, n);
    let moved = s.move_players(n);
    lemma_collect_all(moved, n);
    let left = s.end_turn - s.turn;
    assert(MAX_GAIN * (n * left) == MAX_GAIN * (n * (left - 1)) + MAX_GAIN * n) by (nonlinear_arith);
    assert(0 <= MAX_GAIN * (n * (left - 1))) by (nonlinear_arith)
        requires
            left >= 1,
            n >= 0,
    ;
}

/// Emptying the cells under the characters keeps a state a state of its game.
pub proof fn lemma_clear_under_wf(s: AutoMoveModel, n: nat)
    requires
        s.wf(),
        n <= s.characters.len(),
    ensures
        s.clear_under(n).wf(),
        s.clear_under(n).characters == s.characters,
        s.clear_under(n).turn == s.turn,
        s.clear_under(n).end_turn == s.end_turn,
        s.clear_under(n).height == s.height,
        s.clear_under(n).width == s.width,
        s.clear_under(n).game_score == s.game_score,
    decreases n,
{
    if n > 0 {
        lemma_clear_under_wf(s, (n - 1) as nat);
        let before = s.clear_under((n - 1) as nat);
        let c = s.characters[n - 1];
        lemma_cell_in_range(s.height as int, s.width as int, c.0, c.1);
        let after = s.clear_under(n);
        let at = s.cell(c.0, c.1);
        assert forall|i: int| 0 <= i < after.points.len() implies #[trigger] after.points[i]
            <= MAX_GAIN by {
            if i != at {
                assert(after.points[i] == before.points[i]);
            }
        }
    }
}

/// The score type of a placement.
pub type ScoreType = i64;

/// The state of the game that plays itself.
#[derive(Debug)]
pub struct AutoMoveMazeState {
    points: Vec<usize>,
    turn: usize,
    characters: Vec<Coord>,
    game_score: usize,
    height: usize,
    width: usize,
    end_turn: usize,
}

impl View for AutoMoveMazeState {
    type V = AutoMoveModel;

    closed spec fn view(&self) -> AutoMoveModel {
        AutoMoveModel {
            height: self.height as nat,
            width: self.width as nat,
            end_turn: self.end_turn as nat,
            points: self.points@,
            turn: self.turn as nat,
            characters: self.characters@.map_values(|c: Coord| (c.y as int, c.x as int)),
            game_score: self.game_score as int,
        }
    }
}

impl Clone for AutoMoveMazeState {
    /// An independent copy: the same game state, sharing nothing.
    fn clone(&self) -> (copy: Self)
        ensures
            copy@ == self@,
    {
        let points = self.points.clone();
        let characters = self.characters.clone();
        assert(points@ =~= self.points@);
        assert(characters@ =~= self.characters@);
        AutoMoveMazeState {
            points,
            turn: self.turn,
            characters,
            game_score: self.game_score,
            height: self.height,
            width: self.width,
            end_turn: self.end_turn,
        }
    }
}

/// Tests whether a state can have this board, this game length and this
/// number of characters.
pub fn auto_dims_fit(height: usize, width: usize, end_turn: usize, characters: usize) -> (fit: bool)
    ensures
        fit == auto_dims_ok(height as nat, width as nat, end_turn as nat, characters as nat),
{
    if height == 0 || width == 0 || height > 0x7fff_ffff || width > 0x7fff_ffff {
        return false;
    }
    if height == 1 && width == 1 {
        return false;
    }
    assert(height * width >= 2) by (nonlinear_arith)
        requires
            height >= 1,
            width >= 1,
            height >= 2 || width >= 2,
    ;
    if height.checked_mul(width).is_none() {
        return false;
    }
    let turns: usize = match characters.checked_mul(end_turn) {
        Some(turns) => turns,
        None => {
            assert(MAX_GAIN * (characters * end_turn) > usize::MAX) by (nonlinear_arith)
                requires
                    characters * end_turn > usize::MAX,
            ;
            return false;
        },
    };
    match MAX_GAIN.checked_mul(turns) {
        Some(most) => (most as u128) <= 0x7fff_ffff_ffff_ffffu128,
        None => false,
    }
}

impl AutoMoveMazeState {
    /// The state is one of a game: see [`AutoMoveModel::wf`].
    pub open spec fn wf(&self) -> bool {
        self@.wf()
    }

    /// A state at the start of a game on a random board: every cell holds 1 to
    /// 9 points, and the characters stand in the top left corner. `None`
    /// where the sizes are not ones that a state can have.
    pub fn generate(
        height: usize,
        width: usize,
        end_turn: usize,
        characters: usize,
        rng: &mut GameRng,
    ) -> (state: Option<Self>)
        ensures
            state is Some <==> auto_dims_ok(
                height as nat,
                width as nat,
                end_turn as nat,
                characters as nat,
            ),
            state matches Some(s) ==> {
                &&& s.wf()
                &&& s@.height == height
                &&& s@.width == width
                &&& s@.end_turn == end_turn
                &&& s@.turn == 0
                &&& s@.game_score == 0
                &&& s@.characters == Seq::new(characters as nat, |k: int| (0int, 0int))
                &&& forall|i: int| 0 <= i < s@.points.len() ==> 1 <= #[trigger] s@.points[i]
            },
    {
        if !auto_dims_fit(height, width, end_turn, characters) {
            return None;
        }
        let cells: usize = height * width;
        let mut points: Vec<usize> = Vec::new();
        let mut i: usize = 0;
        while i < cells
            invariant
                i <= cells,
                points@.len() == i,
                forall|k: int| 0 <= k < i ==> 1 <= #[trigger] points@[k] <= MAX_GAIN,
            decreases cells - i,
        {
            let point: usize = rng.range_usize(1, MAX_GAIN + 1);
            points.push(point);
            i = i + 1;
        }
        let mut placed: Vec<Coord> = Vec::new();
        let mut k: usize = 0;
        while k < characters
            invariant
                k <= characters,
                placed@.len() == k,
                forall|j: int| 0 <= j < k ==> #[trigger] placed@[j] == (Coord { y: 0, x: 0 }),
            decreases characters - k,
        {
            placed.push(Coord::new(0, 0));
            k = k + 1;
        }
        let state = AutoMoveMazeState {
            points,
            turn: 0,
            characters: placed,
            game_score: 0,
            height,
            width,
            end_turn,
        };
        assert(state@.characters =~= Seq::new(characters as nat, |k: int| (0int, 0int)));
        Some(state)
    }

    /// A state at the start of a game on a random board, from the standard
    /// generator with the given seed, or with a seed that the system supplies
    /// where none is given. See [`AutoMoveMazeState::generate`].
    pub fn new(
        height: usize,
        width: usize,
        end_turn: usize,
        characters: usize,
        seed: Option<usize>,
    ) -> (state: Option<Self>)
        ensures
            state is Some <==> auto_dims_ok(
                height as nat,
                width as nat,
                end_turn as nat,
                characters as nat,
            ),
            state matches Some(s) ==> {
                &&& s.wf()
                &&& s@.height == height
                &&& s@.width == width
                &&& s@.end_turn == end_turn
                &&& s@.turn == 0
                &&& s@.game_score == 0
                &&& s@.characters == Seq::new(characters as nat, |k: int| (0int, 0int))
                &&& forall|i: int| 0 <= i < s@.points.len() ==> 1 <= #[trigger] s@.points[i]
            },
    {
        let mut rng = match seed {
            Some(s) => GameRng::from_seed(s as u64),
            None => GameRng::from_entropy(),
        };
        AutoMoveMazeState::generate(height, width, end_turn, characters, &mut rng)
    }

    /// A state at the start of a game on the given board, with the characters
    /// in the top left corner. `None` unless the sizes are ones that a state
    /// can have and `points` holds the cells row after row, each from 0 to 9.
    pub fn from_parts(
        height: usize,
        width: usize,
        end_turn: usize,
        characters: usize,
        points: Vec<usize>,
    ) -> (state: Option<Self>)
        ensures
            state is Some <==> {
                &&& auto_dims_ok(height as nat, width as nat, end_turn as nat, characters as nat)
                &&& points@.len() == height * width
                &&& forall|i: int| 0 <= i < points@.len() ==> #[trigger] points@[i] <= MAX_GAIN
            },
            state matches Some(s) ==> {
                &&& s.wf()
                &&& s@.height == height
                &&& s@.width == width
                &&& s@.end_turn == end_turn
                &&& s@.points == points@
                &&& s@.turn == 0
                &&& s@.game_score == 0
                &&& s@.characters == Seq::new(characters as nat, |k: int| (0int, 0int))
            },
    {
        if !auto_dims_fit(height, width, end_turn, characters) {
            return None;
        }
        if points.len() != height * width {
            return None;
        }
        let mut i: usize = 0;
        while i < points.len()
            invariant
                i <= points@.len(),
                forall|k: int| 0 <= k < i ==> #[trigger] points@[k] <= MAX_GAIN,
            decreases points@.len() - i,
        {
            if points[i] > MAX_GAIN {
                return None;
            }
            i = i + 1;
        }
        let mut placed: Vec<Coord> = Vec::new();
        let mut k: usize = 0;
        while k < characters
            invariant
                k <= characters,
                placed@.len() == k,
                forall|j: int| 0 <= j < k ==> #[trigger] placed@[j] == (Coord { y: 0, x: 0 }),
            decreases characters - k,
        {
            placed.push(Coord::new(0, 0));
            k = k + 1;
        }
        let state = AutoMoveMazeState {
            points,
            turn: 0,
            characters: placed,
            game_score: 0,
            height,
            width,
            end_turn,
        };
        assert(state@.characters =~= Seq::new(characters as nat, |k: int| (0int, 0int)));
        Some(state)
    }

    /// The points collected so far.
    pub fn game_score(&self) -> (score: usize)
        ensures
            score == self@.game_score,
    {
        self.game_score
    }

    /// The number of turns played.
    pub fn turn(&self) -> (turn: usize)
        ensures
            turn == self@.turn,
    {
        self.turn
    }

    /// The number of characters.
    pub fn character_count(&self) -> (n: usize)
        ensures
            n == self@.characters.len(),
    {
        self.characters.len()
    }

    /// Where a character stands.
    pub fn character(&self, character_id: usize) -> (at: Coord)
        requires
            character_id < self@.characters.len(),
        ensures
            (at.y as int, at.x as int) == self@.characters[character_id as int],
    {
        self.characters[character_id]
    }

    /// The points of the cell in row `y`, column `x`.
    pub fn point_at(&self, y: usize, x: usize) -> (point: usize)
        requires
            self.wf(),
            self@.in_board(y as int, x as int),
        ensures
            point == self@.points[self@.cell(y as int, x as int)],
    {
        proof {
            lemma_cell_in_range(self.height as int, self.width as int, y as int, x as int);
        }
        self.points[y * self.width + x]
    }

    /// Puts a character on a cell of the board.
    pub fn set_character(&mut self, character_id: usize, y: usize, x: usize)
        requires
            old(self).wf(),
            character_id < old(self)@.characters.len(),
            old(self)@.in_board(y as int, x as int),
        ensures
            final(self)@ == old(self)@.set_character(character_id as int, y as int, x as int),
            final(self).wf(),
    {
        self.characters.set(character_id, Coord::new(y as i32, x as i32));
        proof {
            assert(self@.characters =~= old(self)@.characters.update(
                character_id as int,
                (y as int, x as int),
            ));
            assert forall|k: int| 0 <= k < self@.characters.len() implies self@.in_board(
                (#[trigger] self@.characters[k]).0,
                self@.characters[k].1,
            ) by {
                if k != character_id {
                    assert(self@.characters[k] == old(self)@.characters[k]);
                }
            }
        }
    }

    /// True when no turns remain.
    pub fn is_done(&self) -> (done: bool)
        ensures
            done == self@.is_done(),
    {
        self.turn == self.end_turn
    }

    /// Moves one character to the neighbouring cell with the most points; of
    /// several with as many, to the first in the order right, left, down, up.
    pub fn move_player(&mut self, character_id: usize)
        requires
            old(self).wf(),
            character_id < old(self)@.characters.len(),
        ensures
            final(self)@ == old(self)@.move_player(character_id as int),
            final(self).wf(),
    {
        let character = self.characters[character_id];
        let ghost at = (character.y as int, character.x as int);
        assert(self@.characters[character_id as int] == at);
        assert(self@.in_board(at.0, at.1));
        let mut best_point: usize = 0;
        let mut best_action_index: usize = 0;
        let mut found = false;
        let mut action: usize = 0;
        while action < ACTION_COUNT
            invariant
                self.wf(),
                self == old(self),
                at == (character.y as int, character.x as int),
                self@.in_board(at.0, at.1),
                action <= ACTION_COUNT,
                found == (self@.best_step_below(at, action as nat) is Some),
                found ==> {
                    &&& self@.best_step_below(at, action as nat) == Some(best_action_index as int)
                    &&& best_point == self@.gain(at, best_action_index as int)
                    &&& best_action_index < ACTION_COUNT
                },
            decreases ACTION_COUNT - action,
        {
            let (step_y, step_x) = step_of(action);
            let ty: i32 = character.y + step_y;
            let tx: i32 = character.x + step_x;
            if ty >= 0 && (ty as usize) < self.height && tx >= 0 && (tx as usize) < self.width {
                proof {
                    lemma_cell_in_range(self.height as int, self.width as int, ty as int, tx as int);
                }
                let point: usize = self.points[(ty as usize) * self.width + (tx as usize)];
                if !found || point > best_point {
                    best_point = point;
                    best_action_index = action;
                    found = true;
                }
            }
            action = action + 1;
        }
        proof {
            lemma_best_step_legal(self@, at);
            lemma_move_player_wf(self@, character_id as int);
        }
        let (step_y, step_x) = step_of(best_action_index);
        let moved = Coord::new(character.y + step_y, character.x + step_x);
        self.characters.set(character_id, moved);
        proof {
            assert(self@.characters =~= old(self)@.move_player(character_id as int).characters);
        }
    }

    /// Plays one turn: every character steps, then every character collects
    /// the points of its cell, and a turn passes.
    pub fn advance(&mut self)
        requires
            old(self).wf(),
            !old(self)@.is_done(),
        ensures
            final(self)@ == old(self)@.advance(),
            final(self).wf(),
    {
        let count: usize = self.characters.len();
        let mut character_id: usize = 0;
        while character_id < count
            invariant
                old(self).wf(),
                self.wf(),
                count == old(self)@.characters.len(),
                character_id <= count,
                self@ == old(self)@.move_players(character_id as nat),
            decreases count - character_id,
        {
            proof {
                lemma_move_players_wf(old(self)@, character_id as nat);
            }
            self.move_player(character_id);
            character_id = character_id + 1;
        }
        let ghost moved = self@;
        proof {
            lemma_move_players_wf(old(self)@, count as nat);
            lemma_advance_wf(old(self)@);
        }
        let mut k: usize = 0;
        while k < count
            invariant
                old(self).wf(),
                !old(self)@.is_done(),
                moved == old(self)@.move_players(count as nat),
                moved.wf(),
                moved.same_board(old(self)@),
                count == moved.characters.len(),
                k <= count,
                self@ == moved.collect_all(k as nat),
            decreases count - k,
        {
            proof {
                lemma_collect_all(moved, k as nat);
                lemma_collect_all(moved, (k + 1) as nat);
                let c = self@.characters[k as int];
                lemma_cell_in_range(self.height as int, self.width as int, c.0, c.1);
                assert(MAX_GAIN * (count * (moved.end_turn - moved.turn)) >= MAX_GAIN * count)
                    by (nonlinear_arith)
                    requires
                        moved.end_turn - moved.turn >= 1,
                        count >= 0,
                ;
                assert(MAX_GAIN * (k + 1) <= MAX_GAIN * count) by (nonlinear_arith)
                    requires
                        k + 1 <= count,
                ;
            }
            let character = self.characters[k];
            assert(self@.characters[k as int] == (character.y as int, character.x as int));
            let at: usize = (character.y as usize) * self.width + (character.x as usize);
            let point: usize = self.points[at];
            self.game_score = self.game_score + point;
            self.points.set(at, 0);
            assert(self@.points =~= moved.collect_all(k as nat).collect(k as int).points);
            k = k + 1;
        }
        proof {
            lemma_collect_all(moved, count as nat);
        }
        self.turn = self.turn + 1;
    }

    /// True when a character stands on the cell in row `y`, column `x`.
    fn is_occupied(&self, y: usize, x: usize) -> (occupied: bool)
        requires
            self.wf(),
        ensures
            occupied == self@.occupied_by(y as int, x as int, self@.characters.len()),
    {
        let mut k: usize = 0;
        while k < self.characters.len()
            invariant
                self.wf(),
                k <= self.characters.len(),
                !self@.occupied_by(y as int, x as int, k as nat),
            decreases self.characters.len() - k,
        {
            let character = self.characters[k];
            assert(self@.characters[k as int] == (character.y as int, character.x as int));
            assert(self@.in_board(self@.characters[k as int].0, self@.characters[k as int].1));
            if character.y as usize == y && character.x as usize == x {
                proof {
                    lemma_occupied_later(
                        self@,
                        y as int,
                        x as int,
                        (k + 1) as nat,
                        self@.characters.len(),
                    );
                }
                return true;
            }
            k = k + 1;
        }
        false
    }

    /// The text form of the state: the turn, the score, and the board with
    /// `@` for a character, a digit for a cell with points and `.` for an
    /// empty cell.
    pub fn to_string(&self) -> (result: String)
        requires
            self.wf(),
        ensures
            result@ == self@.text(),
    {
        let mut result = String::new();
        push_header(&mut result, self.turn, self.game_score);
        assert(result@ =~= header(self@.turn, self@.game_score as nat));
        let mut h: usize = 0;
        while h < self.height
            invariant
                self.wf(),
                h <= self.height,
                result@ == header(self@.turn, self@.game_score as nat) + self@.board_text(
                    h as nat,
                ),
            decreases self.height - h,
        {
            let ghost before = result@;
            let mut w: usize = 0;
            while w < self.width
                invariant
                    self.wf(),
                    h < self.height,
                    w <= self.width,
                    result@ == before + self@.row_text(h as int, w as nat),
                decreases self.width - w,
            {
                proof {
                    lemma_cell_in_range(self.height as int, self.width as int, h as int, w as int);
                    reveal_strlit("@");
                    reveal_strlit(".");
                }
                let point: usize = self.points[h * self.width + w];
                if self.is_occupied(h, w) {
                    push_mark(&mut result, "@");
                } else if point > 0 {
                    push_digit(&mut result, point);
                } else {
                    push_mark(&mut result, ".");
                }
                assert(result@ =~= before + self@.row_text(h as int, (w + 1) as nat));
                w = w + 1;
            }
            proof {
                reveal_strlit("\n");
            }
            push_mark(&mut result, "\n");
            assert(result@ =~= header(self@.turn, self@.game_score as nat) + self@.board_text(
                (h + 1) as nat,
            ));
            h = h + 1;
        }
        result
    }

    /// Empties the cells on which the characters stand.
    pub fn clear_under_characters(&mut self)
        requires
            old(self).wf(),
        ensures
            final(self)@ == old(self)@.clear_under(old(self)@.characters.len()),
            final(self).wf(),
    {
        let count: usize = self.characters.len();
        let mut k: usize = 0;
        while k < count
            invariant
                old(self).wf(),
                count == old(self)@.characters.len(),
                k <= count,
                self@ == old(self)@.clear_under(k as nat),
            decreases count - k,
        {
            proof {
                lemma_clear_under_wf(old(self)@, k as nat);
                let c = old(self)@.characters[k as int];
                lemma_cell_in_range(self.height as int, self.width as int, c.0, c.1);
            }
            let character = self.characters[k];
            assert(self@.characters[k as int] == (character.y as int, character.x as int));
            let at: usize = (character.y as usize) * self.width + (character.x as usize);
            self.points.set(at, 0);
            assert(self@.points =~= old(self)@.clear_under((k + 1) as nat).points);
            k = k + 1;
        }
        proof {
            lemma_clear_under_wf(old(self)@, count as nat);
        }
    }

    /// The score of the placement: the cells under the characters are
    /// emptied, the game is played to its end, and the points collected are
    /// the score. The state itself is left as it is.
    pub fn get_score(&self) -> (score: ScoreType)
        requires
            self.wf(),
        ensures
            score == self@.placement_score(),
    {
        let mut tmp_state = self.clone();
        tmp_state.clear_under_characters();
        let ghost cleared = tmp_state@;
        proof {
            lemma_clear_under_wf(self@, self@.characters.len());
        }
        while !tmp_state.is_done()
            invariant
                tmp_state.wf(),
                tmp_state@.end_turn == cleared.end_turn,
                tmp_state@.final_score() == cleared.final_score(),
            decreases tmp_state@.end_turn - tmp_state@.turn,
        {
            proof {
                lemma_advance_wf(tmp_state@);
            }
            tmp_state.advance();
        }
        tmp_state.game_score as ScoreType
    }

    /// Puts every character on a random cell.
    pub fn init(&mut self, rng: &mut GameRng)
        requires
            old(self).wf(),
        ensures
            final(self).wf(),
            final(self)@.same_board(old(self)@),
    {
        let count: usize = self.characters.len();
        let mut character_id: usize = 0;
        while character_id < count
            invariant
                self.wf(),
                self@.same_board(old(self)@),
                count == self@.characters.len(),
                character_id <= count,
            decreases count - character_id,
        {
            let y: usize = rng.range_usize(0, self.height);
            let x: usize = rng.range_usize(0, self.width);
            self.set_character(character_id, y, x);
            character_id = character_id + 1;
        }
    }

    /// Puts one random character on a random cell.
    pub fn transition(&mut self, rng: &mut GameRng)
        requires
            old(self).wf(),
            old(self)@.characters.len() > 0,
        ensures
            final(self).wf(),
            final(self)@.same_board(old(self)@),
            exists|id: int, y: int, x: int|
                0 <= id < old(self)@.characters.len() && old(self)@.in_board(y, x) && final(self)@
                    == #[trigger] old(self)@.set_character(id, y, x),
    {
        let character_id: usize = rng.range_usize(0, self.characters.len());
        let y: usize = rng.range_usize(0, self.height);
        let x: usize = rng.range_usize(0, self.width);
        self.set_character(character_id, y, x);
    }
}

/// A cell on which one of the first characters stands is occupied, however
/// many characters are counted.
pub proof fn lemma_occupied_later(s: AutoMoveModel, y: int, x: int, some: nat, all: nat)
    requires
        0 < some <= all,
        s.occupied_by(y, x, (some - 1) as nat) || s.characters[some - 1] == (y, x),
    ensures
        s.occupied_by(y, x, all),
    decreases all - some,
{
    if some < all {
        lemma_occupied_later(s, y, x, some + 1, all);
    }
}

} // verus!
