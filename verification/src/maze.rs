//! The grid game that the search engines play: one character walks a board of
//! point cells for a fixed number of turns and collects what it steps on.

use crate::rng::GameRng;
use crate::text::digit_char;
use crate::text::header;
use crate::text::push_digit;
use crate::text::push_header;
use crate::text::push_mark;
use vstd::prelude::*;

verus! {

/// The number of directions: right, left, down, up, in that order.
pub const ACTION_COUNT: usize = 4;

/// The largest value of a point cell; 0 is an empty cell.
pub const MAX_POINT: i32 = 9;

/// Row displacement of a direction.
pub open spec fn dy(action: int) -> int {
    if action == 2 {
        1
    } else if action == 3 {
        -1
    } else {
        0
    }
}

/// Column displacement of a direction.
pub open spec fn dx(action: int) -> int {
    if action == 0 {
        1
    } else if action == 1 {
        -1
    } else {
        0
    }
}

/// The row and column displacement of a direction.
pub fn step_of(action: usize) -> (step: (i32, i32))
    ensures
        step.0 == dy(action as int),
        step.1 == dx(action as int),
{
    if action == 0 {
        (0, 1)
    } else if action == 1 {
        (0, -1)
    } else if action == 2 {
        (1, 0)
    } else if action == 3 {
        (-1, 0)
    } else {
        (0, 0)
    }
}

/// A board position: row `y`, column `x`.
#[derive(Debug, Clone, Copy, PartialEq, Eq, Structural)]
pub struct Coord {
    pub y: i32,
    pub x: i32,
}

impl Coord {
    pub fn new(y: i32, x: i32) -> (c: Self)
        ensures
            c.y == y,
            c.x == x,
    {
        Coord { y, x }
    }
}

/// The game state as a mathematical value.
pub struct MazeModel {
    pub height: nat,
    pub width: nat,
    pub end_turn: nat,
    /// Row and column of the character.
    pub character: (int, int),
    /// The point cells, row after row.
    pub points: Seq<i32>,
    pub turn: nat,
    /// Points collected so far.
    pub game_score: int,
    /// The score by which a search ranks this state.
    pub evaluated_score: int,
    /// The move made at the root of the search that reached this state.
    pub first_action: Option<usize>,
}

/// Board sizes and game lengths that a state can have: a board of at least
/// two cells whose coordinates fit in `i32`, and a game short enough that the
/// score cannot overflow.
pub open spec fn dims_ok(height: nat, width: nat, end_turn: nat) -> bool {
    &&& 0 < height <= i32::MAX
    &&& 0 < width <= i32::MAX
    &&& height * width >= 2
    &&& height * width <= usize::MAX
    &&& end_turn <= usize::MAX
    &&& MAX_POINT * end_turn <= i32::MAX
}

impl MazeModel {
    /// Index of a cell in `points`.
    pub open spec fn cell(self, y: int, x: int) -> int {
        y * self.width + x
    }

    pub open spec fn in_board(self, y: int, x: int) -> bool {
        0 <= y < self.height && 0 <= x < self.width
    }

    /// The invariant of every state of a game.
    pub open spec fn wf(self) -> bool {
        &&& dims_ok(self.height, self.width, self.end_turn)
        &&& self.in_board(self.character.0, self.character.1)
        &&& self.points.len() == self.height * self.width
        &&& forall|i: int| 0 <= i < self.points.len() ==> 0 <= #[trigger] self.points[i] <= MAX_POINT
        &&& self.turn <= self.end_turn
        &&& 0 <= self.game_score
        &&& self.game_score + MAX_POINT * (self.end_turn - self.turn) <= i32::MAX
        &&& i32::MIN <= self.evaluated_score <= i32::MAX
    }

    /// No turns remain.
    pub open spec fn is_done(self) -> bool {
        self.turn == self.end_turn
    }

    /// The turns that remain.
    pub open spec fn turns_left(self) -> nat {
        (self.end_turn - self.turn) as nat
    }

    /// Where a direction leads from the character's cell.
    pub open spec fn target(self, action: int) -> (int, int) {
        (self.character.0 + dy(action), self.character.1 + dx(action))
    }

    /// A direction is legal when it stays on the board.
    pub open spec fn legal(self, action: int) -> bool {
        &&& 0 <= action < ACTION_COUNT
        &&& self.in_board(self.target(action).0, self.target(action).1)
    }

    /// The legal directions below `n`, in increasing order.
    pub open spec fn legal_below(self, n: nat) -> Seq<usize>
        decreases n,
    {
        if n == 0 {
            Seq::empty()
        } else if self.legal(n - 1) {
            self.legal_below((n - 1) as nat).push((n - 1) as usize)
        } else {
            self.legal_below((n - 1) as nat)
        }
    }

    /// All legal directions, in increasing order.
    pub open spec fn legal_actions(self) -> Seq<usize> {
        self.legal_below(ACTION_COUNT as nat)
    }

    /// The state after one move: the character steps, collects the points of
    /// the cell it lands on, and a turn passes.
    pub open spec fn advance(self, action: int) -> MazeModel {
        let (ty, tx) = self.target(action);
        let at = self.cell(ty, tx);
        let point = self.points[at];
        MazeModel {
            character: (ty, tx),
            points: if point > 0 {
                self.points.update(at, 0i32)
            } else {
                self.points
            },
            turn: self.turn + 1,
            game_score: if point > 0 {
                self.game_score + point
            } else {
                self.game_score
            },
            ..self
        }
    }

    /// The state with its ranking score brought up to date.
    pub open spec fn evaluate(self) -> MazeModel {
        MazeModel { evaluated_score: self.game_score, ..self }
    }

    /// The state tagged with the root move that led to it.
    pub open spec fn stamp(self, action: usize) -> MazeModel {
        MazeModel { first_action: Some(action), ..self }
    }

    /// The successor that a search puts on its frontier: moved, evaluated, and
    /// tagged with the move where the parent is the root of the search.
    pub open spec fn child(self, action: usize, at_root: bool) -> MazeModel {
        let next = self.advance(action as int).evaluate();
        if at_root {
            next.stamp(action)
        } else {
            next
        }
    }
}

impl MazeModel {
    /// How a cell shows in the text form: `@` for the character, the digit of
    /// its points, or `.` where it is empty.
    pub open spec fn cell_char(self, y: int, x: int) -> char {
        if self.character == (y, x) {
            '@'
        } else if self.points[self.cell(y, x)] > 0 {
            digit_char(self.points[self.cell(y, x)] as int)
        } else {
            '.'
        }
    }

    /// The first `upto` cells of row `y`.
    pub open spec fn row_text(self, y: int, upto: nat) -> Seq<char>
        decreases upto,
    {
        if upto == 0 {
            Seq::empty()
        } else {
            self.row_text(y, (upto - 1) as nat).push(self.cell_char(y, upto - 1))
        }
    }

    /// The first `rows` rows, each ended by a line feed.
    pub open spec fn board_text(self, rows: nat) -> Seq<char>
        decreases rows,
    {
        if rows == 0 {
            Seq::empty()
        } else {
            self.board_text((rows - 1) as nat) + self.row_text(rows - 1, self.width).push('\n')
        }
    }

    /// The text form of a state: the header, then the board row by row.
    pub open spec fn text(self) -> Seq<char> {
        header(self.turn, self.game_score as nat) + self.board_text(self.height)
    }
}

/// The cell index of a board position is within the board's cells.
pub proof fn lemma_cell_in_range(height: int, width: int, y: int, x: int)
    requires
        0 <= y < height,
        0 <= x < width,
    ensures
        0 <= y * width + x < height * width,
{
    assert(y * width + width <= height * width) by (nonlinear_arith)
        requires
            0 <= y < height,
            0 <= width,
    ;
    assert(0 <= y * width) by (nonlinear_arith)
        requires
            0 <= y,
            0 <= width,
    ;
}

/// A move from a state of a running game leads to a state of the same game,
/// one turn later.
pub proof fn lemma_advance_wf(s: MazeModel, action: int)
    requires
        s.wf(),
        !s.is_done(),
        s.legal(action),
    ensures
        s.advance(action).wf(),
        s.advance(action).turn == s.turn + 1,
        s.advance(action).end_turn == s.end_turn,
        s.advance(action).first_action == s.first_action,
        s.game_score <= s.advance(action).game_score <= s.game_score + MAX_POINT,
{
    let (ty, tx) = s.target(action);
    lemma_cell_in_range(s.height as int, s.width as int, ty, tx);
    let at = s.cell(ty, tx);
    let next = s.advance(action);
    assert(0 <= s.points[at] <= MAX_POINT);
    assert forall|i: int| 0 <= i < next.points.len() implies 0 <= #[trigger] next.points[i]
        <= MAX_POINT by {
        if i != at {
            assert(next.points[i] == s.points[i]);
        }
    }
    assert(MAX_POINT * (s.end_turn - s.turn) == MAX_POINT * (s.end_turn - (s.turn + 1)) + MAX_POINT)
        by (nonlinear_arith);
}

/// Every listed direction is legal, every legal direction is listed, and the
/// list is in increasing order.
pub proof fn lemma_legal_below(s: MazeModel, n: nat)
    ensures
        s.legal_below(n).len() <= n,
        forall|i: int|
            0 <= i < s.legal_below(n).len() ==> (#[trigger] s.legal_below(n)[i]) < n && s.legal(
                s.legal_below(n)[i] as int,
            ),
        forall|a: int|
            0 <= a < n && s.legal(a) && a <= usize::MAX ==> s.legal_below(n).contains(a as usize),
        forall|i: int, j: int|
            0 <= i < j < s.legal_below(n).len() ==> (#[trigger] s.legal_below(n)[i]) < (
            #[trigger] s.legal_below(n)[j]),
    decreases n,
{
    if n > 0 {
        let prev = s.legal_below((n - 1) as nat);
        lemma_legal_below(s, (n - 1) as nat);
        let cur = s.legal_below(n);
        if s.legal(n - 1) {
            assert(cur == prev.push((n - 1) as usize));
            assert(cur[cur.len() - 1] == (n - 1) as usize);
            assert forall|a: int| 0 <= a < n && s.legal(a) && a <= usize::MAX implies cur.contains(
                a as usize,
            ) by {
                if a < n - 1 {
                    let i = choose|i: int| 0 <= i < prev.len() && prev[i] == a as usize;
                    assert(cur[i] == a as usize);
                } else {
                    assert(cur[cur.len() - 1] == a as usize);
                }
            }
        } else {
            assert(cur == prev);
        }
    }
}

/// While a game runs on a board of two cells or more, some direction is legal.
pub proof fn lemma_legal_actions_nonempty(s: MazeModel)
    requires
        s.wf(),
    ensures
        s.legal_actions().len() > 0,
        forall|i: int|
            0 <= i < s.legal_actions().len() ==> s.legal(#[trigger] s.legal_actions()[i] as int),
{
    lemma_legal_below(s, ACTION_COUNT as nat);
    let (y, x) = s.character;
    assert(s.height >= 2 || s.width >= 2) by (nonlinear_arith)
        requires
            s.height * s.width >= 2,
            s.height > 0,
            s.width > 0,
    ;
    if s.width >= 2 {
        if x + 1 < s.width {
            assert(s.legal(0));
            assert(s.legal_actions().contains(0usize));
        } else {
            assert(s.legal(1));
            assert(s.legal_actions().contains(1usize));
        }
    } else {
        if y + 1 < s.height {
            assert(s.legal(2));
            assert(s.legal_actions().contains(2usize));
        } else {
            assert(s.legal(3));
            assert(s.legal_actions().contains(3usize));
        }
    }
}


/// Tests whether a state can have this board and this game length.
pub fn dims_fit(height: usize, width: usize, end_turn: usize) -> (fit: bool)
    ensures
        fit == dims_ok(height as nat, width as nat, end_turn as nat),
{
    if height == 0 || width == 0 || height > 0x7fff_ffff || width > 0x7fff_ffff {
        return false;
    }
    if height == 1 && width == 1 {
        return false;
    }
    assert(height * width >= 2) by (nonlinear_arith)
        requires
            height >= 1,
            width >= 1,
            height >= 2 || width >= 2,
    ;
    if end_turn > 238_609_294 {
        return false;
    }
    match height.checked_mul(width) {
        Some(_) => true,
        None => false,
    }
}

/// The game state: a board of point cells, the character on it, the turn, the
/// score, and the tag that a search carries from its root.
#[derive(Debug)]
pub struct MazeState {
    character: Coord,
    points: Vec<i32>,
    height: usize,
    width: usize,
    end_turn: usize,
    turn: usize,
    game_score: i32,
    evaluated_score: i32,
    first_action: Option<usize>,
}

impl View for MazeState {
    type V = MazeModel;

    closed spec fn view(&self) -> MazeModel {
        MazeModel {
            height: self.height as nat,
            width: self.width as nat,
            end_turn: self.end_turn as nat,
            character: (self.character.y as int, self.character.x as int),
            points: self.points@,
            turn: self.turn as nat,
            game_score: self.game_score as int,
            evaluated_score: self.evaluated_score as int,
            first_action: self.first_action,
        }
    }
}

impl Clone for MazeState {
    /// An independent copy: the same game state, sharing nothing.
    fn clone(&self) -> (copy: Self)
        ensures
            copy@ == self@,
    {
        let points = self.points.clone();
        assert(points@ =~= self.points@);
        MazeState {
            character: self.character,
            points,
            height: self.height,
            width: self.width,
            end_turn: self.end_turn,
            turn: self.turn,
            game_score: self.game_score,
            evaluated_score: self.evaluated_score,
            first_action: self.first_action,
        }
    }
}

impl MazeState {
    /// The state is one of a game: see [`MazeModel::wf`].
    pub open spec fn wf(&self) -> bool {
        self@.wf()
    }

    /// A state at the start of a game on a random board: the character stands
    /// on a random cell, which is empty, and every other cell holds 0 to 9
    /// points. `None` where the board or the game length is not one that a
    /// state can have.
    pub fn generate(height: usize, width: usize, end_turn: usize, rng: &mut GameRng) -> (state:
        Option<Self>)
        ensures
            state is Some <==> dims_ok(height as nat, width as nat, end_turn as nat),
            state matches Some(s) ==> {
                &&& s.wf()
                &&& s@.height == height
                &&& s@.width == width
                &&& s@.end_turn == end_turn
                &&& s@.turn == 0
                &&& s@.game_score == 0
                &&& s@.evaluated_score == 0
                &&& s@.first_action is None
                &&& s@.points[s@.cell(s@.character.0, s@.character.1)] == 0
            },
    {
        if !dims_fit(height, width, end_turn) {
            return None;
        }
        let character = Coord::new(rng.range_i32(0, height as i32), rng.range_i32(0, width as i32));
        let own_y: usize = character.y as usize;
        let own_x: usize = character.x as usize;
        let mut points: Vec<i32> = Vec::new();
        let mut y: usize = 0;
        while y < height
            invariant
                dims_ok(height as nat, width as nat, end_turn as nat),
                own_y < height,
                own_x < width,
                y <= height,
                points@.len() == y * width,
                forall|i: int| 0 <= i < points@.len() ==> 0 <= #[trigger] points@[i] <= MAX_POINT,
                y > own_y ==> points@[own_y * width + own_x] == 0,
            decreases height - y,
        {
            let mut x: usize = 0;
            while x < width
                invariant
                    dims_ok(height as nat, width as nat, end_turn as nat),
                    own_y < height,
                    own_x < width,
                    y < height,
                    x <= width,
                    points@.len() == y * width + x,
                    forall|i: int| 0 <= i < points@.len() ==> 0 <= #[trigger] points@[i] <= MAX_POINT,
                    y > own_y ==> points@[own_y * width + own_x] == 0,
                    y == own_y && x > own_x ==> points@[own_y * width + own_x] == 0,
                decreases width - x,
            {
                proof {
                    lemma_cell_in_range(height as int, width as int, own_y as int, own_x as int);
                    lemma_cell_in_range(height as int, width as int, y as int, x as int);
                    if y > own_y {
                        lemma_cell_in_range(y as int, width as int, own_y as int, own_x as int);
                    }
                }
                if y == own_y && x == own_x {
                    points.push(0);
                } else {
                    let point: i32 = rng.range_i32(0, MAX_POINT + 1);
                    points.push(point);
                }
                x = x + 1;
            }
            proof {
                assert(y * width + width == (y + 1) * width) by (nonlinear_arith);
            }
            y = y + 1;
        }
        let state = MazeState {
            character,
            points,
            height,
            width,
            end_turn,
            turn: 0,
            game_score: 0,
            evaluated_score: 0,
            first_action: None,
        };
        proof {
            assert(MAX_POINT * (end_turn - 0) == MAX_POINT * end_turn);
        }
        Some(state)
    }

    /// A state at the start of a game on a random board, from the standard
    /// generator with the given seed, or with a seed that the system supplies
    /// where none is given. See [`MazeState::generate`].
    pub fn new(height: usize, width: usize, end_turn: usize, seed: Option<u64>) -> (state: Option<
        Self,
    >)
        ensures
            state is Some <==> dims_ok(height as nat, width as nat, end_turn as nat),
            state matches Some(s) ==> {
                &&& s.wf()
                &&& s@.height == height
                &&& s@.width == width
                &&& s@.end_turn == end_turn
                &&& s@.turn == 0
                &&& s@.game_score == 0
                &&& s@.evaluated_score == 0
                &&& s@.first_action is None
                &&& s@.points[s@.cell(s@.character.0, s@.character.1)] == 0
            },
    {
        let mut rng_for_construct = GameRng::from_optional_seed(seed);
        MazeState::generate(height, width, end_turn, &mut rng_for_construct)
    }

    /// A state at the start of a game on the given board, with the character
    /// on the given cell. `None` unless the board and the game length are ones
    /// that a state can have, the character stands on the board, and `points`
    /// holds the cells row after row, each from 0 to 9.
    pub fn from_parts(
        height: usize,
        width: usize,
        end_turn: usize,
        character: Coord,
        points: Vec<i32>,
    ) -> (state: Option<Self>)
        ensures
            state is Some <==> {
                &&& dims_ok(height as nat, width as nat, end_turn as nat)
                &&& 0 <= character.y < height
                &&& 0 <= character.x < width
                &&& points@.len() == height * width
                &&& forall|i: int| 0 <= i < points@.len() ==> 0 <= #[trigger] points@[i] <= MAX_POINT
            },
            state matches Some(s) ==> {
                &&& s.wf()
                &&& s@.height == height
                &&& s@.width == width
                &&& s@.end_turn == end_turn
                &&& s@.character == (character.y as int, character.x as int)
                &&& s@.points == points@
                &&& s@.turn == 0
                &&& s@.game_score == 0
                &&& s@.evaluated_score == 0
                &&& s@.first_action is None
            },
    {
        if !dims_fit(height, width, end_turn) {
            return None;
        }
        if character.y < 0 || character.x < 0 {
            return None;
        }
        if character.y as usize >= height || character.x as usize >= width {
            return None;
        }
        if points.len() != height * width {
            return None;
        }
        let mut i: usize = 0;
        while i < points.len()
            invariant
                i <= points@.len(),
                forall|k: int| 0 <= k < i ==> 0 <= #[trigger] points@[k] <= MAX_POINT,
            decreases points@.len() - i,
        {
            if points[i] < 0 || points[i] > MAX_POINT {
                return None;
            }
            i = i + 1;
        }
        proof {
            assert(MAX_POINT * (end_turn - 0) == MAX_POINT * end_turn);
        }
        Some(
            MazeState {
                character,
                points,
                height,
                width,
                end_turn,
                turn: 0,
                game_score: 0,
                evaluated_score: 0,
                first_action: None,
            },
        )
    }

    /// The score by which a search ranks this state.
    pub fn evaluated_score(&self) -> (score: i32)
        ensures
            score == self@.evaluated_score,
    {
        self.evaluated_score
    }

    /// The points collected so far.
    pub fn game_score(&self) -> (score: i32)
        ensures
            score == self@.game_score,
    {
        self.game_score
    }

    /// The number of turns played.
    pub fn turn(&self) -> (turn: usize)
        ensures
            turn == self@.turn,
    {
        self.turn
    }

    /// The turn at which the game ends.
    pub fn end_turn(&self) -> (end_turn: usize)
        ensures
            end_turn == self@.end_turn,
    {
        self.end_turn
    }

    /// The number of rows of the board.
    pub fn height(&self) -> (height: usize)
        ensures
            height == self@.height,
    {
        self.height
    }

    /// The number of columns of the board.
    pub fn width(&self) -> (width: usize)
        ensures
            width == self@.width,
    {
        self.width
    }

    /// Where the character stands.
    pub fn character(&self) -> (at: Coord)
        ensures
            (at.y as int, at.x as int) == self@.character,
    {
        self.character
    }

    /// The points of the cell in row `y`, column `x`.
    pub fn point_at(&self, y: usize, x: usize) -> (point: i32)
        requires
            self.wf(),
            self@.in_board(y as int, x as int),
        ensures
            point == self@.points[self@.cell(y as int, x as int)],
    {
        proof {
            lemma_cell_in_range(self.height as int, self.width as int, y as int, x as int);
        }
        self.points[y * self.width + x]
    }

    /// The move made at the root of the search that reached this state, if a
    /// search has tagged it.
    pub fn first_action(&self) -> (action: Option<usize>)
        ensures
            action == self@.first_action,
    {
        self.first_action
    }

    /// Tags the state with the root move that led to it.
    pub fn set_first_action(&mut self, action: usize)
        ensures
            final(self)@ == old(self)@.stamp(action),
    {
        self.first_action = Some(action);
    }

    /// True when no turns remain.
    pub fn is_done(&self) -> (done: bool)
        ensures
            done == self@.is_done(),
    {
        self.turn == self.end_turn
    }

    /// Brings the ranking score up to date: it becomes the game score.
    pub fn evaluate_score(&mut self)
        ensures
            final(self)@ == old(self)@.evaluate(),
    {
        self.evaluated_score = self.game_score;
    }

    /// Plays one move: the character steps in the given direction, collects
    /// the points of the cell it lands on, and a turn passes.
    pub fn advance(&mut self, action: usize)
        requires
            old(self).wf(),
            !old(self)@.is_done(),
            old(self)@.legal(action as int),
        ensures
            final(self)@ == old(self)@.advance(action as int),
            final(self).wf(),
    {
        proof {
            lemma_advance_wf(self@, action as int);
            let (ty, tx) = self@.target(action as int);
            lemma_cell_in_range(self.height as int, self.width as int, ty, tx);
        }
        let (step_y, step_x) = step_of(action);
        let y: i32 = self.character.y + step_y;
        let x: i32 = self.character.x + step_x;
        self.character = Coord::new(y, x);
        let at: usize = (y as usize) * self.width + (x as usize);
        let point: i32 = self.points[at];
        if point > 0 {
            self.game_score = self.game_score + point;
            self.points.set(at, 0);
        }
        self.turn = self.turn + 1;
        assert(self@.points =~= old(self)@.advance(action as int).points);
    }

    /// The text form of the state: the turn, the score, and the board with
    /// `@` for the character, a digit for a cell with points and `.` for an
    /// empty cell.
    pub fn to_string(&self) -> (result: String)
        requires
            self.wf(),
        ensures
            result@ == self@.text(),
    {
        let mut result = String::new();
        push_header(&mut result, self.turn, self.game_score as usize);
        assert(result@ =~= header(self@.turn, self@.game_score as nat));
        let mut h: usize = 0;
        while h < self.height
            invariant
                self.wf(),
                h <= self.height,
                result@ == header(self@.turn, self@.game_score as nat) + self@.board_text(
                    h as nat,
                ),
            decreases self.height - h,
        {
            let ghost before = result@;
            let mut w: usize = 0;
            while w < self.width
                invariant
                    self.wf(),
                    h < self.height,
                    w <= self.width,
                    result@ == before + self@.row_text(h as int, w as nat),
                decreases self.width - w,
            {
                proof {
                    lemma_cell_in_range(self.height as int, self.width as int, h as int, w as int);
                    reveal_strlit("@");
                    reveal_strlit(".");
                }
                let point: i32 = self.points[h * self.width + w];
                if self.character.y as usize == h && self.character.x as usize == w {
                    push_mark(&mut result, "@");
                } else if point > 0 {
                    push_digit(&mut result, point as usize);
                } else {
                    push_mark(&mut result, ".");
                }
                assert(result@ =~= before + self@.row_text(h as int, (w + 1) as nat));
                w = w + 1;
            }
            proof {
                reveal_strlit("\n");
            }
            push_mark(&mut result, "\n");
            assert(result@ =~= header(self@.turn, self@.game_score as nat) + self@.board_text(
                (h + 1) as nat,
            ));
            h = h + 1;
        }
        result
    }

    /// The text form of the state; see [`MazeState::to_string`].
    pub fn _to_string(&self) -> (result: String)
        requires
            self.wf(),
        ensures
            result@ == self@.text(),
    {
        self.to_string()
    }

    /// The directions that stay on the board, in increasing order.
    pub fn legal_actions(&self) -> (actions: Vec<usize>)
        requires
            self.wf(),
        ensures
            actions@ == self@.legal_actions(),
            actions@.len() > 0,
            forall|i: int| 0 <= i < actions@.len() ==> self@.legal(#[trigger] actions@[i] as int),
            forall|action: usize| self@.legal(action as int) ==> actions@.contains(action),
    {
        let mut actions: Vec<usize> = Vec::new();
        let mut action: usize = 0;
        while action < ACTION_COUNT
            invariant
                self.wf(),
                action <= ACTION_COUNT,
                actions@ == self@.legal_below(action as nat),
            decreases ACTION_COUNT - action,
        {
            let (step_y, step_x) = step_of(action);
            let ty: i32 = self.character.y + step_y;
            let tx: i32 = self.character.x + step_x;
            if ty >= 0 && (ty as usize) < self.height && tx >= 0 && (tx as usize) < self.width {
                actions.push(action);
            }
            action = action + 1;
        }
        proof {
            lemma_legal_actions_nonempty(self@);
            lemma_legal_below(self@, ACTION_COUNT as nat);
        }
        actions
    }
}

} // verus!
