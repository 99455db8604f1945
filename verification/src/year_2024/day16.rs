//! A maze with a start and an end. A walker stands on a place and faces a
//! direction; a step ahead costs 1 and a quarter turn 1000.

use crate::common::grid_board::{
    decodable, on_board, rectangular, strict_rows, width_of, Board, Direction, Glyph, Matchable,
    Scalar, Xy,
};
use crate::common::text::{chars_of, lines_of, split_lines};
use std::cmp::Ordering;
use vstd::prelude::*;

verus! {

#[derive(Debug, Clone, Copy, PartialEq, Eq, PartialOrd, Ord, Hash, Structural)]
pub enum BoardContent {
    Wall,
    Empty,
}

impl Glyph for BoardContent {
    /// `#` is a wall; `.`, the start `S` and the end `E` are free.
    open spec fn decode(c: char) -> Option<BoardContent> {
        if c == '#' {
            Some(BoardContent::Wall)
        } else if c == '.' || c == 'S' || c == 'E' {
            Some(BoardContent::Empty)
        } else {
            None
        }
    }

    open spec fn encode(self) -> char {
        match self {
            BoardContent::Wall => '#',
            BoardContent::Empty => '.',
        }
    }

    fn from_glyph(c: char) -> (r: Option<BoardContent>) {
        match c {
            '#' => Some(BoardContent::Wall),
            '.' | 'S' | 'E' => Some(BoardContent::Empty),
            _ => None,
        }
    }

    fn to_glyph(self) -> (c: char) {
        match self {
            BoardContent::Wall => '#',
            BoardContent::Empty => '.',
        }
    }
}

impl Matchable for BoardContent {
    fn same(&self, other: &Self) -> (r: bool) {
        *self == *other
    }
}

/// Where the walker stands and which way it faces.
#[derive(Debug, Clone, Copy, PartialEq, Eq, Hash, Structural)]
pub struct State {
    pub position: Xy,
    pub facing: Direction,
}

/// The number of a direction, from 0 for north clockwise to 3 for west.
pub open spec fn direction_index(d: Direction) -> int {
    match d {
        Direction::North => 0,
        Direction::East => 1,
        Direction::South => 2,
        Direction::West => 3,
    }
}

/// Whether one state comes before another: by column, then by row, then by
/// facing.
pub open spec fn comes_before(a: State, b: State) -> bool {
    a.position.x < b.position.x || (a.position.x == b.position.x && (a.position.y < b.position.y || (
    a.position.y == b.position.y && direction_index(a.facing) < direction_index(b.facing))))
}

/// The number of a direction.
fn index_of(d: Direction) -> (r: u8)
    ensures
        r == direction_index(d),
{
    match d {
        Direction::North => 0,
        Direction::East => 1,
        Direction::South => 2,
        Direction::West => 3,
    }
}

impl State {
    /// Compares two states by column, then by row, then by facing.
    pub fn cmp(&self, other: &Self) -> (r: Ordering)
        ensures
            r is Less <==> comes_before(*self, *other),
            r is Greater <==> comes_before(*other, *self),
            r is Equal <==> *self == *other,
    {
        if self.position.x < other.position.x {
            Ordering::Less
        } else if self.position.x > other.position.x {
            Ordering::Greater
        } else if self.position.y < other.position.y {
            Ordering::Less
        } else if self.position.y > other.position.y {
            Ordering::Greater
        } else if index_of(self.facing) < index_of(other.facing) {
            Ordering::Less
        } else if index_of(self.facing) > index_of(other.facing) {
            Ordering::Greater
        } else {
            Ordering::Equal
        }
    }
}

/// A maze with its start and its end.
#[derive(Debug)]
pub struct Puzzle {
    pub board: Board<BoardContent>,
    pub start: Xy,
    pub end: Xy,
    pub start_direction: Direction,
}

/// The place of the last `mark` in the rows above `y` and in row `y` left
/// of column `x`, row by row, or `(-1, -1)` if there is none.
pub open spec fn last_mark(lines: Seq<Seq<char>>, mark: char, x: int, y: int) -> (int, int)
    decreases y, x,
{
    if y < 0 || (y == 0 && x <= 0) {
        (-1, -1)
    } else if x <= 0 {
        last_mark(lines, mark, lines[y - 1].len() as int, y - 1)
    } else if lines[y][x - 1] == mark {
        (x - 1, y)
    } else {
        last_mark(lines, mark, x - 1, y)
    }
}

/// Whether lines of text show a maze.
pub open spec fn is_maze(lines: Seq<Seq<char>>) -> bool {
    rectangular(lines) && decodable::<BoardContent>(lines)
}

impl Puzzle {
    /// Whether the maze is a board.
    pub open spec fn wf(&self) -> bool {
        self.board.wf()
    }

    /// Reads a maze: its walls, and the last `S` and the last `E` as its
    /// start and its end. `None` if the lines are no rectangle or hold
    /// another character than `#`, `.`, `S` and `E`.
    pub fn from_strings(input: Vec<String>) -> (r: Option<Puzzle>)
        ensures
            match r {
                Some(puzzle) => {
                    let lines = input.deep_view();
                    &&& is_maze(lines)
                    &&& puzzle.wf()
                    &&& puzzle.board@ == strict_rows::<BoardContent>(lines)
                    &&& (puzzle.start.x as int, puzzle.start.y as int) == last_mark(
                        lines,
                        'S',
                        0,
                        lines.len() as int,
                    )
                    &&& (puzzle.end.x as int, puzzle.end.y as int) == last_mark(
                        lines,
                        'E',
                        0,
                        lines.len() as int,
                    )
                    &&& puzzle.start_direction == Direction::East
                },
                None => !is_maze(input.deep_view()),
            },
    {
        let board = match Board::<BoardContent>::try_from_strings(&input) {
            Some(board) => board,
            None => {
                return None;
            },
        };
        let ghost lines = input.deep_view();
        let mut start: Xy = Xy::new(-1, -1);
        let mut end: Xy = Xy::new(-1, -1);
        let start_direction = Direction::East;
        let mut y: usize = 0;
        while y < input.len()
            invariant
                lines == input.deep_view(),
                rectangular(lines),
                y <= input@.len(),
                (start.x as int, start.y as int) == last_mark(lines, 'S', 0, y as int),
                (end.x as int, end.y as int) == last_mark(lines, 'E', 0, y as int),
            decreases input@.len() - y,
        {
            let row = chars_of(input[y].as_str());
            assert(lines[y as int] == row@);
            assert(lines[y as int].len() == width_of(lines));
            let mut x: usize = 0;
            while x < row.len()
                invariant
                    lines == input.deep_view(),
                    rectangular(lines),
                    y < input@.len(),
                    lines[y as int] == row@,
                    row@.len() <= i64::MAX,
                    x <= row@.len(),
                    (start.x as int, start.y as int) == last_mark(lines, 'S', x as int, y as int)
                        || (x == 0 && (start.x as int, start.y as int) == last_mark(
                        lines,
                        'S',
                        0,
                        y as int,
                    )),
                    (end.x as int, end.y as int) == last_mark(lines, 'E', x as int, y as int) || (x
                        == 0 && (end.x as int, end.y as int) == last_mark(lines, 'E', 0, y as int)),
                decreases row@.len() - x,
            {
                let c = row[x];
                if c == 'S' {
                    start = Xy::new(x as Scalar, y as Scalar);
                }
                if c == 'E' {
                    end = Xy::new(x as Scalar, y as Scalar);
                }
                x += 1;
            }
            y += 1;
        }
        Some(Puzzle { board, start, end, start_direction })
    }

    pub fn initial_state(&self) -> (r: State)
        ensures
            r == (State { position: self.start, facing: self.start_direction }),
    {
        State { position: self.start, facing: self.start_direction }
    }

    /// The states that follow a state, each with its cost: a quarter turn
    /// to the right, a quarter turn to the left, and a step ahead where the
    /// place ahead is free.
    pub fn next_states(&self, state: &State) -> (r: Vec<(State, Scalar)>)
        requires
            self.wf(),
            on_board(
                self.board@,
                state.position.x + state.facing.step().0,
                state.position.y + state.facing.step().1,
            ),
        ensures
            r@ == following(self.board@, *state),
    {
        let mut nexts: Vec<(State, Scalar)> = Vec::new();
        nexts.push((State { position: state.position, facing: state.facing.cw() }, 1000));
        nexts.push((State { position: state.position, facing: state.facing.ccw() }, 1000));
        let ahead = state.position.add(state.facing.to_offset());
        if self.board.at(ahead).same(&BoardContent::Empty) {
            nexts.push((State { position: ahead, facing: state.facing }, 1));
        }
        assert(nexts@ =~= following(self.board@, *state));
        nexts
    }

    /// A guess of the cost that is left: the sum of the differences in
    /// column and row between the state and the end.
    pub fn cost_heuristic(&self, state: State) -> (r: Scalar)
        requires
            i64::MIN <= state.position.x - self.end.x <= i64::MAX,
            i64::MIN <= state.position.y - self.end.y <= i64::MAX,
            i64::MIN <= (state.position.x - self.end.x) + (state.position.y - self.end.y) <= i64::MAX,
        ensures
            r == (state.position.x - self.end.x) + (state.position.y - self.end.y),
    {
        let diff = state.position.sub(self.end);
        diff.x + diff.y
    }

    /// The states in which a search ends: the start, facing each of the
    /// four directions.
    pub fn final_states(&self) -> (r: Vec<State>)
        ensures
            r@ == seq![
                State { position: self.start, facing: Direction::North },
                State { position: self.start, facing: Direction::East },
                State { position: self.start, facing: Direction::South },
                State { position: self.start, facing: Direction::West },
            ],
    {
        let mut states: Vec<State> = Vec::new();
        let mut i: usize = 0;
        while i < 4
            invariant
                i <= 4,
                states@.len() == i,
                forall|k: int|
                    0 <= k < i ==> states@[k] == (State {
                        position: self.start,
                        facing: Direction::ALL[k],
                    }),
            decreases 4 - i,
        {
            states.push(State { position: self.start, facing: Direction::ALL[i] });
            i += 1;
        }
        assert(states@ =~= seq![
            State { position: self.start, facing: Direction::North },
            State { position: self.start, facing: Direction::East },
            State { position: self.start, facing: Direction::South },
            State { position: self.start, facing: Direction::West },
        ]);
        states
    }

    /// A shortest way from the initial state to a final state. No way is
    /// ever found.
    pub fn pathfind(&self) -> (r: Vec<State>)
        ensures
            r@.len() == 0,
    {
        self.pathfind_from_to(&self.initial_state(), &self.final_states())
    }

    /// A shortest way from `start` to one of `end`. No way is ever found.
    pub fn pathfind_from_to(&self, start: &State, end: &Vec<State>) -> (r: Vec<State>)
        ensures
            r@.len() == 0,
    {
        Vec::new()
    }
}

/// The states that follow a state on a board, each with its cost.
pub open spec fn following(board: Seq<Seq<BoardContent>>, state: State) -> Seq<(State, i64)> {
    let turns = seq![
        (State { position: state.position, facing: state.facing.turned_cw() }, 1000i64),
        (State { position: state.position, facing: state.facing.turned_ccw() }, 1000i64),
    ];
    let (x, y) = (
        state.position.x + state.facing.step().0,
        state.position.y + state.facing.step().1,
    );
    if board[y][x] == BoardContent::Empty {
        turns.push((State { position: Xy { x: x as i64, y: y as i64 }, facing: state.facing }, 1i64))
    } else {
        turns
    }
}

/// A search for a shortest way through a maze.
pub struct Pathfinder {
    pub puzzle: Puzzle,
}

impl Pathfinder {
    /// Takes back the last step of the search; there is none to take back.
    pub fn backtrack(&mut self)
        ensures
            final(self).puzzle == old(self).puzzle,
    {
    }

    /// The way that the search finds, and its cost: no way, at no cost.
    pub fn astar() -> (r: (Vec<State>, Scalar))
        ensures
            r.0@.len() == 0,
            r.1 == 0,
    {
        (Vec::new(), 0)
    }
}

/// Whether `r` is the answer for the puzzle text: the width of the maze.
pub open spec fn is_solution_a(text: Seq<char>, r: Option<i64>) -> bool {
    if is_maze(lines_of(text)) {
        r is Some && r->0 == width_of(lines_of(text))
    } else {
        r is None
    }
}

/// Whether `r` is the answer to the second part for the puzzle text: the
/// same as to the first.
pub open spec fn is_solution_b(text: Seq<char>, r: Option<i64>) -> bool {
    is_solution_a(text, r)
}

pub fn day16(input: &str) -> (r: Option<i64>)
    ensures
        is_solution_a(input@, r),
{
    match Puzzle::from_strings(split_lines(input)) {
        Some(puzzle) => Some(puzzle.board.dimensions().x),
        None => None,
    }
}

pub fn day16b(input: &str) -> (r: Option<i64>)
    ensures
        is_solution_b(input@, r),
{
    day16(input)
}

} // verus!
