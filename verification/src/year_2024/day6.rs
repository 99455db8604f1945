//! A guard walks a room with obstacles: straight on while the way is
//! free, and a quarter turn to the right before an obstacle. The puzzle
//! asks how many places the guard visits before leaving the room, and in
//! how many places a new obstacle would keep the guard walking for ever.

use crate::common::distinct::count_distinct;
use crate::common::grid_board::{
    coords_holding, lemma_holding_grows, on_board, rectangular, same_shape, width_of, Board, Xy,
};
use crate::common::text::{chars_of, lines_of, split_lines, string_of};
use vstd::prelude::*;

verus! {

/// The occupancy of the room: `true` where an obstacle stands.
pub type Grid = Vec<Vec<bool>>;

/// A column and a row of the room.
pub type Coords = (usize, usize);

#[derive(Clone, Copy, Debug, Eq, Hash, PartialEq, Structural)]
pub enum Facing {
    North,
    East,
    South,
    West,
}

/// The character that shows a facing.
pub open spec fn facing_glyph(f: Facing) -> char {
    match f {
        Facing::North => '^',
        Facing::East => '>',
        Facing::South => 'v',
        Facing::West => '<',
    }
}

/// The facing that a character shows.
pub open spec fn facing_of(c: char) -> Option<Facing> {
    if c == '^' {
        Some(Facing::North)
    } else if c == '>' {
        Some(Facing::East)
    } else if c == 'v' {
        Some(Facing::South)
    } else if c == '<' {
        Some(Facing::West)
    } else {
        None
    }
}

/// The facing after a quarter turn to the right.
pub open spec fn turned(f: Facing) -> Facing {
    match f {
        Facing::North => Facing::East,
        Facing::East => Facing::South,
        Facing::South => Facing::West,
        Facing::West => Facing::North,
    }
}

/// The step of a facing: columns to the right and rows downward.
pub open spec fn step_of(f: Facing) -> (int, int) {
    match f {
        Facing::North => (0, -1),
        Facing::East => (1, 0),
        Facing::South => (0, 1),
        Facing::West => (-1, 0),
    }
}

/// The number of a facing, from 0 for north clockwise to 3 for west.
pub open spec fn facing_index(f: Facing) -> int {
    match f {
        Facing::North => 0,
        Facing::East => 1,
        Facing::South => 2,
        Facing::West => 3,
    }
}

impl Facing {
    pub fn repr(&self) -> (c: char)
        ensures
            c == facing_glyph(*self),
    {
        match self {
            Facing::North => '^',
            Facing::East => '>',
            Facing::South => 'v',
            Facing::West => '<',
        }
    }

    pub fn from_char(c: char) -> (r: Option<Facing>)
        ensures
            r == facing_of(c),
    {
        match c {
            '^' => Some(Facing::North),
            '>' => Some(Facing::East),
            'v' => Some(Facing::South),
            '<' => Some(Facing::West),
            _ => None,
        }
    }

    pub fn clockwise(&self) -> (r: Facing)
        ensures
            r == turned(*self),
    {
        match self {
            Facing::North => Facing::East,
            Facing::East => Facing::South,
            Facing::South => Facing::West,
            Facing::West => Facing::North,
        }
    }

    pub fn offset(&self) -> (r: (i8, i8))
        ensures
            (r.0 as int, r.1 as int) == step_of(*self),
    {
        match self {
            Facing::North => (0, -1),
            Facing::East => (1, 0),
            Facing::South => (0, 1),
            Facing::West => (-1, 0),
        }
    }

    /// The number of the facing.
    pub fn index(&self) -> (r: usize)
        ensures
            r == facing_index(*self),
    {
        match self {
            Facing::North => 0,
            Facing::East => 1,
            Facing::South => 2,
            Facing::West => 3,
        }
    }
}

/// The guard in the room.
#[derive(Debug)]
pub struct GameState {
    pub position: Coords,
    pub facing: Facing,
    pub grid: Grid,
}

/// The guard in the room, in mathematical terms.
pub struct Game {
    pub x: int,
    pub y: int,
    pub facing: Facing,
    pub grid: Seq<Seq<bool>>,
}

/// The rows of a grid.
pub open spec fn grid_rows(grid: Seq<Vec<bool>>) -> Seq<Seq<bool>> {
    grid.map_values(|row: Vec<bool>| row@)
}

impl View for GameState {
    type V = Game;

    open spec fn view(&self) -> Game {
        Game {
            x: self.position.0 as int,
            y: self.position.1 as int,
            facing: self.facing,
            grid: grid_rows(self.grid@),
        }
    }
}

/// Whether a room is one that the guard can walk: a rectangle of at least
/// one row, neither side longer than the largest `i32`, and four marks for
/// each place within what a board holds.
pub open spec fn walkable(grid: Seq<Seq<bool>>) -> bool {
    &&& rectangular(grid)
    &&& grid.len() <= i32::MAX
    &&& width_of(grid) <= i32::MAX
    &&& 1 <= width_of(grid)
    &&& grid.len() * (4 * width_of(grid)) <= usize::MAX
}

/// Whether the guard stands in a room that can be walked.
pub open spec fn in_room(g: Game) -> bool {
    walkable(g.grid) && on_board(g.grid, g.x, g.y)
}

/// The place before the guard, if it is in the room.
pub open spec fn place_ahead(g: Game) -> Option<(int, int)> {
    let (nx, ny) = (g.x + step_of(g.facing).0, g.y + step_of(g.facing).1);
    if on_board(g.grid, nx, ny) {
        Some((nx, ny))
    } else {
        None
    }
}

/// The guard after one move: a quarter turn to the right before an
/// obstacle, and else a step ahead. `None` if the step leaves the room.
pub open spec fn stepped(g: Game) -> Option<Game> {
    match place_ahead(g) {
        None => None,
        Some((nx, ny)) => if g.grid[ny][nx] {
            Some(Game { facing: turned(g.facing), ..g })
        } else {
            Some(Game { x: nx, y: ny, ..g })
        },
    }
}

/// The guard after `k` moves. `None` once a move has left the room.
pub open spec fn state_after(g: Game, k: nat) -> Option<Game>
    decreases k,
{
    if k == 0 {
        Some(g)
    } else {
        match state_after(g, (k - 1) as nat) {
            Some(s) => stepped(s),
            None => None,
        }
    }
}

/// A move keeps the guard in the room.
pub proof fn lemma_stepped_in_room(g: Game)
    requires
        in_room(g),
    ensures
        stepped(g) matches Some(s) ==> in_room(s) && s.grid == g.grid,
{
}

impl GameState {
    /// Whether the guard stands in a room that can be walked.
    pub open spec fn wf(&self) -> bool {
        in_room(self@)
    }

    pub fn h(&self) -> (r: usize)
        ensures
            r == self@.grid.len(),
    {
        self.grid.len()
    }

    pub fn w(&self) -> (r: usize)
        requires
            self@.grid.len() > 0,
        ensures
            r == width_of(self@.grid),
    {
        assert(self@.grid[0] == self.grid@[0]@);
        self.grid[0].len()
    }

    pub fn at(&self, xy: Coords) -> (r: bool)
        requires
            xy.1 < self@.grid.len(),
            xy.0 < self@.grid[xy.1 as int].len(),
        ensures
            r == self@.grid[xy.1 as int][xy.0 as int],
    {
        assert(self@.grid[xy.1 as int] == self.grid@[xy.1 as int]@);
        self.grid[xy.1][xy.0]
    }

    /// A copy of the state.
    pub fn copy(&self) -> (r: GameState)
        ensures
            r@ == self@,
    {
        let mut grid: Grid = Vec::new();
        let mut y: usize = 0;
        while y < self.grid.len()
            invariant
                y <= self.grid@.len(),
                grid@.len() == y,
                forall|j: int| 0 <= j < y ==> (#[trigger] grid@[j])@ == self.grid@[j]@,
            decreases self.grid@.len() - y,
        {
            let mut row: Vec<bool> = Vec::new();
            let mut x: usize = 0;
            while x < self.grid[y].len()
                invariant
                    y < self.grid@.len(),
                    x <= self.grid@[y as int]@.len(),
                    row@ == self.grid@[y as int]@.take(x as int),
                decreases self.grid@[y as int]@.len() - x,
            {
                row.push(self.grid[y][x]);
                x += 1;
            }
            grid.push(row);
            y += 1;
        }
        assert(grid_rows(grid@) =~= grid_rows(self.grid@));
        GameState { position: self.position, facing: self.facing, grid }
    }

    /// The place before the guard, if it is in the room.
    pub fn position_forward(&self) -> (r: Option<Coords>)
        requires
            self.wf(),
        ensures
            match place_ahead(self@) {
                Some((nx, ny)) => r is Some && (r->0).0 == nx && (r->0).1 == ny,
                None => r is None,
            },
    {
        let old_pos = self.position;
        let offset = self.facing.offset();
        let new_x: i64 = old_pos.0 as i64 + offset.0 as i64;
        let new_y: i64 = old_pos.1 as i64 + offset.1 as i64;
        if new_x < 0 || new_y < 0 {
            return None;
        }
        if new_x >= self.w() as i64 || new_y >= self.h() as i64 {
            None
        } else {
            Some((new_x as usize, new_y as usize))
        }
    }

    pub fn advance_game_state(&self) -> (r: Option<GameState>)
        requires
            self.wf(),
        ensures
            match stepped(self@) {
                Some(next) => r is Some && r->0@ == next && r->0.wf(),
                None => r is None,
            },
    {
        let next_pos = self.position_forward();
        match next_pos {
            None => None,
            Some(pos) => {
                if self.at(pos) {
                    let mut result = self.copy();
                    result.facing = self.facing.clockwise();
                    Some(result)
                } else {
                    let mut result = self.copy();
                    result.position = pos;
                    Some(result)
                }
            },
        }
    }

    /// Makes one move of the guard in place. Tells whether the guard is
    /// still in the room, and leaves the state as it is where not.
    pub fn step(&mut self) -> (inside: bool)
        requires
            old(self).wf(),
        ensures
            final(self).wf(),
            match stepped(old(self)@) {
                Some(next) => inside && final(self)@ == next,
                None => !inside && final(self)@ == old(self)@,
            },
    {
        match self.position_forward() {
            None => false,
            Some(pos) => {
                if self.at(pos) {
                    self.facing = self.facing.clockwise();
                } else {
                    self.position = pos;
                }
                true
            },
        }
    }

    /// The room as text: the guard as an arrow, `#` for an obstacle and
    /// `.` for a free place, with a line feed after every row.
    pub fn ascii_art(&self) -> (r: String)
        requires
            rectangular(self@.grid),
        ensures
            r@ == room_text(self@, self@.grid.len() as int),
    {
        let mut result: Vec<char> = Vec::new();
        let h = self.h();
        let w = self.w();
        let mut y: usize = 0;
        while y < h
            invariant
                rectangular(self@.grid),
                h == self@.grid.len(),
                w == width_of(self@.grid),
                y <= h,
                result@ == room_text(self@, y as int),
            decreases h - y,
        {
            let ghost before = result@;
            let mut x: usize = 0;
            while x < w
                invariant
                    rectangular(self@.grid),
                    h == self@.grid.len(),
                    w == width_of(self@.grid),
                    y < h,
                    x <= w,
                    result@ == before + row_text(self@, y as int).take(x as int),
                decreases w - x,
            {
                assert(self@.grid[y as int].len() == w);
                let c = if self.position.0 == x && self.position.1 == y {
                    self.facing.repr()
                } else if self.at((x, y)) {
                    '#'
                } else {
                    '.'
                };
                result.push(c);
                assert(result@ =~= before + row_text(self@, y as int).take(x as int + 1));
                x += 1;
            }
            result.push('\n');
            assert(result@ =~= room_text(self@, y as int + 1));
            y += 1;
        }
        string_of(&result)
    }

    /// The occupancy that lines of text show: an obstacle where a `#`
    /// stands.
    pub fn create_grid(lines: &Vec<String>) -> (r: Grid)
        ensures
            grid_rows(r@) == obstacles(lines.deep_view()),
    {
        let mut result: Grid = Vec::new();
        let mut y: usize = 0;
        while y < lines.len()
            invariant
                y <= lines@.len(),
                result@.len() == y,
                forall|j: int|
                    0 <= j < y ==> (#[trigger] result@[j])@ == lines@[j]@.map_values(
                        |c: char| c == '#',
                    ),
            decreases lines@.len() - y,
        {
            let chars = chars_of(lines[y].as_str());
            let mut grid_line: Vec<bool> = Vec::new();
            let mut x: usize = 0;
            while x < chars.len()
                invariant
                    x <= chars@.len(),
                    grid_line@ == chars@.take(x as int).map_values(|c: char| c == '#'),
                decreases chars@.len() - x,
            {
                grid_line.push(chars[x] == '#');
                assert(grid_line@ =~= chars@.take(x as int + 1).map_values(|c: char| c == '#'));
                x += 1;
            }
            assert(chars@.take(chars@.len() as int) =~= chars@);
            result.push(grid_line);
            y += 1;
        }
        assert(grid_rows(result@) =~= obstacles(lines.deep_view()));
        result
    }

    /// The first arrow of the lines, row by row: its facing and its
    /// place. `None` if there is none.
    pub fn detect_guard(lines: &Vec<String>) -> (r: Option<(Facing, Coords)>)
        ensures
            match r {
                Some((f, (x, y))) => is_first_arrow(lines.deep_view(), f, x as int, y as int),
                None => no_arrow_before(lines.deep_view(), 0, lines@.len() as int),
            },
    {
        let ghost texts = lines.deep_view();
        let mut y: usize = 0;
        while y < lines.len()
            invariant
                texts == lines.deep_view(),
                y <= lines@.len(),
                no_arrow_before(texts, 0, y as int),
            decreases lines@.len() - y,
        {
            let chars = chars_of(lines[y].as_str());
            assert(texts[y as int] == chars@);
            let mut x: usize = 0;
            while x < chars.len()
                invariant
                    texts == lines.deep_view(),
                    y < lines@.len(),
                    texts[y as int] == chars@,
                    x <= chars@.len(),
                    no_arrow_before(texts, x as int, y as int),
                decreases chars@.len() - x,
            {
                if let Some(f) = Facing::from_char(chars[x]) {
                    return Some((f, (x, y)));
                }
                x += 1;
            }
            y += 1;
        }
        None
    }

    /// Reads the room and the guard from lines of text. `None` if there is
    /// no guard, or the room cannot be walked.
    pub fn from_lines(lines: Vec<String>) -> (r: Option<GameState>)
        ensures
            match start_of(lines.deep_view()) {
                Some(game) => r is Some && r->0@ == game && r->0.wf(),
                None => r is None,
            },
    {
        let grid = GameState::create_grid(&lines);
        let ghost rows = obstacles(lines.deep_view());
        let (facing, position) = match GameState::detect_guard(&lines) {
            Some(found) => found,
            None => {
                assert(start_of(lines.deep_view()) is None) by {
                    if let Some(game) = start_of(lines.deep_view()) {
                        assert(is_first_arrow(lines.deep_view(), game.facing, game.x, game.y));
                    }
                }
                return None;
            },
        };
        proof {
            lemma_first_arrow_is_one(
                lines.deep_view(),
                facing,
                position.0 as int,
                position.1 as int,
            );
        }
        proof {
            let texts = lines.deep_view();
            assert(is_first_arrow(texts, facing, position.0 as int, position.1 as int));
            let (f, x, y) = choose|f: Facing, x: int, y: int| is_first_arrow(texts, f, x, y);
            assert(is_first_arrow(texts, f, x, y));
            assert(f == facing && x == position.0 && y == position.1);
        }
        if !is_walkable(&grid) {
            return None;
        }
        proof {
            let texts = lines.deep_view();
            assert(obstacles(texts)[position.1 as int].len() == texts[position.1 as int].len());
        }
        Some(GameState { position, facing, grid })
    }
}

/// The characters that show row `y` of the room.
pub open spec fn row_text(g: Game, y: int) -> Seq<char> {
    Seq::new(
        width_of(g.grid) as nat,
        |x: int|
            if g.x == x && g.y == y {
                facing_glyph(g.facing)
            } else if g.grid[y][x] {
                '#'
            } else {
                '.'
            },
    )
}

/// The text that shows the first `n` rows of the room.
pub open spec fn room_text(g: Game, n: int) -> Seq<char>
    decreases n,
{
    if n <= 0 {
        Seq::empty()
    } else {
        room_text(g, n - 1) + row_text(g, n - 1).push('\n')
    }
}

/// The occupancy that lines of text show.
pub open spec fn obstacles(lines: Seq<Seq<char>>) -> Seq<Seq<bool>> {
    lines.map_values(|line: Seq<char>| line.map_values(|c: char| c == '#'))
}

/// Whether no arrow stands in the rows above `y`, nor in row `y` left of
/// column `x`.
pub open spec fn no_arrow_before(lines: Seq<Seq<char>>, x: int, y: int) -> bool {
    forall|i: int, j: int|
        0 <= j < lines.len() && 0 <= i < lines[j].len() && (j < y || (j == y && i < x))
            ==> (#[trigger] facing_of(lines[j][i])) is None
}

/// Whether the first arrow of the lines, row by row, stands at column `x`
/// of row `y` and shows the facing `f`.
pub open spec fn is_first_arrow(lines: Seq<Seq<char>>, f: Facing, x: int, y: int) -> bool {
    &&& 0 <= y < lines.len()
    &&& 0 <= x < lines[y].len()
    &&& facing_of(lines[y][x]) == Some(f)
    &&& no_arrow_before(lines, x, y)
}

/// The guard and the room that the lines show, if there is an arrow and
/// the room can be walked.
pub open spec fn start_of(lines: Seq<Seq<char>>) -> Option<Game> {
    if exists|f: Facing, x: int, y: int| is_first_arrow(lines, f, x, y) {
        let (f, x, y) = choose|f: Facing, x: int, y: int| is_first_arrow(lines, f, x, y);
        if walkable(obstacles(lines)) {
            Some(Game { x, y, facing: f, grid: obstacles(lines) })
        } else {
            None
        }
    } else {
        None
    }
}

/// There is at most one first arrow.
pub proof fn lemma_first_arrow_is_one(lines: Seq<Seq<char>>, f: Facing, x: int, y: int)
    requires
        is_first_arrow(lines, f, x, y),
    ensures
        forall|g: Facing, i: int, j: int|
            is_first_arrow(lines, g, i, j) ==> g == f && i == x && j == y,
{
    assert forall|g: Facing, i: int, j: int| is_first_arrow(lines, g, i, j) implies g == f && i == x
        && j == y by {
        if j < y || (j == y && i < x) {
            assert(facing_of(lines[j][i]) is None);
        } else if y < j || (y == j && x < i) {
            assert(facing_of(lines[y][x]) is None);
        }
    }
}

/// Tells whether a room can be walked.
pub fn is_walkable(grid: &Grid) -> (r: bool)
    ensures
        r == walkable(grid_rows(grid@)),
{
    let ghost rows = grid_rows(grid@);
    let h = grid.len();
    if h == 0 || h > i32::MAX as usize {
        return false;
    }
    let w = grid[0].len();
    assert(rows[0] == grid@[0]@);
    if w == 0 || w > i32::MAX as usize {
        return false;
    }
    let fits = match w.checked_mul(4) {
        Some(wide) => h.checked_mul(wide).is_some(),
        None => false,
    };
    if !fits {
        assert(h * (4 * w) > usize::MAX) by (nonlinear_arith)
            requires
                1 <= h,
                0 <= w,
                4 * w > usize::MAX || h * (4 * w) > usize::MAX,
        ;
        return false;
    }
    assert(h * w <= h * (4 * w)) by (nonlinear_arith)
        requires
            0 <= h,
            0 <= w,
    ;
    let mut y: usize = 0;
    while y < h
        invariant
            rows == grid_rows(grid@),
            h == grid@.len(),
            w == rows[0].len(),
            y <= h,
            forall|j: int| 0 <= j < y ==> (#[trigger] rows[j]).len() == w,
        decreases h - y,
    {
        assert(rows[y as int] == grid@[y as int]@);
        if grid[y].len() != w {
            return false;
        }
        y += 1;
    }
    true
}


/// Where the guard stands and which way: the facing, the column and the
/// row.
pub open spec fn stand_of(g: Game) -> (Facing, (usize, usize)) {
    (g.facing, (g.x as usize, g.y as usize))
}

/// Whether the guard stands after `j` moves as after `i` moves before.
pub open spec fn repeats(g: Game, i: nat, j: nat) -> bool {
    i < j && state_after(g, i) is Some && state_after(g, i) == state_after(g, j)
}

/// Whether the guard comes back to a place and a facing, and so walks for
/// ever.
pub open spec fn loops(g: Game) -> bool {
    exists|i: nat, j: nat| #[trigger] repeats(g, i, j)
}

/// Whether `path` lists where the guard stands before each move, from the
/// start to the move that leaves the room.
pub open spec fn is_walk(g: Game, path: Seq<(Facing, (usize, usize))>) -> bool {
    &&& path.len() >= 1
    &&& forall|k: nat|
        k < path.len() ==> (#[trigger] state_after(g, k)) is Some && stand_of(state_after(g, k)->0)
            == path[k as int]
    &&& state_after(g, path.len()) is None
}

/// Once the guard has left the room, there are no more moves.
pub proof fn lemma_stays_out(g: Game, n: nat, m: nat)
    requires
        state_after(g, n) is None,
    ensures
        n <= m ==> state_after(g, m) is None,
    decreases m,
{
    if n < m {
        lemma_stays_out(g, n, (m - 1) as nat);
    }
}

/// A guard that comes back to a place and a facing is in the room after
/// any number of moves.
pub proof fn lemma_repeat_goes_on_until(g: Game, i: nat, j: nat, n: nat)
    requires
        repeats(g, i, j),
    ensures
        state_after(g, n) is Some,
    decreases n,
{
    if n <= j {
        if state_after(g, n) is None {
            lemma_stays_out(g, n, j);
        }
    } else {
        let back = (n - (j - i)) as nat;
        lemma_repeat_goes_on_until(g, i, j, back);
        lemma_same_from(g, i, j, (back - i) as nat);
        assert(i + (back - i) as nat == back);
        assert(j + (back - i) as nat == n);
    }
}

/// From a repeat on, the guard repeats every move.
pub proof fn lemma_same_from(g: Game, i: nat, j: nat, m: nat)
    requires
        repeats(g, i, j),
    ensures
        state_after(g, i + m) == state_after(g, j + m),
    decreases m,
{
    if m > 0 {
        lemma_same_from(g, i, j, (m - 1) as nat);
        assert(state_after(g, ((i + m) - 1) as nat) == state_after(g, ((j + m) - 1) as nat));
    }
}

/// A guard that leaves the room does not walk for ever.
pub proof fn lemma_walk_ends(g: Game, path: Seq<(Facing, (usize, usize))>)
    requires
        is_walk(g, path),
    ensures
        !loops(g),
{
    if loops(g) {
        let (i, j) = choose|i: nat, j: nat| #[trigger] repeats(g, i, j);
        lemma_repeat_goes_on_until(g, i, j, path.len());
    }
}

/// Every state of the walk is in the room of the start.
pub proof fn lemma_walk_stays_in_room(g: Game, k: nat)
    requires
        in_room(g),
    ensures
        state_after(g, k) matches Some(s) ==> in_room(s) && s.grid == g.grid,
    decreases k,
{
    if k > 0 {
        lemma_walk_stays_in_room(g, (k - 1) as nat);
        if let Some(s) = state_after(g, (k - 1) as nat) {
            lemma_stepped_in_room(s);
        }
    }
}

/// The mark of a stand on a board of four marks for each place.
pub open spec fn slot_of(stand: (Facing, (usize, usize))) -> (int, int) {
    (4 * stand.1.0 + facing_index(stand.0), stand.1.1 as int)
}

/// Whether one of the stands has the mark at column `col`, row `y`.
pub open spec fn marked_by(path: Seq<(Facing, (usize, usize))>, col: int, y: int) -> bool {
    exists|i: int| 0 <= i < path.len() && #[trigger] slot_of(path[i]) == (col, y)
}

/// For a guard in a room that can be walked, the stands before each move
/// until the guard leaves the room, or `None` if the guard comes back to a
/// place and a facing and so walks for ever.
pub fn visited_set(start: &GameState) -> (r: Option<Vec<(Facing, Coords)>>)
    requires
        start.wf(),
    ensures
        match r {
            Some(path) => is_walk(start@, path@),
            None => loops(start@),
        },
{
    let h = start.h();
    let w = start.w();
    assert(4 * w <= h * (4 * w)) by (nonlinear_arith)
        requires
            1 <= h,
            0 <= w,
    ;
    let mut seen: Board<bool> = Board::new(h, 4 * w, false);
    let mut visited: Vec<(Facing, Coords)> = Vec::new();
    let mut game = start.copy();
    let ghost area = h * (4 * w);
    proof {
        lemma_holding_grows(seen@, seen@, true);
    }
    loop
        invariant
            start.wf(),
            game.wf(),
            seen.wf(),
            h == start@.grid.len(),
            w == width_of(start@.grid),
            seen@.len() == h,
            width_of(seen@) == 4 * w,
            area == h * (4 * w),
            4 * w <= usize::MAX,
            game@.grid == start@.grid,
            state_after(start@, visited@.len()) == Some(game@),
            forall|k: nat|
                k < visited@.len() ==> (#[trigger] state_after(start@, k)) is Some && stand_of(
                    state_after(start@, k)->0,
                ) == visited@[k as int],
            forall|col: int, y: int|
                on_board(seen@, col, y) && #[trigger] seen@[y][col] ==> marked_by(visited@, col, y),
            coords_holding(seen@, true).len() <= area,
        decreases area - coords_holding(seen@, true).len(),
    {
        let stand = (game.facing, game.position);
        let slot = Xy::new((4 * game.position.0 + game.facing.index()) as i64, game.position.1 as i64);
        assert(slot_of(stand) == (slot.x as int, slot.y as int));
        assert(stand == stand_of(game@));
        if seen.at(slot) {
            proof {
                let i = choose|i: int|
                    0 <= i < visited@.len() && #[trigger] slot_of(visited@[i]) == (
                        slot.x as int,
                        slot.y as int,
                    );
                let earlier = state_after(start@, i as nat)->0;
                lemma_walk_stays_in_room(start@, i as nat);
                assert(stand_of(earlier) == visited@[i]);
                assert(visited@[i] == stand);
                assert(earlier == game@);
                assert(repeats(start@, i as nat, visited@.len()));
            }
            return None;
        }
        let ghost before = seen@;
        let ghost path = visited@;
        seen.set_at(slot, true);
        visited.push(stand);
        proof {
            lemma_holding_grows(before, seen@, true);
            assert(seen@[slot.y as int][slot.x as int] != before[slot.y as int][slot.x as int]);
            assert forall|col: int, y: int|
                on_board(seen@, col, y) && #[trigger] seen@[y][col] implies marked_by(
                visited@,
                col,
                y,
            ) by {
                if col == slot.x && y == slot.y {
                    assert(slot_of(visited@[path.len() as int]) == (col, y));
                } else {
                    assert(before[y][col]);
                    let i = choose|i: int| 0 <= i < path.len() && #[trigger] slot_of(path[i]) == (col, y);
                    assert(slot_of(visited@[i]) == (col, y));
                }
            }
        }
        if !game.step() {
            return Some(visited);
        }
    }
}

/// The places of the stands.
pub open spec fn places(path: Seq<(Facing, (usize, usize))>) -> Seq<Xy> {
    path.map_values(|stand: (Facing, (usize, usize))| Xy { x: stand.1.0 as i64, y: stand.1.1 as i64 })
}

/// Lists the places of the stands.
pub fn places_of(path: &Vec<(Facing, Coords)>) -> (r: Vec<Xy>)
    requires
        forall|i: int| 0 <= i < path@.len() ==> (#[trigger] path@[i]).1.0 <= i32::MAX && path@[i].1.1
            <= i32::MAX,
    ensures
        r@ == places(path@),
{
    let mut out: Vec<Xy> = Vec::new();
    let mut i: usize = 0;
    while i < path.len()
        invariant
            i <= path@.len(),
            forall|k: int| 0 <= k < path@.len() ==> (#[trigger] path@[k]).1.0 <= i32::MAX && path@[k].1.1
                <= i32::MAX,
            out@ == places(path@).take(i as int),
        decreases path@.len() - i,
    {
        let (_, (x, y)) = path[i];
        out.push(Xy::new(x as i64, y as i64));
        assert(out@ =~= places(path@).take(i as int + 1));
        i += 1;
    }
    assert(out@ =~= places(path@));
    out
}

/// The stands of a walk are in the room.
pub proof fn lemma_walk_within(g: Game, path: Seq<(Facing, (usize, usize))>)
    requires
        in_room(g),
        is_walk(g, path),
    ensures
        forall|i: int| 0 <= i < path.len() ==> on_board(g.grid, (#[trigger] path[i]).1.0 as int, path[i].1.1 as int),
{
    assert forall|i: int| 0 <= i < path.len() implies on_board(
        g.grid,
        (#[trigger] path[i]).1.0 as int,
        path[i].1.1 as int,
    ) by {
        lemma_walk_stays_in_room(g, i as nat);
        assert(stand_of(state_after(g, i as nat)->0) == path[i]);
    }
}

/// Whether `r` is the number of places that the guard visits before
/// leaving the room. `None` if the guard walks for ever or the number
/// leaves the range of `i32`.
pub open spec fn is_visit_count(g: Game, r: Option<i32>) -> bool {
    if loops(g) {
        r is None
    } else {
        exists|path: Seq<(Facing, (usize, usize))>| #[trigger]
            is_walk(g, path) && (if places(path).to_set().len() <= i32::MAX {
                r is Some && r->0 == places(path).to_set().len()
            } else {
                r is None
            })
    }
}

/// Counts the places that the guard visits.
pub fn count_visited(game: &GameState) -> (r: Option<i32>)
    requires
        game.wf(),
    ensures
        is_visit_count(game@, r),
{
    match visited_set(game) {
        Some(visited) => {
            proof {
                lemma_walk_within(game@, visited@);
                lemma_walk_ends(game@, visited@);
            }
            let count = count_distinct(&places_of(&visited));
            let r = if count > i32::MAX as usize {
                None
            } else {
                Some(count as i32)
            };
            assert(is_walk(game@, visited@));
            r
        },
        None => None,
    }
}

/// Whether `r` is the answer to the first part for the puzzle text.
pub open spec fn is_solution_a(text: Seq<char>, r: Option<i32>) -> bool {
    match start_of(lines_of(text)) {
        Some(g) => is_visit_count(g, r),
        None => r is None,
    }
}

pub fn day6(input: &str) -> (r: Option<i32>)
    ensures
        is_solution_a(input@, r),
{
    match GameState::from_lines(split_lines(input)) {
        Some(game) => count_visited(&game),
        None => None,
    }
}

/// The room with one more obstacle.
pub open spec fn with_obstacle(g: Game, at: Xy) -> Game {
    Game { grid: g.grid.update(at.y as int, g.grid[at.y as int].update(at.x as int, true)), ..g }
}

/// The test "an obstacle at this place makes the guard walk for ever".
pub open spec fn traps(g: Game) -> spec_fn(Xy) -> bool {
    |at: Xy| loops(with_obstacle(g, at))
}

/// Whether `r` is the number of places on the guard's way where a new
/// obstacle makes the guard walk for ever. `None` if the guard walks for
/// ever as it is, or the number leaves the range of `i32`.
pub open spec fn is_trap_count(g: Game, r: Option<i32>) -> bool {
    if loops(g) {
        r is None
    } else {
        exists|path: Seq<(Facing, (usize, usize))>| #[trigger]
            is_walk(g, path) && ({
                let count = places(path).filter(traps(g)).to_set().len();
                if count <= i32::MAX {
                    r is Some && r->0 == count
                } else {
                    r is None
                }
            })
    }
}

/// Puts an obstacle into the room.
pub fn obstruct(game: &GameState, at: Coords) -> (r: GameState)
    requires
        game.wf(),
        on_board(game@.grid, at.0 as int, at.1 as int),
    ensures
        r.wf(),
        r@ == with_obstacle(game@, Xy { x: at.0 as i64, y: at.1 as i64 }),
{
    let mut altered = game.copy();
    let ghost before = altered.grid@;
    assert(game@.grid[at.1 as int] == before[at.1 as int]@);
    altered.grid[at.1][at.0] = true;
    proof {
        let rows = grid_rows(altered.grid@);
        let wanted = game@.grid.update(at.1 as int, game@.grid[at.1 as int].update(at.0 as int, true));
        assert forall|j: int| 0 <= j < rows.len() implies #[trigger] rows[j] == wanted[j] by {
            assert(rows[j] == altered.grid@[j]@);
            assert(game@.grid[j] == before[j]@);
        }
        assert(rows =~= wanted);
        assert forall|j: int| 0 <= j < wanted.len() implies (#[trigger] wanted[j]).len() == wanted[0].len() by {
            assert(game@.grid[j].len() == game@.grid[0].len());
        }
    }
    altered
}

/// Counts the places on the guard's way where a new obstacle makes the
/// guard walk for ever.
pub fn count_traps(game: &GameState) -> (r: Option<i32>)
    requires
        game.wf(),
    ensures
        is_trap_count(game@, r),
{
    let possible_obstacle_locs = match visited_set(game) {
        Some(visited) => visited,
        None => {
            return None;
        },
    };
    proof {
        lemma_walk_within(game@, possible_obstacle_locs@);
        lemma_walk_ends(game@, possible_obstacle_locs@);
    }
    let candidates = places_of(&possible_obstacle_locs);
    let ghost pred = traps(game@);
    let mut looping_obstacle_locs: Vec<Xy> = Vec::new();
    let mut i: usize = 0;
    proof {
        reveal(Seq::filter);
        assert(candidates@.take(0) =~= Seq::<Xy>::empty());
    }
    while i < possible_obstacle_locs.len()
        invariant
            game.wf(),
            pred == traps(game@),
            candidates@ == places(possible_obstacle_locs@),
            i <= possible_obstacle_locs@.len(),
            forall|k: int|
                0 <= k < possible_obstacle_locs@.len() ==> on_board(
                    game@.grid,
                    (#[trigger] possible_obstacle_locs@[k]).1.0 as int,
                    possible_obstacle_locs@[k].1.1 as int,
                ),
            looping_obstacle_locs@ == candidates@.take(i as int).filter(pred),
        decreases possible_obstacle_locs@.len() - i,
    {
        let (_, xy) = possible_obstacle_locs[i];
        let altered_game = obstruct(game, xy);
        let trapped = match visited_set(&altered_game) {
            Some(way_out) => {
                proof {
                    lemma_walk_ends(altered_game@, way_out@);
                }
                false
            },
            None => true,
        };
        proof {
            assert(candidates@[i as int] == (Xy { x: xy.0 as i64, y: xy.1 as i64 }));
            assert(trapped == pred(candidates@[i as int]));
            assert(candidates@.take(i as int + 1) =~= candidates@.take(i as int).push(
                candidates@[i as int],
            ));
            candidates@.take(i as int).lemma_filter_push(candidates@[i as int], pred);
        }
        if trapped {
            looping_obstacle_locs.push(candidates[i]);
        }
        i += 1;
    }
    assert(candidates@.take(candidates@.len() as int) =~= candidates@);
    let count = count_distinct(&looping_obstacle_locs);
    let r = if count > i32::MAX as usize {
        None
    } else {
        Some(count as i32)
    };
    assert(is_walk(game@, possible_obstacle_locs@));
    r
}

/// Whether `r` is the answer to the second part for the puzzle text.
pub open spec fn is_solution_b(text: Seq<char>, r: Option<i32>) -> bool {
    match start_of(lines_of(text)) {
        Some(g) => is_trap_count(g, r),
        None => r is None,
    }
}

pub fn day6b(input: &str) -> (r: Option<i32>)
    ensures
        is_solution_b(input@, r),
{
    match GameState::from_lines(split_lines(input)) {
        Some(game) => count_traps(&game),
        None => None,
    }
}

} // verus!
