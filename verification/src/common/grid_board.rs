//! A rectangular board of cells addressed by signed coordinates, with the
//! four compass directions that move across it.

use crate::common::text::{chars_of, string_of};
use vstd::prelude::*;

verus! {

pub type Scalar = i64;

/// A column/row pair. `x` grows to the right and `y` grows downward from
/// the origin in the top-left corner. It serves both as a position and as
/// an offset between positions.
#[derive(Clone, Copy, Debug, PartialEq, Eq, Hash, Structural)]
pub struct Xy {
    pub x: Scalar,
    pub y: Scalar,
}

impl Xy {
    pub fn new(x: Scalar, y: Scalar) -> (r: Xy)
        ensures
            r == (Xy { x, y }),
    {
        Xy { x, y }
    }

    /// The component-wise sum, as a mathematical pair.
    pub open spec fn plus(self, other: Xy) -> (int, int) {
        (self.x + other.x, self.y + other.y)
    }

    /// The component-wise difference, as a mathematical pair.
    pub open spec fn minus(self, other: Xy) -> (int, int) {
        (self.x - other.x, self.y - other.y)
    }

    /// Whether a mathematical pair fits the coordinate type.
    pub open spec fn representable(p: (int, int)) -> bool {
        i64::MIN <= p.0 <= i64::MAX && i64::MIN <= p.1 <= i64::MAX
    }

    /// Vector addition; `None` exactly when a component leaves the range of
    /// the scalar type.
    pub fn checked_add(self, other: Xy) -> (r: Option<Xy>)
        ensures
            r is Some <==> Xy::representable(self.plus(other)),
            r matches Some(s) ==> (s.x as int, s.y as int) == self.plus(other),
    {
        match (self.x.checked_add(other.x), self.y.checked_add(other.y)) {
            (Some(x), Some(y)) => Some(Xy { x, y }),
            _ => None,
        }
    }

    /// Vector subtraction; `None` exactly when a component leaves the range
    /// of the scalar type.
    pub fn checked_sub(self, other: Xy) -> (r: Option<Xy>)
        ensures
            r is Some <==> Xy::representable(self.minus(other)),
            r matches Some(s) ==> (s.x as int, s.y as int) == self.minus(other),
    {
        match (self.x.checked_sub(other.x), self.y.checked_sub(other.y)) {
            (Some(x), Some(y)) => Some(Xy { x, y }),
            _ => None,
        }
    }

    /// Vector addition of two pairs whose sum is representable.
    pub fn add(self, other: Xy) -> (r: Xy)
        requires
            Xy::representable(self.plus(other)),
        ensures
            (r.x as int, r.y as int) == self.plus(other),
    {
        Xy { x: self.x + other.x, y: self.y + other.y }
    }

    /// Vector subtraction of two pairs whose difference is representable.
    pub fn sub(self, other: Xy) -> (r: Xy)
        requires
            Xy::representable(self.minus(other)),
        ensures
            (r.x as int, r.y as int) == self.minus(other),
    {
        Xy { x: self.x - other.x, y: self.y - other.y }
    }
}

/// One of the four compass directions.
#[derive(Debug, Clone, Copy, PartialEq, Eq, PartialOrd, Ord, Hash, Structural)]
pub enum Direction {
    North,
    East,
    South,
    West,
}

impl Direction {
    pub const ALL: [Direction; 4] = [
        Direction::North,
        Direction::East,
        Direction::South,
        Direction::West,
    ];

    /// The glyph that stands for a direction in text.
    pub open spec fn glyph(self) -> char {
        match self {
            Direction::North => '^',
            Direction::East => '>',
            Direction::South => 'v',
            Direction::West => '<',
        }
    }

    /// The direction a glyph stands for, if it is one of `^ > v <`.
    pub open spec fn of_glyph(c: char) -> Option<Direction> {
        if c == '^' {
            Some(Direction::North)
        } else if c == '>' {
            Some(Direction::East)
        } else if c == 'v' {
            Some(Direction::South)
        } else if c == '<' {
            Some(Direction::West)
        } else {
            None
        }
    }

    /// The unit step of a direction, as a mathematical pair.
    pub open spec fn step(self) -> (int, int) {
        match self {
            Direction::North => (0, -1),
            Direction::East => (1, 0),
            Direction::South => (0, 1),
            Direction::West => (-1, 0),
        }
    }

    /// The quarter turn to the right.
    pub open spec fn turned_cw(self) -> Direction {
        match self {
            Direction::North => Direction::East,
            Direction::East => Direction::South,
            Direction::South => Direction::West,
            Direction::West => Direction::North,
        }
    }

    /// The quarter turn to the left.
    pub open spec fn turned_ccw(self) -> Direction {
        match self {
            Direction::North => Direction::West,
            Direction::East => Direction::North,
            Direction::South => Direction::East,
            Direction::West => Direction::South,
        }
    }

    pub fn to_char(self) -> (c: char)
        ensures
            c == self.glyph(),
    {
        match self {
            Direction::North => '^',
            Direction::East => '>',
            Direction::South => 'v',
            Direction::West => '<',
        }
    }

    pub fn to_offset(self) -> (r: Xy)
        ensures
            (r.x as int, r.y as int) == self.step(),
    {
        match self {
            Direction::North => Xy::new(0, -1),
            Direction::East => Xy::new(1, 0),
            Direction::South => Xy::new(0, 1),
            Direction::West => Xy::new(-1, 0),
        }
    }

    /// Reads a glyph that is known to be one of `^ > v <`.
    pub fn from_char(c: char) -> (d: Direction)
        requires
            Direction::of_glyph(c) is Some,
        ensures
            Direction::of_glyph(c) == Some(d),
    {
        match c {
            '^' => Direction::North,
            '>' => Direction::East,
            'v' => Direction::South,
            _ => Direction::West,
        }
    }

    /// Reads any character; `None` for one that is not a direction glyph.
    pub fn try_from_char(c: char) -> (d: Option<Direction>)
        ensures
            d == Direction::of_glyph(c),
    {
        match c {
            '^' => Some(Direction::North),
            '>' => Some(Direction::East),
            'v' => Some(Direction::South),
            '<' => Some(Direction::West),
            _ => None,
        }
    }

    pub fn cw(&self) -> (d: Direction)
        ensures
            d == self.turned_cw(),
    {
        match self {
            Direction::North => Direction::East,
            Direction::East => Direction::South,
            Direction::South => Direction::West,
            Direction::West => Direction::North,
        }
    }

    pub fn ccw(&self) -> (d: Direction)
        ensures
            d == self.turned_ccw(),
    {
        match self {
            Direction::North => Direction::West,
            Direction::East => Direction::North,
            Direction::South => Direction::East,
            Direction::West => Direction::South,
        }
    }

    /// A right turn undoes a left turn and a left turn undoes a right turn.
    pub proof fn lemma_turns_cancel(d: Direction)
        ensures
            d.turned_ccw().turned_cw() == d,
            d.turned_cw().turned_ccw() == d,
    {
    }

    /// Four quarter turns in the same sense come back to the start.
    pub proof fn lemma_four_turns(d: Direction)
        ensures
            d.turned_cw().turned_cw().turned_cw().turned_cw() == d,
            d.turned_ccw().turned_ccw().turned_ccw().turned_ccw() == d,
    {
    }

    /// Every quarter rotation of a direction is a direction, and the four
    /// rotations of any one direction are the four directions.
    pub proof fn lemma_turns_reach_all(d: Direction, e: Direction)
        ensures
            e == d || e == d.turned_cw() || e == d.turned_cw().turned_cw()
                || e == d.turned_cw().turned_cw().turned_cw(),
    {
    }

    /// Different directions take different steps, and a quarter turn to
    /// the right turns the step of a direction a quarter to the right.
    pub proof fn lemma_steps(d: Direction, e: Direction)
        ensures
            d.step() == e.step() ==> d == e,
            d.turned_cw().step() == (-d.step().1, d.step().0),
            d.turned_ccw().step() == (d.step().1, -d.step().0),
    {
    }

    /// Glyphs and directions correspond one to one.
    pub proof fn lemma_glyph_round_trip(d: Direction, c: char)
        ensures
            Direction::of_glyph(d.glyph()) == Some(d),
            Direction::of_glyph(c) matches Some(e) ==> e.glyph() == c,
    {
    }
}


/// Whether rows form a board: at least one row, all rows of one length,
/// both dimensions within the coordinate type and the cell count within
/// `usize`.
pub open spec fn rectangular<T>(rows: Seq<Seq<T>>) -> bool {
    &&& 1 <= rows.len() <= i64::MAX
    &&& rows[0].len() <= i64::MAX
    &&& rows.len() * rows[0].len() <= usize::MAX
    &&& forall|y: int| 0 <= y < rows.len() ==> (#[trigger] rows[y]).len() == rows[0].len()
}

/// The number of columns of a board given by its rows.
pub open spec fn width_of<T>(rows: Seq<Seq<T>>) -> int {
    rows[0].len() as int
}

/// Whether column `x`, row `y` lies on the board.
pub open spec fn on_board<T>(rows: Seq<Seq<T>>, x: int, y: int) -> bool {
    0 <= x < width_of(rows) && 0 <= y < rows.len()
}

/// The cell at column `x`, row `y`, or `None` off the board.
pub open spec fn cell_at<T>(rows: Seq<Seq<T>>, x: int, y: int) -> Option<T> {
    if on_board(rows, x, y) {
        Some(rows[y][x])
    } else {
        None
    }
}

/// Two boards of the same shape.
pub open spec fn same_shape<T, U>(a: Seq<Seq<T>>, b: Seq<Seq<U>>) -> bool {
    a.len() == b.len() && width_of(a) == width_of(b)
}

/// The coordinates of row `y` from column `x0` up to, not including, `x1`.
pub open spec fn row_coords(x0: int, x1: int, y: int) -> Seq<Xy> {
    Seq::new(
        (if x1 > x0 {
            x1 - x0
        } else {
            0
        }) as nat,
        |i: int| Xy { x: (x0 + i) as i64, y: y as i64 },
    )
}

/// The coordinates of the half-open rectangle `[x0, x1) x [y0, y1)`, row by
/// row from the top, each row from the left.
pub open spec fn rect_coords(x0: int, x1: int, y0: int, y1: int) -> Seq<Xy>
    decreases y1 - y0,
{
    if y1 <= y0 {
        Seq::empty()
    } else {
        rect_coords(x0, x1, y0, y1 - 1) + row_coords(x0, x1, y1 - 1)
    }
}

/// The coordinates that a row-by-row walk of the rectangle has passed when
/// it stands at column `x` of row `y`.
pub open spec fn coords_before(x0: int, x1: int, y0: int, x: int, y: int) -> Seq<Xy> {
    rect_coords(x0, x1, y0, y) + row_coords(x0, x, y)
}

/// Whether column `x`, row `y` lies in the half-open rectangle spanned by
/// the corners `ul` and `br`.
pub open spec fn in_rect(ul: Xy, br: Xy, x: int, y: int) -> bool {
    ul.x <= x < br.x && ul.y <= y < br.y
}

/// The test "the cell at this coordinate holds `content`".
pub open spec fn holds<T>(rows: Seq<Seq<T>>, content: T) -> spec_fn(Xy) -> bool {
    |xy: Xy| cell_at(rows, xy.x as int, xy.y as int) == Some(content)
}

/// The coordinates of the cells that hold `content`, row by row.
pub open spec fn coords_holding<T>(rows: Seq<Seq<T>>, content: T) -> Seq<Xy> {
    rect_coords(0, width_of(rows), 0, rows.len() as int).filter(holds(rows, content))
}

/// The offsets of the four edge neighbours: north, east, south, west.
pub open spec fn cross4() -> Seq<(int, int)> {
    seq![(0, -1), (1, 0), (0, 1), (-1, 0)]
}

/// The offsets of the eight surrounding cells, clockwise from the east.
pub open spec fn ring8() -> Seq<(int, int)> {
    seq![(1, 0), (1, 1), (0, 1), (-1, 1), (-1, 0), (-1, -1), (0, -1), (1, -1)]
}

/// The cells found at the given offsets from `(x, y)`, in the order of the
/// offsets, leaving out those that fall off the board.
pub open spec fn cells_around<T>(rows: Seq<Seq<T>>, x: int, y: int, offsets: Seq<(int, int)>) -> Seq<T>
    decreases offsets.len(),
{
    if offsets.len() == 0 {
        Seq::empty()
    } else {
        let rest = cells_around(rows, x, y, offsets.drop_last());
        match cell_at(rows, x + offsets.last().0, y + offsets.last().1) {
            Some(c) => rest.push(c),
            None => rest,
        }
    }
}

/// Walking one column further adds that coordinate.
pub proof fn lemma_coords_step(x0: int, x1: int, y0: int, x: int, y: int)
    requires
        x0 <= x,
    ensures
        coords_before(x0, x1, y0, x + 1, y) == coords_before(x0, x1, y0, x, y).push(
            Xy { x: x as i64, y: y as i64 },
        ),
{
    assert(row_coords(x0, x + 1, y) =~= row_coords(x0, x, y).push(Xy { x: x as i64, y: y as i64 }));
    assert(coords_before(x0, x1, y0, x + 1, y) =~= coords_before(x0, x1, y0, x, y).push(
        Xy { x: x as i64, y: y as i64 },
    ));
}

/// The end of one row is the start of the next.
pub proof fn lemma_coords_next_row(x0: int, x1: int, y0: int, y: int)
    requires
        y0 <= y,
    ensures
        coords_before(x0, x1, y0, x1, y) == coords_before(x0, x1, y0, x0, y + 1),
        coords_before(x0, x1, y0, x0, y) == rect_coords(x0, x1, y0, y),
{
    assert(row_coords(x0, x0, y) =~= Seq::<Xy>::empty());
    assert(row_coords(x0, x0, y + 1) =~= Seq::<Xy>::empty());
    assert(coords_before(x0, x1, y0, x0, y + 1) =~= rect_coords(x0, x1, y0, y + 1));
    assert(coords_before(x0, x1, y0, x0, y) =~= rect_coords(x0, x1, y0, y));
}

/// A rectangle that is empty in either direction has no coordinates.
pub proof fn lemma_rect_coords_empty(x0: int, x1: int, y0: int, y1: int)
    requires
        x1 <= x0 || y1 <= y0,
    ensures
        rect_coords(x0, x1, y0, y1) == Seq::<Xy>::empty(),
    decreases y1 - y0,
{
    if y1 > y0 {
        lemma_rect_coords_empty(x0, x1, y0, y1 - 1);
        assert(row_coords(x0, x1, y1 - 1) =~= Seq::<Xy>::empty());
        assert(rect_coords(x0, x1, y0, y1) =~= Seq::<Xy>::empty());
    }
}

/// A rectangle of `h` rows of `w` columns has `h * w` coordinates.
pub proof fn lemma_rect_coords_len(x0: int, x1: int, y0: int, y1: int)
    requires
        x0 <= x1,
        y0 <= y1,
    ensures
        rect_coords(x0, x1, y0, y1).len() == (y1 - y0) * (x1 - x0),
    decreases y1 - y0,
{
    if y1 > y0 {
        lemma_rect_coords_len(x0, x1, y0, y1 - 1);
        assert((y1 - y0) * (x1 - x0) == (y1 - 1 - y0) * (x1 - x0) + (x1 - x0)) by (nonlinear_arith);
    } else {
        assert((y1 - y0) * (x1 - x0) == 0) by (nonlinear_arith)
            requires
                y1 - y0 == 0,
        ;
    }
}

/// The coordinate at a given place of a rectangle's row-by-row listing.
pub proof fn lemma_rect_coords_index(x0: int, x1: int, y0: int, y1: int, x: int, y: int)
    requires
        x0 <= x < x1,
        y0 <= y < y1,
    ensures
        0 <= (y - y0) * (x1 - x0) + (x - x0) < rect_coords(x0, x1, y0, y1).len(),
        rect_coords(x0, x1, y0, y1)[(y - y0) * (x1 - x0) + (x - x0)] == (Xy {
            x: x as i64,
            y: y as i64,
        }),
    decreases y1 - y0,
{
    lemma_rect_coords_len(x0, x1, y0, y1 - 1);
    lemma_rect_coords_len(x0, x1, y0, y1);
    lemma_rect_coords_len(x0, x1, y0, y);
    assert((y - y0) * (x1 - x0) >= 0) by (nonlinear_arith)
        requires
            y - y0 >= 0,
            x1 - x0 >= 0,
    ;
    if y == y1 - 1 {
    } else {
        lemma_rect_coords_index(x0, x1, y0, y1 - 1, x, y);
    }
}

/// The coordinates of the half-open rectangle from the upper-left corner
/// `ul` to the lower-right corner `br`, row by row.
pub fn xy_range(ul: Xy, br: Xy) -> (r: Vec<Xy>)
    ensures
        r@ == rect_coords(ul.x as int, br.x as int, ul.y as int, br.y as int),
{
    let mut result: Vec<Xy> = Vec::new();
    if ul.y >= br.y {
        return result;
    }
    let mut y: Scalar = ul.y;
    proof {
        lemma_coords_next_row(ul.x as int, br.x as int, ul.y as int, ul.y as int);
    }
    while y < br.y
        invariant
            ul.y <= y <= br.y,
            result@ == rect_coords(ul.x as int, br.x as int, ul.y as int, y as int),
        decreases br.y - y,
    {
        let mut x: Scalar = ul.x;
        proof {
            lemma_coords_next_row(ul.x as int, br.x as int, ul.y as int, y as int);
        }
        while x < br.x
            invariant
                ul.x <= x,
                x <= br.x || ul.x == x,
                ul.y <= y < br.y,
                result@ == coords_before(ul.x as int, br.x as int, ul.y as int, x as int, y as int),
            decreases br.x - x,
        {
            proof {
                lemma_coords_step(ul.x as int, br.x as int, ul.y as int, x as int, y as int);
            }
            result.push(Xy::new(x, y));
            x += 1;
        }
        proof {
            if ul.x <= br.x {
                lemma_coords_next_row(ul.x as int, br.x as int, ul.y as int, y as int);
            } else {
                lemma_rect_coords_empty(ul.x as int, br.x as int, ul.y as int, y as int);
                lemma_rect_coords_empty(ul.x as int, br.x as int, ul.y as int, y as int + 1);
                assert(row_coords(ul.x as int, ul.x as int, y as int) =~= Seq::<Xy>::empty());
            }
        }
        y += 1;
    }
    result
}

/// A test that holds wherever another one holds finds at least as many
/// items, and more if it holds of an item of which the other does not.
pub proof fn lemma_wider_filter_finds_more<A>(
    s: Seq<A>,
    narrow: spec_fn(A) -> bool,
    wide: spec_fn(A) -> bool,
    k: int,
)
    requires
        forall|i: int| 0 <= i < s.len() && narrow(#[trigger] s[i]) ==> wide(s[i]),
    ensures
        s.filter(narrow).len() <= s.filter(wide).len(),
        0 <= k < s.len() && wide(s[k]) && !narrow(s[k]) ==> s.filter(narrow).len() < s.filter(
            wide,
        ).len(),
    decreases s.len(),
{
    reveal(Seq::filter);
    if s.len() > 0 {
        let rest = s.drop_last();
        assert forall|i: int| 0 <= i < rest.len() && narrow(#[trigger] rest[i]) implies wide(
            rest[i],
        ) by {
            assert(rest[i] == s[i]);
        }
        lemma_wider_filter_finds_more(rest, narrow, wide, k);
        assert(s.last() == s[s.len() - 1]);
        if 0 <= k < rest.len() {
            assert(rest[k] == s[k]);
        }
    }
}

/// A board that differs from another of the same shape differs in a cell.
pub proof fn lemma_differing_cell<T>(a: Seq<Seq<T>>, b: Seq<Seq<T>>) -> (at: (int, int))
    requires
        rectangular(a),
        rectangular(b),
        same_shape(a, b),
        a != b,
    ensures
        on_board(a, at.0, at.1),
        a[at.1][at.0] != b[at.1][at.0],
{
    if forall|x: int, y: int| on_board(a, x, y) ==> (#[trigger] a[y][x]) == b[y][x] {
        assert forall|y: int| 0 <= y < a.len() implies #[trigger] a[y] == b[y] by {
            assert(a[y].len() == width_of(a));
            assert(b[y].len() == width_of(b));
            assert forall|x: int| 0 <= x < a[y].len() implies a[y][x] == b[y][x] by {
                assert(on_board(a, x, y));
            }
            assert(a[y] =~= b[y]);
        }
        assert(a =~= b);
        (0, 0)
    } else {
        let (x, y) = choose|x: int, y: int| on_board(a, x, y) && (#[trigger] a[y][x]) != b[y][x];
        (x, y)
    }
}

/// Where every cell of a board keeps its value or takes the value `v`, the
/// number of cells that hold `v` does not fall, and it rises if the board
/// changes. It is never more than the number of cells.
pub proof fn lemma_holding_grows<T>(before: Seq<Seq<T>>, after: Seq<Seq<T>>, v: T)
    requires
        rectangular(before),
        rectangular(after),
        same_shape(before, after),
        forall|x: int, y: int|
            on_board(before, x, y) ==> #[trigger] after[y][x] == before[y][x] || after[y][x] == v,
    ensures
        coords_holding(before, v).len() <= coords_holding(after, v).len() <= before.len() * width_of(
            before,
        ),
        after != before ==> coords_holding(before, v).len() < coords_holding(after, v).len(),
{
    let (w, h) = (width_of(before), before.len() as int);
    let all = rect_coords(0, w, 0, h);
    let narrow = holds(before, v);
    let wide = holds(after, v);
    lemma_rect_coords_len(0, w, 0, h);
    all.lemma_filter_len(wide);
    assert forall|i: int| 0 <= i < all.len() && narrow(#[trigger] all[i]) implies wide(all[i]) by {
        let xy = all[i];
        assert(on_board(before, xy.x as int, xy.y as int));
        assert(after[xy.y as int][xy.x as int] == before[xy.y as int][xy.x as int] || after[xy.y as int][xy.x as int]
            == v);
    }
    if after != before {
        let (x, y) = lemma_differing_cell(before, after);
        lemma_rect_coords_index(0, w, 0, h, x, y);
        let k = y * w + x;
        assert(all[k] == Xy { x: x as i64, y: y as i64 });
        assert(after[y][x] == before[y][x] || after[y][x] == v);
        assert(wide(all[k]) && !narrow(all[k]));
        lemma_wider_filter_finds_more(all, narrow, wide, k);
    } else {
        lemma_wider_filter_finds_more(all, narrow, wide, 0);
    }
}

/// A rectangular grid of cells, stored row by row. The view is the
/// sequence of rows, each a sequence of cells.
#[derive(Debug)]
pub struct Board<T> {
    board: Vec<Vec<T>>,
}

impl<T> View for Board<T> {
    type V = Seq<Seq<T>>;

    closed spec fn view(&self) -> Seq<Seq<T>> {
        Seq::new(self.board@.len(), |y: int| self.board@[y]@)
    }
}

impl<T: Copy> Board<T> {
    /// The invariant of every board handed out by this module.
    pub open spec fn wf(&self) -> bool {
        rectangular(self@)
    }

    /// How the view reads the stored rows.
    proof fn lemma_rows(&self)
        ensures
            self@.len() == self.board.len(),
            forall|y: int|
                0 <= y < self.board.len() ==> #[trigger] self@[y] == self.board[y]@ && self@[y].len()
                    == self.board[y].len(),
    {
    }

    /// The board with the given rows. `None` exactly when the rows are no
    /// rectangle.
    pub fn try_from_rows(rows: Vec<Vec<T>>) -> (r: Option<Self>)
        ensures
            r is Some <==> rectangular(rows@.map_values(|row: Vec<T>| row@)),
            r matches Some(b) ==> b.wf() && b@ == rows@.map_values(|row: Vec<T>| row@),
    {
        let ghost given = rows@.map_values(|row: Vec<T>| row@);
        let h = rows.len();
        if h == 0 {
            return None;
        }
        assert(given[0] == rows@[0]@);
        let w = rows[0].len();
        if !dimensions_fit(h, w) {
            return None;
        }
        let mut y: usize = 0;
        while y < h
            invariant
                given == rows@.map_values(|row: Vec<T>| row@),
                h == rows@.len(),
                w == given[0].len(),
                y <= h,
                forall|j: int| 0 <= j < y ==> (#[trigger] given[j]).len() == w,
            decreases h - y,
        {
            assert(given[y as int] == rows@[y as int]@);
            if rows[y].len() != w {
                return None;
            }
            y += 1;
        }
        let b = Board { board: rows };
        assert(b@ =~= given);
        Some(b)
    }

    /// A board of `rows` by `cols` cells, each holding `default_value`.
    pub fn new(rows: usize, cols: usize, default_value: T) -> (r: Self)
        requires
            1 <= rows <= i64::MAX,
            cols <= i64::MAX,
            rows * cols <= usize::MAX,
        ensures
            r.wf(),
            r@.len() == rows,
            width_of(r@) == cols,
            forall|x: int, y: int| on_board(r@, x, y) ==> r@[y][x] == default_value,
    {
        let mut board: Vec<Vec<T>> = Vec::new();
        let mut y: usize = 0;
        while y < rows
            invariant
                y <= rows,
                board@.len() == y,
                forall|j: int| 0 <= j < y ==> (#[trigger] board@[j])@.len() == cols,
                forall|j: int, i: int|
                    0 <= j < y && 0 <= i < cols ==> (#[trigger] board@[j]@[i]) == default_value,
            decreases rows - y,
        {
            let mut row: Vec<T> = Vec::new();
            let mut x: usize = 0;
            while x < cols
                invariant
                    x <= cols,
                    row@.len() == x,
                    forall|i: int| 0 <= i < x ==> (#[trigger] row@[i]) == default_value,
                decreases cols - x,
            {
                row.push(default_value);
                x += 1;
            }
            board.push(row);
            y += 1;
        }
        Board { board }
    }

    pub fn height(&self) -> (h: usize)
        requires
            self.wf(),
        ensures
            h == self@.len(),
            1 <= h <= i64::MAX,
    {
        self.board.len()
    }

    pub fn width(&self) -> (w: usize)
        requires
            self.wf(),
        ensures
            w == width_of(self@),
            w <= i64::MAX,
    {
        self.board[0].len()
    }

    /// The width and height as a coordinate pair.
    pub fn dimensions(&self) -> (d: Xy)
        requires
            self.wf(),
        ensures
            d.x == width_of(self@),
            d.y == self@.len(),
    {
        Xy::new(self.width() as Scalar, self.height() as Scalar)
    }

    /// The cell at a coordinate that is known to lie on the board.
    pub fn at(&self, xy: Xy) -> (c: T)
        requires
            self.wf(),
            on_board(self@, xy.x as int, xy.y as int),
        ensures
            c == self@[xy.y as int][xy.x as int],
    {
        proof {
            self.lemma_rows();
            assert(self@[xy.y as int].len() == self@[0].len());
        }
        self.board[xy.y as usize][xy.x as usize]
    }

    /// The cell at any coordinate: `Some` exactly for those on the board.
    pub fn maybe_at(&self, xy: Xy) -> (c: Option<T>)
        requires
            self.wf(),
        ensures
            c == cell_at(self@, xy.x as int, xy.y as int),
            c is Some <==> 0 <= xy.x < width_of(self@) && 0 <= xy.y < self@.len(),
            c matches Some(v) ==> v == self@[xy.y as int][xy.x as int],
    {
        if xy.x < 0 || xy.x >= self.width() as Scalar || xy.y < 0 || xy.y >= self.height() as Scalar {
            None
        } else {
            Some(self.board[xy.y as usize][xy.x as usize])
        }
    }

    /// Writes one cell at a coordinate that is known to lie on the board.
    pub fn set_at(&mut self, xy: Xy, c: T)
        requires
            old(self).wf(),
            on_board(old(self)@, xy.x as int, xy.y as int),
        ensures
            final(self).wf(),
            final(self)@ == old(self)@.update(
                xy.y as int,
                old(self)@[xy.y as int].update(xy.x as int, c),
            ),
    {
        proof {
            self.lemma_rows();
            assert(self@[xy.y as int].len() == self@[0].len());
        }
        self.board[xy.y as usize][xy.x as usize] = c;
        proof {
            self.lemma_rows();
        }
        assert(self@ =~= old(self)@.update(
            xy.y as int,
            old(self)@[xy.y as int].update(xy.x as int, c),
        ));
    }

    /// Writes one cell if the coordinate lies on the board, and otherwise
    /// leaves the board as it is.
    pub fn maybe_set_at(&mut self, xy: Xy, c: T)
        requires
            old(self).wf(),
        ensures
            final(self).wf(),
            on_board(old(self)@, xy.x as int, xy.y as int) ==> final(self)@ == old(self)@.update(
                xy.y as int,
                old(self)@[xy.y as int].update(xy.x as int, c),
            ),
            !on_board(old(self)@, xy.x as int, xy.y as int) ==> final(self)@ == old(self)@,
    {
        if self.maybe_at(xy).is_some() {
            self.set_at(xy, c);
        }
    }

    /// Every coordinate of the board, row by row.
    pub fn all_coords(&self) -> (r: Vec<Xy>)
        requires
            self.wf(),
        ensures
            r@ == rect_coords(0, width_of(self@), 0, self@.len() as int),
    {
        xy_range(Xy::new(0, 0), self.dimensions())
    }

    /// A mutable reference to the cell at a coordinate that is known to
    /// lie on the board.
    pub fn mut_at(&mut self, xy: Xy) -> (c: &mut T)
        requires
            old(self).wf(),
            on_board(old(self)@, xy.x as int, xy.y as int),
        ensures
            *c == old(self)@[xy.y as int][xy.x as int],
            final(self)@ == old(self)@.update(
                xy.y as int,
                old(self)@[xy.y as int].update(xy.x as int, *final(c)),
            ),
    {
        proof {
            self.lemma_rows();
            assert(self@[xy.y as int].len() == self@[0].len());
        }
        &mut self.board[xy.y as usize][xy.x as usize]
    }

    /// Sets every cell of the half-open rectangle from `ul` to `br`.
    pub fn fill_rect(&mut self, ul: Xy, br: Xy, c: T)
        requires
            old(self).wf(),
            ul.y < br.y ==> 0 <= ul.y && br.y <= old(self)@.len() && 0 <= ul.x <= br.x <= width_of(
                old(self)@,
            ),
        ensures
            final(self).wf(),
            same_shape(final(self)@, old(self)@),
            forall|x: int, y: int|
                on_board(old(self)@, x, y) ==> #[trigger] final(self)@[y][x] == (if in_rect(
                    ul,
                    br,
                    x,
                    y,
                ) {
                    c
                } else {
                    old(self)@[y][x]
                }),
    {
        if ul.y >= br.y {
            return ;
        }
        let mut y: Scalar = ul.y;
        while y < br.y
            invariant
                self.wf(),
                same_shape(self@, old(self)@),
                forall|j: int| 0 <= j < self@.len() ==> (#[trigger] self@[j]).len() == width_of(self@),
                0 <= ul.y <= y <= br.y <= self@.len(),
                0 <= ul.x <= br.x <= width_of(self@),
                forall|i: int, j: int|
                    on_board(old(self)@, i, j) ==> #[trigger] self@[j][i] == (if in_rect(ul, br, i, j)
                        && j < y {
                        c
                    } else {
                        old(self)@[j][i]
                    }),
            decreases br.y - y,
        {
            let mut x: Scalar = ul.x;
            while x < br.x
                invariant
                    self.wf(),
                    same_shape(self@, old(self)@),
                    forall|j: int|
                        0 <= j < self@.len() ==> (#[trigger] self@[j]).len() == width_of(self@),
                    0 <= ul.y <= y < br.y <= self@.len(),
                    0 <= ul.x <= x <= br.x <= width_of(self@),
                    forall|i: int, j: int|
                        on_board(old(self)@, i, j) ==> #[trigger] self@[j][i] == (if in_rect(
                            ul,
                            br,
                            i,
                            j,
                        ) && (j < y || (j == y && i < x)) {
                            c
                        } else {
                            old(self)@[j][i]
                        }),
                decreases br.x - x,
            {
                self.set_at(Xy::new(x, y), c);
                x += 1;
            }
            y += 1;
        }
    }

    /// Replaces every cell of the half-open rectangle from `ul` to `br` by
    /// what `f` makes of it.
    pub fn update_rect(&mut self, ul: Xy, br: Xy, f: impl Fn(T) -> T)
        requires
            old(self).wf(),
            ul.y < br.y && ul.x < br.x ==> 0 <= ul.y && br.y <= old(self)@.len() && 0 <= ul.x
                && br.x <= width_of(old(self)@),
            forall|x: int, y: int|
                on_board(old(self)@, x, y) && in_rect(ul, br, x, y) ==> call_requires(
                    f,
                    (#[trigger] old(self)@[y][x],),
                ),
        ensures
            final(self).wf(),
            same_shape(final(self)@, old(self)@),
            forall|x: int, y: int|
                on_board(old(self)@, x, y) && in_rect(ul, br, x, y) ==> call_ensures(
                    f,
                    (old(self)@[y][x],),
                    #[trigger] final(self)@[y][x],
                ),
            forall|x: int, y: int|
                on_board(old(self)@, x, y) && !in_rect(ul, br, x, y) ==> #[trigger] final(self)@[y][x]
                    == old(self)@[y][x],
    {
        if ul.y >= br.y || ul.x >= br.x {
            return ;
        }
        let mut y: Scalar = ul.y;
        while y < br.y
            invariant
                self.wf(),
                same_shape(self@, old(self)@),
                forall|j: int| 0 <= j < self@.len() ==> (#[trigger] self@[j]).len() == width_of(self@),
                0 <= ul.y <= y <= br.y <= self@.len(),
                0 <= ul.x < br.x <= width_of(self@),
                forall|i: int, j: int|
                    on_board(old(self)@, i, j) && in_rect(ul, br, i, j) ==> call_requires(
                        f,
                        (#[trigger] old(self)@[j][i],),
                    ),
                forall|i: int, j: int|
                    on_board(old(self)@, i, j) && in_rect(ul, br, i, j) && j < y ==> call_ensures(
                        f,
                        (old(self)@[j][i],),
                        #[trigger] self@[j][i],
                    ),
                forall|i: int, j: int|
                    on_board(old(self)@, i, j) && !(in_rect(ul, br, i, j) && j < y)
                        ==> #[trigger] self@[j][i] == old(self)@[j][i],
            decreases br.y - y,
        {
            let mut x: Scalar = ul.x;
            while x < br.x
                invariant
                    self.wf(),
                    same_shape(self@, old(self)@),
                    forall|j: int|
                        0 <= j < self@.len() ==> (#[trigger] self@[j]).len() == width_of(self@),
                    0 <= ul.y <= y < br.y <= self@.len(),
                    0 <= ul.x <= x <= br.x <= width_of(self@),
                    forall|i: int, j: int|
                        on_board(old(self)@, i, j) && in_rect(ul, br, i, j) ==> call_requires(
                            f,
                            (#[trigger] old(self)@[j][i],),
                        ),
                    forall|i: int, j: int|
                        on_board(old(self)@, i, j) && in_rect(ul, br, i, j) && (j < y || (j == y && i
                            < x)) ==> call_ensures(f, (old(self)@[j][i],), #[trigger] self@[j][i]),
                    forall|i: int, j: int|
                        on_board(old(self)@, i, j) && !(in_rect(ul, br, i, j) && (j < y || (j == y
                            && i < x))) ==> #[trigger] self@[j][i] == old(self)@[j][i],
                decreases br.x - x,
            {
                let xy = Xy::new(x, y);
                let old_value = self.at(xy);
                assert(old_value == old(self)@[y as int][x as int]);
                let new_value = f(old_value);
                self.set_at(xy, new_value);
                x += 1;
            }
            y += 1;
        }
    }

    /// The cell one step of at most one column and one row away from
    /// `loc`, if that place lies on the board.
    fn cell_beside(&self, loc: Xy, dx: Scalar, dy: Scalar) -> (c: Option<T>)
        requires
            self.wf(),
            -1 <= dx <= 1,
            -1 <= dy <= 1,
        ensures
            c == cell_at(self@, loc.x + dx, loc.y + dy),
    {
        match (loc.x.checked_add(dx), loc.y.checked_add(dy)) {
            (Some(x), Some(y)) => self.maybe_at(Xy::new(x, y)),
            _ => None,
        }
    }

    /// The cells on the board among the four edge neighbours of the
    /// origin, in the order north, east, south, west.
    pub fn neighbors(&self) -> (r: Vec<T>)
        requires
            self.wf(),
        ensures
            r@ == cells_around(self@, 0, 0, cross4()),
    {
        let mut result: Vec<T> = Vec::new();
        let ghost offsets = cross4();
        let mut i: usize = 0;
        while i < 4
            invariant
                self.wf(),
                i <= 4,
                offsets == cross4(),
                result@ == cells_around(self@, 0, 0, offsets.take(i as int)),
            decreases 4 - i,
        {
            let offset = Direction::ALL[i].to_offset();
            assert(offsets.take(i as int + 1).drop_last() =~= offsets.take(i as int));
            assert((offset.x as int, offset.y as int) == offsets[i as int]);
            if let Some(c) = self.maybe_at(offset) {
                result.push(c);
            }
            i += 1;
        }
        assert(offsets.take(4) =~= offsets);
        result
    }

    /// The cells on the board among the eight cells around `loc`,
    /// clockwise from the east: E, SE, S, SW, W, NW, N, NE.
    pub fn neighbors8(&self, loc: Xy) -> (r: Vec<T>)
        requires
            self.wf(),
        ensures
            r@ == cells_around(self@, loc.x as int, loc.y as int, ring8()),
    {
        let mut result: Vec<T> = Vec::new();
        let dirs8: [(Scalar, Scalar); 8] = [
            (1, 0),
            (1, 1),
            (0, 1),
            (-1, 1),
            (-1, 0),
            (-1, -1),
            (0, -1),
            (1, -1),
        ];
        let ghost offsets = ring8();
        let mut i: usize = 0;
        while i < 8
            invariant
                self.wf(),
                i <= 8,
                offsets == ring8(),
                forall|k: int|
                    0 <= k < 8 ==> (dirs8[k].0 as int, dirs8[k].1 as int) == #[trigger] offsets[k],
                result@ == cells_around(self@, loc.x as int, loc.y as int, offsets.take(i as int)),
            decreases 8 - i,
        {
            let (dx, dy) = dirs8[i];
            assert(offsets.take(i as int + 1).drop_last() =~= offsets.take(i as int));
            assert((dx as int, dy as int) == offsets[i as int]);
            if let Some(c) = self.cell_beside(loc, dx, dy) {
                result.push(c);
            }
            i += 1;
        }
        assert(offsets.take(8) =~= offsets);
        result
    }

    /// A copy of row `y`.
    pub fn row(&self, y: usize) -> (r: Vec<T>)
        requires
            self.wf(),
            y < self@.len(),
        ensures
            r@ == self@[y as int],
    {
        let mut out: Vec<T> = Vec::new();
        let mut x: usize = 0;
        while x < self.board[y].len()
            invariant
                y < self.board@.len(),
                x <= self.board@[y as int]@.len(),
                out@ == self.board@[y as int]@.take(x as int),
            decreases self.board@[y as int]@.len() - x,
        {
            out.push(self.board[y][x]);
            x += 1;
        }
        out
    }
}


impl<T: Copy> Clone for Board<T> {
    /// A deep copy: a board of its own with the same cells.
    fn clone(&self) -> (r: Self)
        ensures
            r@ == self@,
    {
        let mut board: Vec<Vec<T>> = Vec::new();
        let mut y: usize = 0;
        while y < self.board.len()
            invariant
                y <= self.board@.len(),
                board@.len() == y,
                forall|j: int| 0 <= j < y ==> (#[trigger] board@[j])@ == self.board@[j]@,
            decreases self.board@.len() - y,
        {
            let mut row: Vec<T> = Vec::new();
            let mut x: usize = 0;
            while x < self.board[y].len()
                invariant
                    y < self.board@.len(),
                    x <= self.board@[y as int]@.len(),
                    row@ == self.board@[y as int]@.take(x as int),
                decreases self.board@[y as int]@.len() - x,
            {
                row.push(self.board[y][x]);
                x += 1;
            }
            board.push(row);
            y += 1;
        }
        let r = Board { board };
        assert(r@ =~= self@);
        r
    }
}

impl<T: Matchable> Board<T> {
    /// The coordinates of the cells equal to `content`, row by row.
    pub fn coords_of(&self, content: T) -> (r: Vec<Xy>)
        requires
            self.wf(),
        ensures
            r@ == coords_holding(self@, content),
    {
        let mut result: Vec<Xy> = Vec::new();
        let h = self.height();
        let w = self.width();
        let ghost pred = holds(self@, content);
        let mut y: usize = 0;
        proof {
            reveal(Seq::filter);
            lemma_coords_next_row(0, w as int, 0, 0);
        }
        while y < h
            invariant
                self.wf(),
                h == self@.len(),
                w == width_of(self@),
                pred == holds(self@, content),
                y <= h,
                result@ == rect_coords(0, w as int, 0, y as int).filter(pred),
            decreases h - y,
        {
            let mut x: usize = 0;
            proof {
                lemma_coords_next_row(0, w as int, 0, y as int);
            }
            while x < w
                invariant
                    self.wf(),
                    h == self@.len(),
                    w == width_of(self@),
                    pred == holds(self@, content),
                    y < h,
                    x <= w,
                    result@ == coords_before(0, w as int, 0, x as int, y as int).filter(pred),
                decreases w - x,
            {
                let xy = Xy::new(x as Scalar, y as Scalar);
                proof {
                    lemma_coords_step(0, w as int, 0, x as int, y as int);
                    coords_before(0, w as int, 0, x as int, y as int).lemma_filter_push(xy, pred);
                }
                if self.at(xy).same(&content) {
                    result.push(xy);
                }
                x += 1;
            }
            proof {
                lemma_coords_next_row(0, w as int, 0, y as int);
            }
            y += 1;
        }
        result
    }

    /// The number of cells equal to `target`.
    pub fn count(&self, target: T) -> (n: usize)
        requires
            self.wf(),
        ensures
            n == coords_holding(self@, target).len(),
    {
        let mut result: usize = 0;
        let h = self.height();
        let w = self.width();
        let ghost pred = holds(self@, target);
        let mut y: usize = 0;
        proof {
            reveal(Seq::filter);
            lemma_coords_next_row(0, w as int, 0, 0);
        }
        while y < h
            invariant
                self.wf(),
                h == self@.len(),
                w == width_of(self@),
                pred == holds(self@, target),
                y <= h,
                result == rect_coords(0, w as int, 0, y as int).filter(pred).len(),
            decreases h - y,
        {
            let mut x: usize = 0;
            proof {
                lemma_coords_next_row(0, w as int, 0, y as int);
            }
            while x < w
                invariant
                    self.wf(),
                    h == self@.len(),
                    w == width_of(self@),
                    pred == holds(self@, target),
                    y < h,
                    x <= w,
                    result == coords_before(0, w as int, 0, x as int, y as int).filter(pred).len(),
                decreases w - x,
            {
                let xy = Xy::new(x as Scalar, y as Scalar);
                proof {
                    let seen = coords_before(0, w as int, 0, x as int, y as int);
                    lemma_coords_step(0, w as int, 0, x as int, y as int);
                    seen.lemma_filter_push(xy, pred);
                    seen.lemma_filter_len(pred);
                    lemma_rect_coords_len(0, w as int, 0, y as int);
                    assert(y * w + x < h * w) by (nonlinear_arith)
                        requires
                            0 <= y < h,
                            0 <= x < w,
                    ;
                }
                if self.at(xy).same(&target) {
                    result += 1;
                }
                x += 1;
            }
            proof {
                lemma_coords_next_row(0, w as int, 0, y as int);
            }
            y += 1;
        }
        result
    }

    /// Whether two boards have the same shape and the same cells.
    pub fn same_as(&self, other: &Board<T>) -> (r: bool)
        requires
            self.wf(),
            other.wf(),
        ensures
            r == (self@ == other@),
    {
        let h = self.height();
        let w = self.width();
        if h != other.height() || w != other.width() {
            return false;
        }
        let mut y: usize = 0;
        while y < h
            invariant
                self.wf(),
                other.wf(),
                h == self@.len() == other@.len(),
                w == width_of(self@) == width_of(other@),
                y <= h,
                forall|j: int| 0 <= j < y ==> #[trigger] self@[j] == other@[j],
            decreases h - y,
        {
            let mut x: usize = 0;
            while x < w
                invariant
                    self.wf(),
                    other.wf(),
                    h == self@.len() == other@.len(),
                    w == width_of(self@) == width_of(other@),
                    y < h,
                    x <= w,
                    forall|i: int| 0 <= i < x ==> #[trigger] self@[y as int][i] == other@[y as int][i],
                decreases w - x,
            {
                let xy = Xy::new(x as Scalar, y as Scalar);
                if !self.at(xy).same(&other.at(xy)) {
                    return false;
                }
                x += 1;
            }
            assert(self@[y as int] =~= other@[y as int]);
            y += 1;
        }
        assert(self@ =~= other@);
        true
    }
}


/// A cell type whose values can be compared for equality while the
/// program runs.
pub trait Matchable: Copy {
    fn same(&self, other: &Self) -> (r: bool)
        ensures
            r == (*self == *other),
    ;
}

impl Matchable for bool {
    fn same(&self, other: &Self) -> (r: bool) {
        *self == *other
    }
}

impl Matchable for char {
    fn same(&self, other: &Self) -> (r: bool) {
        *self == *other
    }
}

impl Matchable for u8 {
    fn same(&self, other: &Self) -> (r: bool) {
        *self == *other
    }
}

impl Matchable for usize {
    fn same(&self, other: &Self) -> (r: bool) {
        *self == *other
    }
}

impl Matchable for i64 {
    fn same(&self, other: &Self) -> (r: bool) {
        *self == *other
    }
}

impl Matchable for Direction {
    fn same(&self, other: &Self) -> (r: bool) {
        *self == *other
    }
}

/// A cell type that can be written as one character and read back from
/// one.
pub trait Glyph: Copy {
    /// The cell that a character stands for, if it stands for one.
    spec fn decode(c: char) -> Option<Self>;

    /// The character that stands for a cell.
    spec fn encode(self) -> char;

    fn from_glyph(c: char) -> (r: Option<Self>)
        ensures
            r == Self::decode(c),
    ;

    fn to_glyph(self) -> (c: char)
        ensures
            c == self.encode(),
    ;
}

/// Whether reading a character and writing the cell gives the character
/// back, for every character that can be read.
pub open spec fn faithful<T: Glyph>() -> bool {
    forall|c: char| (#[trigger] T::decode(c)) matches Some(v) ==> v.encode() == c
}

/// Whether every character of the lines stands for a cell.
pub open spec fn decodable<T: Glyph>(lines: Seq<Seq<char>>) -> bool {
    forall|x: int, y: int|
        0 <= y < lines.len() && 0 <= x < lines[y].len() ==> (#[trigger] T::decode(lines[y][x])) is Some
}

/// The cells that the lines stand for, where every character stands for
/// one.
pub open spec fn strict_rows<T: Glyph>(lines: Seq<Seq<char>>) -> Seq<Seq<T>> {
    Seq::new(lines.len(), |y: int| Seq::new(lines[y].len(), |x: int| T::decode(lines[y][x])->0))
}

/// The pattern that the lines stand for: a character that stands for no
/// cell gives a wildcard.
pub open spec fn pattern_rows<T: Glyph>(lines: Seq<Seq<char>>) -> Seq<Seq<Option<T>>> {
    Seq::new(lines.len(), |y: int| Seq::new(lines[y].len(), |x: int| T::decode(lines[y][x])))
}

/// The lines that stand for the rows of a board.
pub open spec fn encode_rows<T: Glyph>(rows: Seq<Seq<T>>) -> Seq<Seq<char>> {
    Seq::new(rows.len(), |y: int| Seq::new(rows[y].len(), |x: int| rows[y][x].encode()))
}

impl Glyph for char {
    open spec fn decode(c: char) -> Option<char> {
        Some(c)
    }

    open spec fn encode(self) -> char {
        self
    }

    fn from_glyph(c: char) -> (r: Option<char>) {
        Some(c)
    }

    fn to_glyph(self) -> (c: char) {
        self
    }
}

impl Glyph for bool {
    /// `#` stands for a set cell and `.` for a clear one.
    open spec fn decode(c: char) -> Option<bool> {
        if c == '#' {
            Some(true)
        } else if c == '.' {
            Some(false)
        } else {
            None
        }
    }

    open spec fn encode(self) -> char {
        if self {
            '#'
        } else {
            '.'
        }
    }

    fn from_glyph(c: char) -> (r: Option<bool>) {
        if c == '#' {
            Some(true)
        } else if c == '.' {
            Some(false)
        } else {
            None
        }
    }

    fn to_glyph(self) -> (c: char) {
        if self {
            '#'
        } else {
            '.'
        }
    }
}

impl Glyph for Direction {
    open spec fn decode(c: char) -> Option<Direction> {
        Direction::of_glyph(c)
    }

    open spec fn encode(self) -> char {
        self.glyph()
    }

    fn from_glyph(c: char) -> (r: Option<Direction>) {
        Direction::try_from_char(c)
    }

    fn to_glyph(self) -> (c: char) {
        self.to_char()
    }
}

/// Reads one line as a row of pattern cells.
fn decode_line<T: Glyph>(line: &str) -> (r: Vec<Option<T>>)
    ensures
        r@ == Seq::new(line@.len(), |x: int| T::decode(line@[x])),
{
    let chars = chars_of(line);
    let mut row: Vec<Option<T>> = Vec::new();
    let mut x: usize = 0;
    while x < chars.len()
        invariant
            chars@ == line@,
            x <= chars@.len(),
            row@ == Seq::new(x as nat, |i: int| T::decode(line@[i])),
        decreases chars@.len() - x,
    {
        row.push(T::from_glyph(chars[x]));
        assert(row@ =~= Seq::new((x + 1) as nat, |i: int| T::decode(line@[i])));
        x += 1;
    }
    row
}

/// The cells of a row of pattern cells, if none of them is a wildcard.
fn all_present<T: Copy>(row: &Vec<Option<T>>) -> (r: Option<Vec<T>>)
    ensures
        r is Some <==> (forall|x: int| 0 <= x < row@.len() ==> (#[trigger] row@[x]) is Some),
        r matches Some(cells) ==> cells@ == Seq::new(row@.len(), |x: int| row@[x]->0),
{
    let mut cells: Vec<T> = Vec::new();
    let mut x: usize = 0;
    while x < row.len()
        invariant
            x <= row@.len(),
            forall|i: int| 0 <= i < x ==> (#[trigger] row@[i]) is Some,
            cells@ == Seq::new(x as nat, |i: int| row@[i]->0),
        decreases row@.len() - x,
    {
        match row[x] {
            Some(c) => {
                cells.push(c);
                assert(cells@ =~= Seq::new((x + 1) as nat, |i: int| row@[i]->0));
            },
            None => {
                return None;
            },
        }
        x += 1;
    }
    Some(cells)
}

/// Whether `h` rows of `w` columns are within what a board can hold.
fn dimensions_fit(h: usize, w: usize) -> (r: bool)
    ensures
        r == (1 <= h <= i64::MAX && w <= i64::MAX && h * w <= usize::MAX),
{
    if h < 1 || h as u64 > i64::MAX as u64 || w as u64 > i64::MAX as u64 {
        return false;
    }
    h.checked_mul(w).is_some()
}

impl<T: Glyph> Board<T> {
    /// Reads a board from lines of text, one row per line and one cell per
    /// character. `None` exactly when the lines are no rectangle or hold a
    /// character that stands for no cell.
    pub fn try_from_strings(strings: &Vec<String>) -> (r: Option<Board<T>>)
        ensures
            r is Some <==> rectangular(strings.deep_view()) && decodable::<T>(strings.deep_view()),
            r matches Some(b) ==> b.wf() && b@ == strict_rows::<T>(strings.deep_view()),
    {
        let ghost lines = strings.deep_view();
        let h = strings.len();
        if h == 0 {
            return None;
        }
        let mut board: Vec<Vec<T>> = Vec::new();
        let mut w: usize = 0;
        let mut y: usize = 0;
        while y < h
            invariant
                lines == strings.deep_view(),
                h == strings@.len(),
                1 <= h,
                y <= h,
                board@.len() == y,
                y > 0 ==> w == lines[0].len() && (1 <= h <= i64::MAX && w <= i64::MAX && h * w <= usize::MAX),
                forall|j: int| 0 <= j < y ==> (#[trigger] lines[j]).len() == w,
                forall|i: int, j: int|
                    0 <= j < y && 0 <= i < lines[j].len() ==> (#[trigger] T::decode(lines[j][i])) is Some,
                forall|j: int|
                    0 <= j < y ==> (#[trigger] board@[j])@ == Seq::new(
                        lines[j].len(),
                        |x: int| T::decode(lines[j][x])->0,
                    ),
            decreases h - y,
        {
            assert(lines[y as int] == strings@[y as int]@);
            let row = decode_line::<T>(strings[y].as_str());
            if y == 0 {
                w = row.len();
                if !dimensions_fit(h, w) {
                    return None;
                }
            } else if row.len() != w {
                return None;
            }
            match all_present(&row) {
                Some(cells) => {
                    assert forall|i: int| 0 <= i < lines[y as int].len() implies (#[trigger] T::decode(
                        lines[y as int][i],
                    )) is Some by {
                        assert(row@[i] is Some);
                    }
                    assert(cells@ =~= Seq::new(
                        lines[y as int].len(),
                        |x: int| T::decode(lines[y as int][x])->0,
                    ));
                    board.push(cells);
                },
                None => {
                    let ghost x = choose|x: int| 0 <= x < row@.len() && !(#[trigger] row@[x] is Some);
                    assert(!(T::decode(lines[y as int][x]) is Some));
                    return None;
                },
            }
            y += 1;
        }
        let b = Board { board };
        assert(b@ =~= strict_rows::<T>(lines));
        Some(b)
    }

    /// Reads a board from lines of text that form a rectangle and hold
    /// only characters that stand for cells.
    pub fn from_strings(strings: &Vec<String>) -> (r: Board<T>)
        requires
            rectangular(strings.deep_view()),
            decodable::<T>(strings.deep_view()),
        ensures
            r.wf(),
            r@ == strict_rows::<T>(strings.deep_view()),
    {
        Self::try_from_strings(strings).unwrap()
    }

    /// Reads a pattern from lines of text that form a rectangle. A
    /// character that stands for no cell gives a wildcard.
    pub fn opt_from_strs(strs: &Vec<&str>) -> (r: Board<Option<T>>)
        requires
            rectangular(strs.deep_view()),
        ensures
            r.wf(),
            r@ == pattern_rows::<T>(strs.deep_view()),
    {
        let ghost lines = strs.deep_view();
        let mut board: Vec<Vec<Option<T>>> = Vec::new();
        let mut y: usize = 0;
        while y < strs.len()
            invariant
                lines == strs.deep_view(),
                y <= strs@.len(),
                board@.len() == y,
                forall|j: int|
                    0 <= j < y ==> (#[trigger] board@[j])@ == Seq::new(
                        lines[j].len(),
                        |x: int| T::decode(lines[j][x]),
                    ),
            decreases strs@.len() - y,
        {
            assert(lines[y as int] == strs@[y as int]@);
            let row = decode_line::<T>(strs[y]);
            board.push(row);
            y += 1;
        }
        let b = Board { board };
        assert(b@ =~= pattern_rows::<T>(lines));
        b
    }

    /// Writes a board as lines of text, one line per row and one character
    /// per cell.
    pub fn to_strings(&self) -> (r: Vec<String>)
        requires
            self.wf(),
        ensures
            r.deep_view() == encode_rows(self@),
    {
        let mut result: Vec<String> = Vec::new();
        let mut y: usize = 0;
        proof {
            self.lemma_rows();
        }
        while y < self.board.len()
            invariant
                y <= self.board@.len(),
                result@.len() == y,
                self@.len() == self.board@.len(),
                forall|j: int| 0 <= j < self.board@.len() ==> #[trigger] self@[j] == self.board@[j]@,
                forall|j: int|
                    0 <= j < y ==> (#[trigger] result@[j])@ == Seq::new(
                        self@[j].len(),
                        |x: int| self@[j][x].encode(),
                    ),
            decreases self.board@.len() - y,
        {
            let mut chars: Vec<char> = Vec::new();
            let mut x: usize = 0;
            while x < self.board[y].len()
                invariant
                    y < self.board@.len(),
                    self@[y as int] == self.board@[y as int]@,
                    x <= self.board@[y as int]@.len(),
                    chars@ == Seq::new(x as nat, |i: int| self@[y as int][i].encode()),
                decreases self.board@[y as int]@.len() - x,
            {
                chars.push(self.board[y][x].to_glyph());
                assert(chars@ =~= Seq::new((x + 1) as nat, |i: int| self@[y as int][i].encode()));
                x += 1;
            }
            result.push(string_of(&chars));
            y += 1;
        }
        assert(result.deep_view() =~= encode_rows(self@));
        result
    }
}

/// Writing out a board that was read from lines gives the lines back,
/// whenever the cell type reads and writes its characters faithfully.
pub proof fn lemma_text_round_trip<T: Glyph>(lines: Seq<Seq<char>>)
    requires
        faithful::<T>(),
        decodable::<T>(lines),
    ensures
        encode_rows(strict_rows::<T>(lines)) == lines,
{
    let back = encode_rows(strict_rows::<T>(lines));
    assert(back.len() == lines.len());
    assert forall|y: int| 0 <= y < lines.len() implies #[trigger] back[y] == lines[y] by {
        assert forall|x: int| 0 <= x < lines[y].len() implies back[y][x] == lines[y][x] by {
            assert(T::decode(lines[y][x]) is Some);
        }
        assert(back[y] =~= lines[y]);
    }
    assert(back =~= lines);
}


/// Whether the needle, laid with its top-left corner on column `x`, row
/// `y` of the haystack, agrees with the haystack: every needle cell that is
/// no wildcard equals the haystack cell under it.
pub open spec fn matches_at<T>(hay: Seq<Seq<T>>, needle: Seq<Seq<Option<T>>>, x: int, y: int) -> bool {
    forall|i: int, j: int|
        on_board(needle, i, j) ==> ((#[trigger] needle[j][i]) matches Some(v) ==> hay[y + j][x + i]
            == v)
}

/// The board of all placements of the needle on the haystack: the cell at
/// column `x`, row `y` says whether the needle matches there.
pub open spec fn match_rows<T>(hay: Seq<Seq<T>>, needle: Seq<Seq<Option<T>>>) -> Seq<Seq<bool>> {
    Seq::new(
        (hay.len() - needle.len() + 1) as nat,
        |y: int|
            Seq::new(
                (width_of(hay) - width_of(needle) + 1) as nat,
                |x: int| matches_at(hay, needle, x, y),
            ),
    )
}

/// Whether the needle can be laid on the haystack: it is no larger in
/// either direction, and the board of its placements is within what a
/// board can hold.
pub open spec fn fits_within<T>(needle: Seq<Seq<Option<T>>>, hay: Seq<Seq<T>>) -> bool {
    &&& needle.len() <= hay.len()
    &&& width_of(needle) <= width_of(hay)
    &&& width_of(hay) - width_of(needle) + 1 <= i64::MAX
    &&& (hay.len() - needle.len() + 1) * (width_of(hay) - width_of(needle) + 1) <= usize::MAX
}

/// A needle with at least one column that is no larger than the haystack
/// can be laid on it.
pub proof fn lemma_fits_within<T>(needle: Seq<Seq<Option<T>>>, hay: Seq<Seq<T>>)
    requires
        rectangular(needle),
        rectangular(hay),
        needle.len() <= hay.len(),
        1 <= width_of(needle) <= width_of(hay),
    ensures
        fits_within(needle, hay),
{
    let (h, w) = (hay.len() as int, width_of(hay));
    let (nh, nw) = (h - needle.len() + 1, w - width_of(needle) + 1);
    assert(nh * nw <= h * w) by (nonlinear_arith)
        requires
            0 <= nh <= h,
            0 <= nw <= w,
    ;
}

/// Whether the replacement, laid with its top-left corner on the marked
/// place `(x, y)`, writes `v` to the cell `(cx, cy)`.
pub open spec fn covers<T>(
    replacement: Seq<Seq<Option<T>>>,
    locs: Seq<Seq<bool>>,
    x: int,
    y: int,
    cx: int,
    cy: int,
    v: T,
) -> bool {
    on_board(locs, x, y) && locs[y][x] && cell_at(replacement, cx - x, cy - y) == Some(Some(v))
}

/// Whether some marked place has the replacement write `v` to `(cx, cy)`.
pub open spec fn written<T>(
    replacement: Seq<Seq<Option<T>>>,
    locs: Seq<Seq<bool>>,
    cx: int,
    cy: int,
    v: T,
) -> bool {
    exists|x: int, y: int| #[trigger] covers(replacement, locs, x, y, cx, cy, v)
}

/// Whether `after` is `before` with the replacement laid on every marked
/// place: a cell that no replacement writes to keeps its value, and a cell
/// that one or more write to holds the value that one of them wrote. Which
/// one, where several overlap, is left open.
pub open spec fn stamped<T>(
    before: Seq<Seq<T>>,
    replacement: Seq<Seq<Option<T>>>,
    locs: Seq<Seq<bool>>,
    after: Seq<Seq<T>>,
) -> bool {
    &&& after.len() == before.len()
    &&& forall|y: int| 0 <= y < before.len() ==> (#[trigger] after[y]).len() == before[y].len()
    &&& forall|cx: int, cy: int|
        on_board(before, cx, cy) ==> {
            let v = #[trigger] after[cy][cx];
            ||| written(replacement, locs, cx, cy, v)
            ||| (v == before[cy][cx] && forall|u: T| !written(replacement, locs, cx, cy, u))
        }
}

/// Whether the replacement laid on the marked place `(px, py)` leaves the
/// cell `(cx, cy)` with a value that some replacement wrote, if it writes
/// to that cell at all.
pub open spec fn settled<T>(
    replacement: Seq<Seq<Option<T>>>,
    locs: Seq<Seq<bool>>,
    rows: Seq<Seq<T>>,
    px: int,
    py: int,
    cx: int,
    cy: int,
) -> bool {
    (on_board(locs, px, py) && locs[py][px] && cell_at(replacement, cx - px, cy - py) matches Some(
        Some(_),
    )) ==> written(replacement, locs, cx, cy, rows[cy][cx])
}

impl<T: Matchable> Board<T> {
    /// Whether the needle matches with its top-left corner at `(x, y)`.
    fn matches_here(&self, needle: &Board<Option<T>>, x: usize, y: usize) -> (r: bool)
        requires
            self.wf(),
            needle.wf(),
            x + width_of(needle@) <= width_of(self@),
            y + needle@.len() <= self@.len(),
        ensures
            r == matches_at(self@, needle@, x as int, y as int),
    {
        let nh = needle.height();
        let nw = needle.width();
        let sh = self.height();
        let sw = self.width();
        let mut j: usize = 0;
        while j < nh
            invariant
                self.wf(),
                needle.wf(),
                nh == needle@.len(),
                nw == width_of(needle@),
                x + nw <= width_of(self@) == sw,
                y + nh <= self@.len() == sh,
                j <= nh,
                forall|i: int, k: int|
                    0 <= k < j && 0 <= i < nw ==> ((#[trigger] needle@[k][i]) matches Some(v)
                        ==> self@[y + k][x + i] == v),
            decreases nh - j,
        {
            let mut i: usize = 0;
            while i < nw
                invariant
                    self.wf(),
                    needle.wf(),
                    nh == needle@.len(),
                    nw == width_of(needle@),
                    x + nw <= width_of(self@) == sw,
                    y + nh <= self@.len() == sh,
                    j < nh,
                    i <= nw,
                    forall|m: int, k: int|
                        (0 <= k < j && 0 <= m < nw) || (k == j && 0 <= m < i) ==> ((
                        #[trigger] needle@[k][m]) matches Some(v) ==> self@[y + k][x + m] == v),
                decreases nw - i,
            {
                if let Some(wanted) = needle.at(Xy::new(i as Scalar, j as Scalar)) {
                    let found = self.at(Xy::new((x + i) as Scalar, (y + j) as Scalar));
                    if !found.same(&wanted) {
                        assert(on_board(needle@, i as int, j as int));
                        return false;
                    }
                }
                i += 1;
            }
            j += 1;
        }
        true
    }

    /// Slides the needle over every place where it fits on this board and
    /// marks the places where it matches. A wildcard cell of the needle
    /// matches any cell.
    pub fn scan(&self, needle: &Board<Option<T>>) -> (r: Board<bool>)
        requires
            self.wf(),
            needle.wf(),
            fits_within(needle@, self@),
        ensures
            r.wf(),
            r@.len() == self@.len() - needle@.len() + 1,
            width_of(r@) == width_of(self@) - width_of(needle@) + 1,
            forall|x: int, y: int|
                on_board(r@, x, y) ==> #[trigger] r@[y][x] == matches_at(self@, needle@, x, y),
            r@ == match_rows(self@, needle@),
    {
        let new_h = self.height() - needle.height() + 1;
        proof {
            let wide = width_of(self@) - width_of(needle@) + 1;
            assert(wide <= new_h * wide) by (nonlinear_arith)
                requires
                    1 <= new_h,
                    0 <= wide,
            ;
        }
        let new_w = self.width() - needle.width() + 1;
        let mut result: Board<bool> = Board::new(new_h, new_w, true);
        let mut y: usize = 0;
        while y < new_h
            invariant
                self.wf(),
                needle.wf(),
                result.wf(),
                result@.len() == new_h,
                width_of(result@) == new_w,
                new_h == self@.len() - needle@.len() + 1,
                new_w == width_of(self@) - width_of(needle@) + 1,
                y <= new_h,
                forall|i: int, j: int|
                    0 <= j < y && 0 <= i < new_w ==> #[trigger] result@[j][i] == matches_at(
                        self@,
                        needle@,
                        i,
                        j,
                    ),
            decreases new_h - y,
        {
            let mut x: usize = 0;
            while x < new_w
                invariant
                    self.wf(),
                    needle.wf(),
                    result.wf(),
                    result@.len() == new_h,
                    width_of(result@) == new_w,
                    new_h == self@.len() - needle@.len() + 1,
                    new_w == width_of(self@) - width_of(needle@) + 1,
                    y < new_h,
                    x <= new_w,
                    forall|i: int, j: int|
                        (0 <= j < y && 0 <= i < new_w) || (j == y && 0 <= i < x)
                            ==> #[trigger] result@[j][i] == matches_at(self@, needle@, i, j),
                decreases new_w - x,
            {
                let hit = self.matches_here(needle, x, y);
                result.set_at(Xy::new(x as Scalar, y as Scalar), hit);
                x += 1;
            }
            y += 1;
        }
        proof {
            let m = match_rows(self@, needle@);
            assert forall|j: int| 0 <= j < new_h implies #[trigger] result@[j] == m[j] by {
                assert(result@[j].len() == new_w);
                assert(result@[j] =~= m[j]);
            }
            assert(result@ =~= m);
        }
        result
    }
}

impl<T: Copy> Board<T> {
    /// Lays the replacement on this board with its top-left corner at
    /// `corner`: every cell of the replacement that is no wildcard
    /// overwrites the cell under it.
    fn stamp(&mut self, replacement: &Board<Option<T>>, corner: Xy)
        requires
            old(self).wf(),
            replacement.wf(),
            0 <= corner.x,
            0 <= corner.y,
            corner.x + width_of(replacement@) <= width_of(old(self)@),
            corner.y + replacement@.len() <= old(self)@.len(),
        ensures
            final(self).wf(),
            same_shape(final(self)@, old(self)@),
            forall|cx: int, cy: int|
                on_board(old(self)@, cx, cy) ==> #[trigger] final(self)@[cy][cx] == (match cell_at(
                    replacement@,
                    cx - corner.x,
                    cy - corner.y,
                ) {
                    Some(Some(v)) => v,
                    _ => old(self)@[cy][cx],
                }),
    {
        let rh = replacement.height();
        let rw = replacement.width();
        let mut j: usize = 0;
        while j < rh
            invariant
                self.wf(),
                replacement.wf(),
                same_shape(self@, old(self)@),
                rh == replacement@.len(),
                rw == width_of(replacement@),
                0 <= corner.x,
                0 <= corner.y,
                corner.x + rw <= width_of(self@),
                corner.y + rh <= self@.len(),
                j <= rh,
                forall|cx: int, cy: int|
                    on_board(old(self)@, cx, cy) ==> #[trigger] self@[cy][cx] == (if cy - corner.y < j {
                        match cell_at(replacement@, cx - corner.x, cy - corner.y) {
                            Some(Some(v)) => v,
                            _ => old(self)@[cy][cx],
                        }
                    } else {
                        old(self)@[cy][cx]
                    }),
            decreases rh - j,
        {
            let mut i: usize = 0;
            while i < rw
                invariant
                    self.wf(),
                    replacement.wf(),
                    same_shape(self@, old(self)@),
                    rh == replacement@.len(),
                    rw == width_of(replacement@),
                    0 <= corner.x,
                    0 <= corner.y,
                    corner.x + rw <= width_of(self@),
                    corner.y + rh <= self@.len(),
                    j < rh,
                    i <= rw,
                    forall|cx: int, cy: int|
                        on_board(old(self)@, cx, cy) ==> #[trigger] self@[cy][cx] == (if cy - corner.y
                            < j || (cy - corner.y == j && cx - corner.x < i) {
                            match cell_at(replacement@, cx - corner.x, cy - corner.y) {
                                Some(Some(v)) => v,
                                _ => old(self)@[cy][cx],
                            }
                        } else {
                            old(self)@[cy][cx]
                        }),
                decreases rw - i,
            {
                if let Some(new_value) = replacement.at(Xy::new(i as Scalar, j as Scalar)) {
                    let target = Xy::new(corner.x + i as Scalar, corner.y + j as Scalar);
                    self.set_at(target, new_value);
                }
                i += 1;
            }
            j += 1;
        }
    }

    /// Lays the replacement on a copy of this board at every place that
    /// `locs` marks, and returns the copy. Wildcard cells of the
    /// replacement leave the cell under them as it is. Where replacements
    /// overlap, the cell holds what one of them wrote.
    pub fn replace_many(&self, replacement: &Board<Option<T>>, locs: &Board<bool>) -> (r: Board<T>)
        requires
            self.wf(),
            replacement.wf(),
            locs.wf(),
            width_of(self@) == width_of(locs@) + width_of(replacement@) - 1,
            self@.len() == locs@.len() + replacement@.len() - 1,
        ensures
            r.wf(),
            same_shape(r@, self@),
            stamped(self@, replacement@, locs@, r@),
    {
        let mut result = self.clone();
        let lh = locs.height();
        let lw = locs.width();
        let mut y: usize = 0;
        while y < lh
            invariant
                self.wf(),
                replacement.wf(),
                locs.wf(),
                result.wf(),
                same_shape(result@, self@),
                lh == locs@.len(),
                lw == width_of(locs@),
                width_of(self@) == lw + width_of(replacement@) - 1,
                self@.len() == lh + replacement@.len() - 1,
                y <= lh,
                forall|cx: int, cy: int|
                    on_board(self@, cx, cy) ==> {
                        let v = #[trigger] result@[cy][cx];
                        v == self@[cy][cx] || written(replacement@, locs@, cx, cy, v)
                    },
                forall|px: int, py: int, cx: int, cy: int|
                    0 <= py < y && on_board(self@, cx, cy) ==> #[trigger] settled(
                        replacement@,
                        locs@,
                        result@,
                        px,
                        py,
                        cx,
                        cy,
                    ),
            decreases lh - y,
        {
            let mut x: usize = 0;
            while x < lw
                invariant
                    self.wf(),
                    replacement.wf(),
                    locs.wf(),
                    result.wf(),
                    same_shape(result@, self@),
                    lh == locs@.len(),
                    lw == width_of(locs@),
                    width_of(self@) == lw + width_of(replacement@) - 1,
                    self@.len() == lh + replacement@.len() - 1,
                    y < lh,
                    x <= lw,
                    forall|cx: int, cy: int|
                        on_board(self@, cx, cy) ==> {
                            let v = #[trigger] result@[cy][cx];
                            v == self@[cy][cx] || written(replacement@, locs@, cx, cy, v)
                        },
                    forall|px: int, py: int, cx: int, cy: int|
                        (0 <= py < y || (py == y && px < x)) && on_board(self@, cx, cy)
                            ==> #[trigger] settled(replacement@, locs@, result@, px, py, cx, cy),
                decreases lw - x,
            {
                let xy = Xy::new(x as Scalar, y as Scalar);
                if locs.at(xy) {
                    let ghost prev = result@;
                    result.stamp(replacement, xy);
                    proof {
                        assert forall|cx: int, cy: int| on_board(self@, cx, cy) implies {
                            let v = #[trigger] result@[cy][cx];
                            (v == prev[cy][cx] || covers(
                                replacement@,
                                locs@,
                                x as int,
                                y as int,
                                cx,
                                cy,
                                v,
                            ))
                        } by {}
                        assert forall|px: int, py: int, cx: int, cy: int|
                            (0 <= py < y || (py == y && px < x + 1)) && on_board(
                                self@,
                                cx,
                                cy,
                            ) implies #[trigger] settled(
                            replacement@,
                            locs@,
                            result@,
                            px,
                            py,
                            cx,
                            cy,
                        ) by {
                            let v = result@[cy][cx];
                            if v == prev[cy][cx] && !covers(
                                replacement@,
                                locs@,
                                x as int,
                                y as int,
                                cx,
                                cy,
                                v,
                            ) {
                                assert(settled(replacement@, locs@, prev, px, py, cx, cy));
                            }
                        }
                    }
                }
                x += 1;
            }
            y += 1;
        }
        proof {
            assert forall|cx: int, cy: int| on_board(self@, cx, cy) implies {
                let v = #[trigger] result@[cy][cx];
                ||| written(replacement@, locs@, cx, cy, v)
                ||| (v == self@[cy][cx] && forall|u: T| !written(replacement@, locs@, cx, cy, u))
            } by {
                let v = result@[cy][cx];
                if !written(replacement@, locs@, cx, cy, v) {
                    assert forall|u: T| !written(replacement@, locs@, cx, cy, u) by {
                        if written(replacement@, locs@, cx, cy, u) {
                            let (px, py) = choose|px: int, py: int| #[trigger]
                                covers(replacement@, locs@, px, py, cx, cy, u);
                            assert(settled(replacement@, locs@, result@, px, py, cx, cy));
                        }
                    }
                }
            }
        }
        result
    }
}

impl<T: Matchable> Board<T> {
    /// One rewriting pass: wherever the template matches this board, the
    /// replacement is laid on a copy of it, as `replace_many` does. Where
    /// the template matches nowhere, the copy equals this board.
    pub fn transform(&self, template: &Board<Option<T>>, replacement: &Board<Option<T>>) -> (r:
        Board<T>)
        requires
            self.wf(),
            template.wf(),
            replacement.wf(),
            fits_within(template@, self@),
            same_shape(replacement@, template@),
        ensures
            r.wf(),
            same_shape(r@, self@),
            stamped(self@, replacement@, match_rows(self@, template@), r@),
            (forall|x: int, y: int|
                on_board(match_rows(self@, template@), x, y) ==> !matches_at(self@, template@, x, y))
                ==> r@ == self@,
    {
        let found = self.scan(template);
        let r = self.replace_many(replacement, &found);
        proof {
            if forall|x: int, y: int|
                on_board(match_rows(self@, template@), x, y) ==> !matches_at(self@, template@, x, y) {
                lemma_unmarked_unchanged(self@, replacement@, found@, r@);
            }
        }
        r
    }
}

/// A rewriting pass over a board on which the template matches nowhere
/// gives the board back: applying the same pass again changes nothing
/// more.
pub proof fn lemma_pass_without_match<T>(
    board: Seq<Seq<T>>,
    template: Seq<Seq<Option<T>>>,
    replacement: Seq<Seq<Option<T>>>,
    after: Seq<Seq<T>>,
)
    requires
        rectangular(board),
        stamped(board, replacement, match_rows(board, template), after),
        forall|x: int, y: int|
            on_board(match_rows(board, template), x, y) ==> !matches_at(board, template, x, y),
    ensures
        after == board,
{
    lemma_unmarked_unchanged(board, replacement, match_rows(board, template), after);
}

/// Laying a replacement on a board that marks no place changes nothing.
pub proof fn lemma_unmarked_unchanged<T>(
    before: Seq<Seq<T>>,
    replacement: Seq<Seq<Option<T>>>,
    locs: Seq<Seq<bool>>,
    after: Seq<Seq<T>>,
)
    requires
        stamped(before, replacement, locs, after),
        forall|y: int| 0 <= y < before.len() ==> (#[trigger] before[y]).len() == width_of(before),
        forall|x: int, y: int| on_board(locs, x, y) ==> !#[trigger] locs[y][x],
    ensures
        after == before,
{
    assert forall|cy: int| 0 <= cy < before.len() implies #[trigger] after[cy] == before[cy] by {
        assert(after[cy].len() == before[cy].len());
        assert forall|cx: int| 0 <= cx < before[cy].len() implies after[cy][cx] == before[cy][cx] by {
            assert(on_board(before, cx, cy));
            let v = after[cy][cx];
            if written(replacement, locs, cx, cy, v) {
                let (x, y) = choose|x: int, y: int| #[trigger]
                    covers(replacement, locs, x, y, cx, cy, v);
                assert(locs[y][x]);
            }
        }
        assert(after[cy] =~= before[cy]);
    }
    assert(after =~= before);
}


/// Every cell of a board with its coordinate, row by row from the top,
/// each row from the left.
pub open spec fn walk<T>(rows: Seq<Seq<T>>) -> Seq<(Xy, T)> {
    rect_coords(0, width_of(rows), 0, rows.len() as int).map_values(
        |xy: Xy| (xy, rows[xy.y as int][xy.x as int]),
    )
}

/// The walk over a board visits every cell once: the cell at column `x`
/// of row `y` comes at place `y * w + x` of the walk over a board of width
/// `w`, and the walk is as long as the board has cells.
pub proof fn lemma_walk_visits_each_cell<T>(rows: Seq<Seq<T>>, x: int, y: int)
    requires
        rectangular(rows),
        on_board(rows, x, y),
    ensures
        walk(rows).len() == rows.len() * width_of(rows),
        0 <= y * width_of(rows) + x < walk(rows).len(),
        walk(rows)[y * width_of(rows) + x] == (Xy { x: x as i64, y: y as i64 }, rows[y][x]),
{
    let (w, h) = (width_of(rows), rows.len() as int);
    lemma_rect_coords_len(0, w, 0, h);
    lemma_rect_coords_index(0, w, 0, h, x, y);
}

/// The lines joined into one text, each followed by a line feed.
pub open spec fn joined_lines(lines: Seq<Seq<char>>) -> Seq<char>
    decreases lines.len(),
{
    if lines.len() == 0 {
        Seq::empty()
    } else {
        joined_lines(lines.drop_last()) + lines.last().push('\n')
    }
}

impl<T: Glyph> Board<T> {
    /// The board as one text: the character of every cell, and a line
    /// feed after every row. A board of marks shows `#` for a set cell
    /// and `.` for a clear one.
    pub fn render(&self) -> (r: String)
        requires
            self.wf(),
        ensures
            r@ == joined_lines(encode_rows(self@)),
    {
        let mut chars: Vec<char> = Vec::new();
        let h = self.height();
        let w = self.width();
        let ghost lines = encode_rows(self@);
        let mut y: usize = 0;
        while y < h
            invariant
                self.wf(),
                h == self@.len(),
                w == width_of(self@),
                lines == encode_rows(self@),
                y <= h,
                chars@ == joined_lines(lines.take(y as int)),
            decreases h - y,
        {
            let mut x: usize = 0;
            while x < w
                invariant
                    self.wf(),
                    h == self@.len(),
                    w == width_of(self@),
                    lines == encode_rows(self@),
                    y < h,
                    x <= w,
                    chars@ == joined_lines(lines.take(y as int)) + lines[y as int].take(x as int),
                decreases w - x,
            {
                let cell = self.at(Xy::new(x as Scalar, y as Scalar));
                chars.push(cell.to_glyph());
                assert(lines[y as int].take(x as int + 1) =~= lines[y as int].take(x as int).push(
                    lines[y as int][x as int],
                ));
                x += 1;
            }
            chars.push('\n');
            proof {
                assert(lines[y as int].take(w as int) =~= lines[y as int]);
                assert(lines.take(y as int + 1).drop_last() =~= lines.take(y as int));
                assert(lines.take(y as int + 1).last() == lines[y as int]);
                assert(chars@ =~= joined_lines(lines.take(y as int)) + lines[y as int].push('\n'));
            }
            y += 1;
        }
        assert(lines.take(h as int) =~= lines);
        string_of(&chars)
    }
}

/// A walk over the cells of a board, row by row. It starts at the
/// top-left corner and cannot be started again once it has come to the
/// end.
pub struct BoardIterator<'a, T> {
    board: &'a Board<T>,
    current_x: usize,
    current_y: usize,
}

impl<'a, T: Copy> BoardIterator<'a, T> {
    /// The rows of the board that is walked over.
    pub closed spec fn rows(&self) -> Seq<Seq<T>> {
        self.board@
    }

    /// The number of cells that the walk has handed out.
    pub closed spec fn passed(&self) -> int {
        self.current_y * width_of(self.board@) + self.current_x
    }

    /// The invariant of every walk handed out by `Board::iter`.
    pub closed spec fn wf(&self) -> bool {
        &&& self.board.wf()
        &&& self.current_y <= self.board@.len()
        &&& self.current_x <= width_of(self.board@)
        &&& self.current_y < self.board@.len() && width_of(self.board@) > 0 ==> self.current_x
            < width_of(self.board@)
        &&& self.current_y == self.board@.len() || width_of(self.board@) == 0 ==> self.current_x == 0
    }

    /// The cells still to come, in the order in which they will come.
    pub open spec fn remaining(&self) -> Seq<(Xy, T)> {
        walk(self.rows()).skip(self.passed())
    }

    /// The next cell with its coordinate, or `None` at the end.
    pub fn next(&mut self) -> (r: Option<(Xy, T)>)
        requires
            old(self).wf(),
        ensures
            final(self).wf(),
            final(self).rows() == old(self).rows(),
            old(self).remaining().len() == 0 ==> r is None,
            old(self).remaining().len() == 0 ==> final(self).remaining() == old(self).remaining(),
            old(self).remaining().len() > 0 ==> r == Some(old(self).remaining()[0]),
            old(self).remaining().len() > 0 ==> final(self).remaining() == old(
                self
            ).remaining().drop_first(),
    {
        let h = self.board.height();
        let w = self.board.width();
        proof {
            lemma_rect_coords_len(0, w as int, 0, h as int);
            assert(self.current_y * w <= h * w) by (nonlinear_arith)
                requires
                    0 <= self.current_y <= h,
                    0 <= w,
            ;
            if self.current_y == h {
                assert(self.passed() == h * w);
            }
            if w == 0 {
                assert(self.passed() == 0 && h * w == 0) by (nonlinear_arith)
                    requires
                        w == 0,
                        self.passed() == self.current_y * w + self.current_x,
                        self.current_x == 0,
                ;
            }
        }
        if self.current_y >= h || w == 0 {
            return None;
        }
        let xy = Xy::new(self.current_x as Scalar, self.current_y as Scalar);
        let content = self.board.at(xy);
        proof {
            lemma_rect_coords_index(0, w as int, 0, h as int, self.current_x as int, self.current_y as int);
            assert(walk(self.rows())[self.passed()] == (xy, content));
            assert((self.current_y + 1) * w == self.current_y * w + w) by (nonlinear_arith);
        }
        let ghost before = self.passed();
        self.current_x += 1;
        if self.current_x >= w {
            self.current_x = 0;
            self.current_y += 1;
        }
        proof {
            assert(self.passed() == before + 1);
            assert(walk(self.rows()).skip(before + 1) =~= walk(self.rows()).skip(before).drop_first());
        }
        Some((xy, content))
    }
}

impl<T: Copy> Board<T> {
    /// A fresh walk over all cells, starting at the top-left corner.
    pub fn iter(&self) -> (r: BoardIterator<'_, T>)
        requires
            self.wf(),
        ensures
            r.wf(),
            r.rows() == self@,
            r.remaining() == walk(self@),
    {
        let r = BoardIterator { board: self, current_x: 0, current_y: 0 };
        proof {
            assert(r.passed() == 0) by (nonlinear_arith)
                requires
                    r.passed() == 0 * width_of(self@) + 0,
            ;
            assert(walk(self@).skip(0) =~= walk(self@));
        }
        r
    }
}

} // verus!
