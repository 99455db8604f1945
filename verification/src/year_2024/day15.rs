//! A robot pushes crates through a warehouse. A move pushes every crate in
//! the robot's way, unless a wall stands behind them. In the wide
//! warehouse a crate takes two places. The puzzle adds up the positions of
//! the crates after all moves.

use crate::common::arith::{add_checked, add_within, known, mul_checked, mul_within};
use crate::common::grid_board;
use crate::common::grid_board::{
    cell_at, coords_holding, lemma_holding_grows, on_board, rectangular, same_shape, width_of,
    Glyph, Matchable, Scalar, Xy,
};
use crate::common::text::{chars_of, lines_of, split_lines, string_of};
use vstd::prelude::*;

verus! {

pub use crate::common::grid_board::Direction;

#[derive(Debug, Clone, Copy, PartialEq, Eq, Hash, Structural)]
pub enum BoardContent {
    Crate,
    BoxLeft,
    BoxRight,
    Wall,
    Robot,
    Empty,
}

/// The character that shows what a place holds.
pub open spec fn content_glyph(c: BoardContent) -> char {
    match c {
        BoardContent::Crate => 'O',
        BoardContent::BoxLeft => '[',
        BoardContent::BoxRight => ']',
        BoardContent::Wall => '#',
        BoardContent::Robot => '@',
        BoardContent::Empty => '.',
    }
}

/// What a character of the puzzle text shows, if it shows anything.
pub open spec fn content_of(c: char) -> Option<BoardContent> {
    if c == 'O' {
        Some(BoardContent::Crate)
    } else if c == '#' {
        Some(BoardContent::Wall)
    } else if c == '@' {
        Some(BoardContent::Robot)
    } else if c == '.' {
        Some(BoardContent::Empty)
    } else {
        None
    }
}

/// What a character of the puzzle text shows in the wide warehouse: two
/// places for each character.
pub open spec fn wide_content_of(c: char) -> Option<(BoardContent, BoardContent)> {
    match content_of(c) {
        Some(BoardContent::Crate) => Some((BoardContent::BoxLeft, BoardContent::BoxRight)),
        Some(BoardContent::Wall) => Some((BoardContent::Wall, BoardContent::Wall)),
        Some(BoardContent::Robot) => Some((BoardContent::Robot, BoardContent::Empty)),
        Some(BoardContent::Empty) => Some((BoardContent::Empty, BoardContent::Empty)),
        _ => None,
    }
}

impl BoardContent {
    pub fn to_char(&self) -> (c: char)
        ensures
            c == content_glyph(*self),
    {
        match self {
            BoardContent::Crate => 'O',
            BoardContent::BoxLeft => '[',
            BoardContent::BoxRight => ']',
            BoardContent::Wall => '#',
            BoardContent::Robot => '@',
            BoardContent::Empty => '.',
        }
    }

    /// Reads any character; `None` for one that shows nothing.
    pub fn try_from_char(c: char) -> (r: Option<BoardContent>)
        ensures
            r == content_of(c),
    {
        match c {
            'O' => Some(BoardContent::Crate),
            '#' => Some(BoardContent::Wall),
            '@' => Some(BoardContent::Robot),
            '.' => Some(BoardContent::Empty),
            _ => None,
        }
    }

    /// Reads a character that is known to be one of `O # @ .`.
    pub fn from_char(c: char) -> (r: BoardContent)
        requires
            content_of(c) is Some,
        ensures
            content_of(c) == Some(r),
    {
        match c {
            'O' => BoardContent::Crate,
            '#' => BoardContent::Wall,
            '@' => BoardContent::Robot,
            _ => BoardContent::Empty,
        }
    }

    /// Reads a character that is known to be one of `O # @ .` for the wide
    /// warehouse.
    pub fn from_char_wide(c: char) -> (r: Vec<BoardContent>)
        requires
            content_of(c) is Some,
        ensures
            r@ == seq![(wide_content_of(c)->0).0, (wide_content_of(c)->0).1],
    {
        let pair = match c {
            'O' => (BoardContent::BoxLeft, BoardContent::BoxRight),
            '#' => (BoardContent::Wall, BoardContent::Wall),
            '@' => (BoardContent::Robot, BoardContent::Empty),
            _ => (BoardContent::Empty, BoardContent::Empty),
        };
        let mut out: Vec<BoardContent> = Vec::new();
        out.push(pair.0);
        out.push(pair.1);
        assert(out@ =~= seq![(wide_content_of(c)->0).0, (wide_content_of(c)->0).1]);
        out
    }
}

impl Glyph for BoardContent {
    open spec fn decode(c: char) -> Option<BoardContent> {
        if c == '[' {
            Some(BoardContent::BoxLeft)
        } else if c == ']' {
            Some(BoardContent::BoxRight)
        } else {
            content_of(c)
        }
    }

    open spec fn encode(self) -> char {
        content_glyph(self)
    }

    fn from_glyph(c: char) -> (r: Option<BoardContent>) {
        match c {
            '[' => Some(BoardContent::BoxLeft),
            ']' => Some(BoardContent::BoxRight),
            _ => BoardContent::try_from_char(c),
        }
    }

    fn to_glyph(self) -> (c: char) {
        self.to_char()
    }
}

impl Matchable for BoardContent {
    fn same(&self, other: &Self) -> (r: bool) {
        *self == *other
    }
}

/// The places of a warehouse.
pub type Cells = grid_board::Board<BoardContent>;

/// A warehouse and the place of the robot in it.
#[derive(Debug)]
pub struct Board {
    pub board: Cells,
    pub robot_location: Xy,
}

/// Whether a place lies in the warehouse and holds something.
pub open spec fn occupied(rows: Seq<Seq<BoardContent>>, b: Xy) -> bool {
    on_board(rows, b.x as int, b.y as int) && rows[b.y as int][b.x as int] != BoardContent::Empty
}

/// Whether what stands on `a` pushes on the place `b` when it moves in the
/// direction `m`: `b` is the place ahead of `a`, or the place of the other
/// half of the box that has one half on `a`.
pub open spec fn pushes_on(rows: Seq<Seq<BoardContent>>, m: Direction, a: Xy, b: Xy) -> bool {
    on_board(rows, a.x as int, a.y as int) && ((b.x == a.x + m.step().0 && b.y == a.y + m.step().1)
        || (rows[a.y as int][a.x as int] == BoardContent::BoxLeft && b.x == a.x + 1 && b.y == a.y)
        || (rows[a.y as int][a.x as int] == BoardContent::BoxRight && b.x == a.x - 1 && b.y == a.y))
}

/// Whether a set of places holds the robot's place and, with every place,
/// the occupied places that it pushes on.
pub open spec fn closed(rows: Seq<Seq<BoardContent>>, m: Direction, robot: Xy, s: Set<Xy>) -> bool {
    s.contains(robot) && forall|a: Xy, b: Xy|
        s.contains(a) && #[trigger] pushes_on(rows, m, a, b) && occupied(rows, b) ==> s.contains(b)
}

/// The places that a move of the robot pushes on: those that every closed
/// set holds.
pub open spec fn pushed(rows: Seq<Seq<BoardContent>>, m: Direction, robot: Xy) -> Set<Xy> {
    Set::new(|c: Xy| forall|s: Set<Xy>| #[trigger] closed(rows, m, robot, s) ==> s.contains(c))
}

/// Whether a wall is among the places that the move pushes on.
pub open spec fn blocked(rows: Seq<Seq<BoardContent>>, m: Direction, robot: Xy) -> bool {
    exists|c: Xy|
        pushed(rows, m, robot).contains(c) && on_board(rows, c.x as int, c.y as int)
            && #[trigger] rows[c.y as int][c.x as int] == BoardContent::Wall
}

/// Whether `zone` lists the places that move with the robot: none if a
/// wall is in the way, and otherwise every place that the move pushes on,
/// once.
pub open spec fn is_move_zone(
    rows: Seq<Seq<BoardContent>>,
    m: Direction,
    robot: Xy,
    zone: Seq<Xy>,
) -> bool {
    if blocked(rows, m, robot) {
        zone.len() == 0
    } else {
        zone.no_duplicates() && zone.to_set() == pushed(rows, m, robot)
    }
}

impl Board {
    /// Whether the robot's place lies in the warehouse.
    pub open spec fn wf(&self) -> bool {
        self.board.wf() && on_board(
            self.board@,
            self.robot_location.x as int,
            self.robot_location.y as int,
        )
    }

    pub fn at(&self, xy: Xy) -> (c: BoardContent)
        requires
            self.board.wf(),
            on_board(self.board@, xy.x as int, xy.y as int),
        ensures
            c == self.board@[xy.y as int][xy.x as int],
    {
        self.board.at(xy)
    }

    pub fn set_at(&mut self, xy: Xy, c: BoardContent)
        requires
            old(self).board.wf(),
            on_board(old(self).board@, xy.x as int, xy.y as int),
        ensures
            final(self).board.wf(),
            final(self).robot_location == old(self).robot_location,
            final(self).board@ == old(self).board@.update(
                xy.y as int,
                old(self).board@[xy.y as int].update(xy.x as int, c),
            ),
    {
        self.board.set_at(xy, c);
    }

    pub fn to_strings(&self) -> (r: Vec<String>)
        requires
            self.board.wf(),
        ensures
            r.deep_view() == grid_board::encode_rows(self.board@),
    {
        self.board.to_strings()
    }

    /// A copy of the warehouse.
    pub fn copy(&self) -> (r: Board)
        ensures
            r.board@ == self.board@,
            r.robot_location == self.robot_location,
    {
        Board { board: self.board.clone(), robot_location: self.robot_location }
    }

    /// The places that move with the robot when it moves in the direction
    /// `m`.
    pub fn get_move_zone(&self, m: Direction) -> (zone: Vec<Xy>)
        requires
            self.wf(),
        ensures
            is_move_zone(self.board@, m, self.robot_location, zone@),
            forall|i: int|
                0 <= i < zone@.len() ==> on_board(
                    self.board@,
                    (#[trigger] zone@[i]).x as int,
                    zone@[i].y as int,
                ),
    {
        let ghost rows = self.board@;
        let ghost robot = self.robot_location;
        let h = self.board.height();
        let w = self.board.width();
        let offset = m.to_offset();
        let mut marks: grid_board::Board<bool> = grid_board::Board::new(h, w, false);
        let mut move_zone: Vec<Xy> = Vec::new();
        let ghost blank = marks@;
        marks.set_at(self.robot_location, true);
        move_zone.push(self.robot_location);
        let ghost area = h * w;
        proof {
            lemma_holding_grows(marks@, marks@, true);
            assert(move_zone@[0] == robot);
            assert forall|x: int, y: int| on_board(rows, x, y) && #[trigger] marks@[y][x] implies move_zone@.contains(
                Xy { x: x as i64, y: y as i64 },
            ) by {
                assert(on_board(blank, x, y));
                assert(!blank[y][x]);
                assert(x == robot.x && y == robot.y);
            }
        }
        let mut i: usize = 0;
        while i < move_zone.len()
            invariant
                self.wf(),
                rows == self.board@,
                robot == self.robot_location,
                h == rows.len(),
                w == width_of(rows),
                area == h * w,
                (offset.x as int, offset.y as int) == m.step(),
                marks.wf(),
                same_shape(marks@, rows),
                i <= move_zone@.len(),
                move_zone@.len() >= 1,
                move_zone@[0] == robot,
                move_zone@.no_duplicates(),
                forall|j: int|
                    0 <= j < move_zone@.len() ==> on_board(
                        rows,
                        (#[trigger] move_zone@[j]).x as int,
                        move_zone@[j].y as int,
                    ) && marks@[move_zone@[j].y as int][move_zone@[j].x as int],
                forall|x: int, y: int|
                    on_board(rows, x, y) && #[trigger] marks@[y][x] ==> move_zone@.contains(
                        Xy { x: x as i64, y: y as i64 },
                    ),
                forall|s: Set<Xy>, j: int|
                    #[trigger] closed(rows, m, robot, s) && 0 <= j < move_zone@.len() ==> s.contains(
                        #[trigger] move_zone@[j],
                    ),
                forall|j: int, b: Xy|
                    0 <= j < i && #[trigger] pushes_on(rows, m, move_zone@[j], b) && occupied(rows, b)
                        ==> marks@[b.y as int][b.x as int],
                forall|j: int|
                    0 <= j < i ==> rows[(#[trigger] move_zone@[j]).y as int][move_zone@[j].x as int]
                        != BoardContent::Wall,
                coords_holding(marks@, true).len() <= area,
            decreases area - coords_holding(marks@, true).len() + (move_zone@.len() - i),
        {
            let xy = move_zone[i];
            let here = self.at(xy);
            if here.same(&BoardContent::Wall) {
                proof {
                    assert(pushed(rows, m, robot).contains(xy));
                    assert(rows[xy.y as int][xy.x as int] == BoardContent::Wall);
                }
                return Vec::new();
            }
            let sideways: Option<Xy> = match here {
                BoardContent::BoxLeft => xy.checked_add(Xy::new(1, 0)),
                BoardContent::BoxRight => xy.checked_add(Xy::new(-1, 0)),
                _ => None,
            };
            let ahead = xy.checked_add(offset);
            let ghost zone_before = move_zone@;
            let ghost marks_before = marks@;
            self.pull(m, xy, ahead, &mut marks, &mut move_zone);
            let ghost zone_mid = move_zone@;
            let ghost marks_mid = marks@;
            self.pull(m, xy, sideways, &mut marks, &mut move_zone);
            proof {
                assert forall|j: int, b: Xy|
                    0 <= j < i + 1 && #[trigger] pushes_on(rows, m, move_zone@[j], b) && occupied(
                        rows,
                        b,
                    ) implies marks@[b.y as int][b.x as int] by {
                    assert(move_zone@[j] == zone_before[j]);
                    if j < i {
                        assert(marks_before[b.y as int][b.x as int]);
                        assert(marks_mid[b.y as int][b.x as int]);
                    } else {
                        if b.x == xy.x + m.step().0 && b.y == xy.y + m.step().1 {
                            assert(ahead == Some(b));
                            assert(marks_mid[b.y as int][b.x as int]);
                        } else {
                            assert(sideways == Some(b));
                        }
                    }
                }
                assert forall|j: int| 0 <= j < i + 1 implies rows[(#[trigger] move_zone@[j]).y as int][move_zone@[j].x as int]
                    != BoardContent::Wall by {
                    assert(move_zone@[j] == zone_before[j]);
                }
            }
            i += 1;
        }
        proof {
            let zone = move_zone@.to_set();
            assert(closed(rows, m, robot, zone)) by {
                assert(zone.contains(robot));
                assert forall|a: Xy, b: Xy|
                    zone.contains(a) && #[trigger] pushes_on(rows, m, a, b) && occupied(
                        rows,
                        b,
                    ) implies zone.contains(b) by {
                    let j = choose|j: int| 0 <= j < move_zone@.len() && move_zone@[j] == a;
                    assert(pushes_on(rows, m, move_zone@[j], b));
                    assert(marks@[b.y as int][b.x as int]);
                    assert(move_zone@.contains(Xy { x: b.x as int as i64, y: b.y as int as i64 }));
                }
            }
            assert forall|c: Xy| zone.contains(c) == pushed(rows, m, robot).contains(c) by {
                if zone.contains(c) {
                    let j = choose|j: int| 0 <= j < move_zone@.len() && move_zone@[j] == c;
                    assert forall|s: Set<Xy>| #[trigger] closed(rows, m, robot, s) implies s.contains(
                        c,
                    ) by {
                        assert(s.contains(move_zone@[j]));
                    }
                }
            }
            assert(zone =~= pushed(rows, m, robot));
            if blocked(rows, m, robot) {
                let c = choose|c: Xy|
                    pushed(rows, m, robot).contains(c) && on_board(rows, c.x as int, c.y as int)
                        && #[trigger] rows[c.y as int][c.x as int] == BoardContent::Wall;
                let j = choose|j: int| 0 <= j < move_zone@.len() && move_zone@[j] == c;
                assert(rows[move_zone@[j].y as int][move_zone@[j].x as int] != BoardContent::Wall);
            }
        }
        move_zone
    }

    /// Puts the place `to` on the list of places that move, if something
    /// stands there that is not on the list yet.
    fn pull(
        &self,
        m: Direction,
        from: Xy,
        to: Option<Xy>,
        marks: &mut grid_board::Board<bool>,
        zone: &mut Vec<Xy>,
    )
        requires
            self.wf(),
            old(marks).wf(),
            same_shape(old(marks)@, self.board@),
            old(zone)@.contains(from),
            old(zone)@.no_duplicates(),
            to matches Some(b) ==> pushes_on(self.board@, m, from, b),
            forall|j: int|
                0 <= j < old(zone)@.len() ==> on_board(
                    self.board@,
                    (#[trigger] old(zone)@[j]).x as int,
                    old(zone)@[j].y as int,
                ) && old(marks)@[old(zone)@[j].y as int][old(zone)@[j].x as int],
            forall|x: int, y: int|
                on_board(self.board@, x, y) && #[trigger] old(marks)@[y][x] ==> old(zone)@.contains(
                    Xy { x: x as i64, y: y as i64 },
                ),
            forall|s: Set<Xy>, j: int|
                #[trigger] closed(self.board@, m, self.robot_location, s) && 0 <= j < old(zone)@.len()
                    ==> s.contains(#[trigger] old(zone)@[j]),
            coords_holding(old(marks)@, true).len() <= self.board@.len() * width_of(self.board@),
        ensures
            final(marks).wf(),
            same_shape(final(marks)@, self.board@),
            final(zone)@.no_duplicates(),
            final(zone)@.len() >= old(zone)@.len(),
            forall|j: int| 0 <= j < old(zone)@.len() ==> final(zone)@[j] == old(zone)@[j],
            forall|j: int|
                0 <= j < final(zone)@.len() ==> on_board(
                    self.board@,
                    (#[trigger] final(zone)@[j]).x as int,
                    final(zone)@[j].y as int,
                ) && final(marks)@[final(zone)@[j].y as int][final(zone)@[j].x as int],
            forall|x: int, y: int|
                on_board(self.board@, x, y) && #[trigger] final(marks)@[y][x] ==> final(zone)@.contains(
                    Xy { x: x as i64, y: y as i64 },
                ),
            forall|x: int, y: int|
                on_board(self.board@, x, y) && old(marks)@[y][x] ==> #[trigger] final(marks)@[y][x],
            forall|s: Set<Xy>, j: int|
                #[trigger] closed(self.board@, m, self.robot_location, s) && 0 <= j < final(zone)@.len()
                    ==> s.contains(#[trigger] final(zone)@[j]),
            to matches Some(b) ==> (occupied(self.board@, b) ==> final(marks)@[b.y as int][b.x as int]),
            coords_holding(final(marks)@, true).len() >= coords_holding(old(marks)@, true).len() + (
            final(zone)@.len() - old(zone)@.len()),
            coords_holding(final(marks)@, true).len() <= self.board@.len() * width_of(self.board@),
    {
        let ghost rows = self.board@;
        let ghost before = marks@;
        let ghost list = zone@;
        proof {
            lemma_holding_grows(before, before, true);
        }
        if let Some(b) = to {
            match self.board.maybe_at(b) {
                Some(content) => {
                    if !content.same(&BoardContent::Empty) && !marks.at(b) {
                        marks.set_at(b, true);
                        zone.push(b);
                        proof {
                            lemma_holding_grows(before, marks@, true);
                            assert(marks@[b.y as int][b.x as int] != before[b.y as int][b.x as int]);
                            assert(zone@.drop_last() =~= list);
                            assert(!list.contains(b)) by {
                                if list.contains(b) {
                                    let j = choose|j: int| 0 <= j < list.len() && list[j] == b;
                                    assert(before[list[j].y as int][list[j].x as int]);
                                }
                            }
                            assert forall|p: int, q: int|
                                0 <= p < zone@.len() && 0 <= q < zone@.len() && p != q implies zone@[p]
                                != zone@[q] by {
                                if p < list.len() && q < list.len() {
                                    assert(list[p] != list[q]);
                                } else if p < list.len() {
                                    assert(list.contains(list[p]));
                                } else {
                                    assert(list.contains(list[q]));
                                }
                            }
                            assert forall|x: int, y: int|
                                on_board(rows, x, y) && #[trigger] marks@[y][x] implies zone@.contains(
                                Xy { x: x as i64, y: y as i64 },
                            ) by {
                                let c = Xy { x: x as i64, y: y as i64 };
                                if before[y][x] {
                                    let j = choose|j: int| 0 <= j < list.len() && list[j] == c;
                                    assert(zone@[j] == c);
                                } else {
                                    assert(zone@[list.len() as int] == c);
                                }
                            }
                            assert forall|s: Set<Xy>, j: int|
                                #[trigger] closed(rows, m, self.robot_location, s) && 0 <= j
                                    < zone@.len() implies s.contains(#[trigger] zone@[j]) by {
                                if j < list.len() {
                                    assert(s.contains(list[j]));
                                } else {
                                    let k = choose|k: int| 0 <= k < list.len() && list[k] == from;
                                    assert(s.contains(list[k]));
                                    assert(pushes_on(rows, m, from, b));
                                }
                            }
                        }
                    }
                },
                None => {},
            }
        }
    }
}


/// The place one step back from `(x, y)` against the direction `m`.
pub open spec fn back_of(m: Direction, x: int, y: int) -> Xy {
    Xy { x: (x - m.step().0) as i64, y: (y - m.step().1) as i64 }
}

/// The warehouse after everything on the places of `zone` has moved one
/// step in the direction `m`: a place holds what has moved onto it, or
/// nothing if what stood on it has moved away and nothing has come.
pub open spec fn shifted(rows: Seq<Seq<BoardContent>>, zone: Set<Xy>, m: Direction) -> Seq<
    Seq<BoardContent>,
> {
    Seq::new(
        rows.len(),
        |y: int|
            Seq::new(
                width_of(rows) as nat,
                |x: int|
                    if zone.contains(back_of(m, x, y)) && on_board(
                        rows,
                        x - m.step().0,
                        y - m.step().1,
                    ) {
                        rows[y - m.step().1][x - m.step().0]
                    } else if zone.contains(Xy { x: x as i64, y: y as i64 }) {
                        BoardContent::Empty
                    } else {
                        rows[y][x]
                    },
            ),
    )
}

/// Whether every place of the list has the place ahead of it in the
/// warehouse.
pub open spec fn has_room(rows: Seq<Seq<BoardContent>>, zone: Seq<Xy>, m: Direction) -> bool {
    forall|i: int|
        0 <= i < zone.len() ==> on_board(
            rows,
            (#[trigger] zone[i]).x + m.step().0,
            zone[i].y + m.step().1,
        )
}

/// Whether the place ahead of `c` in the direction `m` lies outside the
/// warehouse.
pub open spec fn leaves(rows: Seq<Seq<BoardContent>>, m: Direction, c: Xy) -> bool {
    !on_board(rows, c.x + m.step().0, c.y + m.step().1)
}

/// The warehouse and the robot's place after a move from `rows` and
/// `robot`: as before if a wall is in the way, and else with everything
/// that the move pushes on one step further. `None` if something would
/// leave the warehouse.
pub open spec fn move_result(rows: Seq<Seq<BoardContent>>, robot: Xy, m: Direction) -> Option<
    (Seq<Seq<BoardContent>>, Xy),
> {
    if blocked(rows, m, robot) {
        Some((rows, robot))
    } else if exists|c: Xy| pushed(rows, m, robot).contains(c) && #[trigger] leaves(rows, m, c) {
        None
    } else {
        Some(
            (
                shifted(rows, pushed(rows, m, robot), m),
                Xy { x: (robot.x + m.step().0) as i64, y: (robot.y + m.step().1) as i64 },
            ),
        )
    }
}

/// Whether `after` is the warehouse and the robot's place after a move.
pub open spec fn is_moved(
    rows: Seq<Seq<BoardContent>>,
    robot: Xy,
    m: Direction,
    after: Option<(Seq<Seq<BoardContent>>, Xy)>,
) -> bool {
    after == move_result(rows, robot, m)
}

impl Board {
    /// The state of the warehouse: its places and the robot's place.
    pub open spec fn state(&self) -> (Seq<Seq<BoardContent>>, Xy) {
        (self.board@, self.robot_location)
    }

    /// The warehouse after a move of the robot in the direction `m`.
    pub fn moved(&self, m: Direction) -> (r: Option<Board>)
        requires
            self.wf(),
        ensures
            is_moved(
                self.board@,
                self.robot_location,
                m,
                match r {
                    Some(b) => Some(b.state()),
                    None => None,
                },
            ),
            r matches Some(b) ==> b.wf(),
    {
        let ghost rows = self.board@;
        let ghost robot = self.robot_location;
        let zone = self.get_move_zone(m);
        if zone.len() == 0 {
            proof {
                if !blocked(rows, m, robot) {
                    assert(pushed(rows, m, robot).contains(robot));
                    assert(zone@.to_set().contains(robot));
                }
            }
            return Some(self.copy());
        }
        proof {
            if blocked(rows, m, robot) {
                assert(zone@.len() == 0);
            }
        }
        let offset = m.to_offset();
        let mut k: usize = 0;
        while k < zone.len()
            invariant
                self.wf(),
                rows == self.board@,
                robot == self.robot_location,
                !blocked(rows, m, robot),
                zone@.to_set() == pushed(rows, m, robot),
                (offset.x as int, offset.y as int) == m.step(),
                k <= zone@.len(),
                forall|i: int|
                    0 <= i < zone@.len() ==> on_board(
                        rows,
                        (#[trigger] zone@[i]).x as int,
                        zone@[i].y as int,
                    ),
                forall|i: int|
                    0 <= i < k ==> on_board(
                        rows,
                        (#[trigger] zone@[i]).x + m.step().0,
                        zone@[i].y + m.step().1,
                    ),
            decreases zone@.len() - k,
        {
            let target = zone[k].add(offset);
            if self.board.maybe_at(target).is_none() {
                proof {
                    assert(zone@.to_set().contains(zone@[k as int]));
                    assert(leaves(rows, m, zone@[k as int]));
                }
                return None;
            }
            k += 1;
        }
        assert(has_room(rows, zone@, m));
        let mut new_board = self.copy();
        let mut k: usize = 0;
        while k < zone.len()
            invariant
                self.wf(),
                rows == self.board@,
                new_board.board.wf(),
                new_board.robot_location == self.robot_location,
                same_shape(new_board.board@, rows),
                k <= zone@.len(),
                forall|i: int|
                    0 <= i < zone@.len() ==> on_board(
                        rows,
                        (#[trigger] zone@[i]).x as int,
                        zone@[i].y as int,
                    ),
                forall|x: int, y: int|
                    on_board(rows, x, y) ==> #[trigger] new_board.board@[y][x] == (if zone@.take(
                        k as int,
                    ).contains(Xy { x: x as i64, y: y as i64 }) {
                        BoardContent::Empty
                    } else {
                        rows[y][x]
                    }),
            decreases zone@.len() - k,
        {
            let xy = zone[k];
            new_board.set_at(xy, BoardContent::Empty);
            proof {
                let shorter = zone@.take(k as int);
                let longer = zone@.take(k as int + 1);
                assert(longer =~= shorter.push(xy));
                assert forall|c: Xy| longer.contains(c) == (shorter.contains(c) || c == xy) by {
                    vstd::seq_lib::lemma_seq_contains_after_push(shorter, xy, c);
                }
            }
            k += 1;
        }
        assert(zone@.take(zone@.len() as int) =~= zone@);
        let ghost cleared = new_board.board@;
        let mut k: usize = 0;
        while k < zone.len()
            invariant
                self.wf(),
                rows == self.board@,
                (offset.x as int, offset.y as int) == m.step(),
                new_board.board.wf(),
                new_board.robot_location == self.robot_location,
                same_shape(new_board.board@, rows),
                has_room(rows, zone@, m),
                k <= zone@.len(),
                forall|i: int|
                    0 <= i < zone@.len() ==> on_board(
                        rows,
                        (#[trigger] zone@[i]).x as int,
                        zone@[i].y as int,
                    ),
                forall|x: int, y: int|
                    on_board(rows, x, y) ==> #[trigger] new_board.board@[y][x] == (if zone@.take(
                        k as int,
                    ).contains(back_of(m, x, y)) && on_board(rows, x - m.step().0, y - m.step().1) {
                        rows[y - m.step().1][x - m.step().0]
                    } else if zone@.contains(Xy { x: x as i64, y: y as i64 }) {
                        BoardContent::Empty
                    } else {
                        rows[y][x]
                    }),
            decreases zone@.len() - k,
        {
            let xy = zone[k];
            let target = xy.add(offset);
            new_board.set_at(target, self.at(xy));
            proof {
                let shorter = zone@.take(k as int);
                let longer = zone@.take(k as int + 1);
                assert(longer =~= shorter.push(xy));
                assert forall|c: Xy| longer.contains(c) == (shorter.contains(c) || c == xy) by {
                    vstd::seq_lib::lemma_seq_contains_after_push(shorter, xy, c);
                }
                assert(back_of(m, target.x as int, target.y as int) == xy);
                assert forall|x: int, y: int| on_board(rows, x, y) implies #[trigger] new_board.board@[y][x]
                    == (if longer.contains(back_of(m, x, y)) && on_board(
                    rows,
                    x - m.step().0,
                    y - m.step().1,
                ) {
                    rows[y - m.step().1][x - m.step().0]
                } else if zone@.contains(Xy { x: x as i64, y: y as i64 }) {
                    BoardContent::Empty
                } else {
                    rows[y][x]
                }) by {
                    if x == target.x && y == target.y {
                    } else {
                        if back_of(m, x, y) == xy {
                            assert(x - m.step().0 == xy.x && y - m.step().1 == xy.y);
                        }
                    }
                }
            }
            k += 1;
        }
        assert(zone@.take(zone@.len() as int) =~= zone@);
        proof {
            assert(zone@.to_set().contains(robot));
            let j = choose|j: int| 0 <= j < zone@.len() && zone@[j] == robot;
            assert(on_board(rows, zone@[j].x + m.step().0, zone@[j].y + m.step().1));
        }
        new_board.robot_location = self.robot_location.add(offset);
        proof {
            let wanted = shifted(rows, pushed(rows, m, robot), m);
            assert forall|y: int| 0 <= y < rows.len() implies #[trigger] new_board.board@[y] == wanted[y] by {
                assert(new_board.board@[y].len() == width_of(rows));
                assert forall|x: int| 0 <= x < width_of(rows) implies new_board.board@[y][x]
                    == wanted[y][x] by {
                    assert(on_board(rows, x, y));
                    assert(zone@.contains(back_of(m, x, y)) == zone@.to_set().contains(back_of(m, x, y)));
                    assert(zone@.contains(Xy { x: x as i64, y: y as i64 }) == zone@.to_set().contains(
                        Xy { x: x as i64, y: y as i64 },
                    ));
                }
                assert(new_board.board@[y] =~= wanted[y]);
            }
            assert(new_board.board@ =~= wanted);
            assert forall|c: Xy| pushed(rows, m, robot).contains(c) implies !#[trigger] leaves(
                rows,
                m,
                c,
            ) by {
                assert(zone@.to_set().contains(c));
                let j = choose|j: int| 0 <= j < zone@.len() && zone@[j] == c;
                assert(on_board(rows, zone@[j].x + m.step().0, zone@[j].y + m.step().1));
            }
        }
        Some(new_board)
    }

    /// Moves the robot in the direction `m`. Tells whether that could be
    /// done, and leaves the warehouse as it is where it could not.
    pub fn apply_move(&mut self, m: Direction) -> (done: bool)
        requires
            old(self).wf(),
        ensures
            final(self).wf(),
            is_moved(
                old(self).board@,
                old(self).robot_location,
                m,
                if done {
                    Some(final(self).state())
                } else {
                    None
                },
            ),
            !done ==> final(self).state() == old(self).state(),
    {
        match self.moved(m) {
            Some(next) => {
                *self = next;
                true
            },
            None => false,
        }
    }

    /// The sum of the positions of the crates before column `x` of row `y`
    /// and in the rows above: a hundred times the row and once the column
    /// of every crate, and of every left half of a wide one.
    pub open spec fn score_before(rows: Seq<Seq<BoardContent>>, x: int, y: int) -> Option<int>
        decreases y, x,
    {
        if y < 0 || (y == 0 && x <= 0) {
            Some(0)
        } else if x <= 0 {
            Self::score_before(rows, width_of(rows), y - 1)
        } else {
            let before = Self::score_before(rows, x - 1, y);
            if rows[y][x - 1] == BoardContent::BoxLeft || rows[y][x - 1] == BoardContent::Crate {
                add_within(before, add_within(mul_within(Some(y), Some(100)), Some(x - 1)))
            } else {
                before
            }
        }
    }

    pub fn score(&self) -> (r: Option<Scalar>)
        requires
            self.board.wf(),
        ensures
            known(r) == Self::score_before(self.board@, 0, self.board@.len() as int),
    {
        let ghost rows = self.board@;
        let h = self.board.height();
        let w = self.board.width();
        let mut result: Option<Scalar> = Some(0);
        let mut y: usize = 0;
        while y < h
            invariant
                self.board.wf(),
                rows == self.board@,
                h == rows.len(),
                w == width_of(rows),
                y <= h,
                known(result) == Self::score_before(rows, 0, y as int),
            decreases h - y,
        {
            let mut x: usize = 0;
            while x < w
                invariant
                    self.board.wf(),
                    rows == self.board@,
                    h == rows.len(),
                    w == width_of(rows),
                    y < h,
                    x <= w,
                    known(result) == Self::score_before(rows, x as int, y as int) || (x == 0
                        && known(result) == Self::score_before(rows, 0, y as int)),
                decreases w - x,
            {
                assert(known(result) == Self::score_before(rows, x as int, y as int));
                let c = self.board.at(Xy::new(x as Scalar, y as Scalar));
                if c.same(&BoardContent::BoxLeft) || c.same(&BoardContent::Crate) {
                    let position = add_checked(
                        mul_checked(Some(y as Scalar), Some(100)),
                        Some(x as Scalar),
                    );
                    result = add_checked(result, position);
                }
                x += 1;
            }
            y += 1;
        }
        result
    }
}


/// The places that one line of the puzzle text shows: one for each
/// character, or two in the wide warehouse. `None` if a character shows
/// nothing.
pub open spec fn row_of(line: Seq<char>, wide: bool) -> Option<Seq<BoardContent>> {
    if forall|i: int| 0 <= i < line.len() ==> (#[trigger] content_of(line[i])) is Some {
        if wide {
            Some(
                Seq::new(
                    2 * line.len(),
                    |i: int|
                        if i % 2 == 0 {
                            (wide_content_of(line[i / 2])->0).0
                        } else {
                            (wide_content_of(line[i / 2])->0).1
                        },
                ),
            )
        } else {
            Some(Seq::new(line.len(), |i: int| content_of(line[i])->0))
        }
    } else {
        None
    }
}

/// The places that the lines show.
pub open spec fn rows_of(lines: Seq<Seq<char>>, wide: bool) -> Option<Seq<Seq<BoardContent>>> {
    if forall|y: int| 0 <= y < lines.len() ==> (#[trigger] row_of(lines[y], wide)) is Some {
        Some(Seq::new(lines.len(), |y: int| row_of(lines[y], wide)->0))
    } else {
        None
    }
}

/// The place of the first `@` among the first `n` characters of a line.
pub open spec fn first_robot(line: Seq<char>, n: int) -> Option<int>
    decreases n,
{
    if n <= 0 {
        None
    } else {
        match first_robot(line, n - 1) {
            Some(at) => Some(at),
            None => if line[n - 1] == '@' {
                Some(n - 1)
            } else {
                None
            },
        }
    }
}

/// The robot's place as the first `n` lines show it: at the first `@` of
/// the last line that has one.
pub open spec fn robot_in(lines: Seq<Seq<char>>, wide: bool, n: int) -> Option<(int, int)>
    decreases n,
{
    if n <= 0 {
        None
    } else {
        match first_robot(lines[n - 1], lines[n - 1].len() as int) {
            Some(x) => Some((if wide {
                2 * x
            } else {
                x
            }, n - 1)),
            None => robot_in(lines, wide, n - 1),
        }
    }
}

/// The warehouse that the lines show, with the robot's place. `None` if a
/// character shows nothing, the lines are no rectangle, or there is no
/// robot.
pub open spec fn warehouse_of(lines: Seq<Seq<char>>, wide: bool) -> Option<
    (Seq<Seq<BoardContent>>, Xy),
> {
    match (rows_of(lines, wide), robot_in(lines, wide, lines.len() as int)) {
        (Some(rows), Some((x, y))) => if rectangular(rows) && on_board(rows, x, y) {
            Some((rows, Xy { x: x as i64, y: y as i64 }))
        } else {
            None
        },
        _ => None,
    }
}

pub proof fn lemma_first_robot_found(line: Seq<char>, n: int, m: int)
    requires
        0 <= n <= m,
        first_robot(line, n) is Some,
    ensures
        first_robot(line, m) == first_robot(line, n),
    decreases m - n,
{
    if n < m {
        lemma_first_robot_found(line, n, m - 1);
    }
}

/// Reads one line of the warehouse.
pub fn parse_row(line: &Vec<char>, wide: bool) -> (r: Option<Vec<BoardContent>>)
    ensures
        match row_of(line@, wide) {
            Some(row) => r is Some && r->0@ == row,
            None => r is None,
        },
{
    let mut row: Vec<BoardContent> = Vec::new();
    let mut i: usize = 0;
    while i < line.len()
        invariant
            i <= line@.len(),
            forall|k: int| 0 <= k < i ==> (#[trigger] content_of(line@[k])) is Some,
            wide ==> row@.len() == 2 * i && forall|k: int|
                0 <= k < 2 * i ==> #[trigger] row@[k] == (if k % 2 == 0 {
                    (wide_content_of(line@[k / 2])->0).0
                } else {
                    (wide_content_of(line@[k / 2])->0).1
                }),
            !wide ==> row@.len() == i && forall|k: int|
                0 <= k < i ==> #[trigger] row@[k] == content_of(line@[k])->0,
        decreases line@.len() - i,
    {
        let c = line[i];
        if BoardContent::try_from_char(c).is_none() {
            return None;
        }
        if wide {
            let pair = BoardContent::from_char_wide(c);
            row.push(pair[0]);
            row.push(pair[1]);
        } else {
            row.push(BoardContent::from_char(c));
        }
        i += 1;
    }
    assert(row@ =~= row_of(line@, wide)->0);
    Some(row)
}

/// The place of the first `@` of a line.
pub fn find_robot(line: &Vec<char>) -> (r: Option<usize>)
    ensures
        match first_robot(line@, line@.len() as int) {
            Some(at) => r is Some && r->0 == at && at < line@.len(),
            None => r is None,
        },
{
    let mut n: usize = 0;
    while n < line.len()
        invariant
            n <= line@.len(),
            first_robot(line@, n as int) is None,
        decreases line@.len() - n,
    {
        if line[n] == '@' {
            proof {
                lemma_first_robot_found(line@, n as int + 1, line@.len() as int);
            }
            return Some(n);
        }
        n += 1;
    }
    None
}

impl Board {
    /// Reads a warehouse from lines of text.
    pub fn from_strings(strings: Vec<String>, wide: bool) -> (r: Option<Board>)
        ensures
            match warehouse_of(strings.deep_view(), wide) {
                Some(state) => r is Some && r->0.state() == state && r->0.wf(),
                None => r is None,
            },
    {
        let ghost lines = strings.deep_view();
        let mut rows: Vec<Vec<BoardContent>> = Vec::new();
        let mut robot: Option<(usize, usize)> = None;
        let mut y: usize = 0;
        while y < strings.len()
            invariant
                lines == strings.deep_view(),
                y <= strings@.len(),
                rows@.len() == y,
                forall|j: int| 0 <= j < y ==> (#[trigger] row_of(lines[j], wide)) == Some(rows@[j]@),
                match robot_in(lines, wide, y as int) {
                    Some((rx, ry)) => robot is Some && (robot->0).0 == rx && (robot->0).1 == ry,
                    None => robot is None,
                },
                robot matches Some(at) ==> at.1 < y && at.0 <= 2 * lines[at.1 as int].len(),
            decreases strings@.len() - y,
        {
            let line = chars_of(strings[y].as_str());
            assert(lines[y as int] == line@);
            match parse_row(&line, wide) {
                Some(row) => {
                    rows.push(row);
                },
                None => {
                    assert(row_of(lines[y as int], wide) is None);
                    return None;
                },
            }
            if let Some(x) = find_robot(&line) {
                if wide {
                    if x > usize::MAX / 2 {
                        proof {
                            if let Some(all) = rows_of(lines, wide) {
                                assert(all[y as int] == row_of(lines[y as int], wide)->0);
                                assert(all[y as int].len() == 2 * line@.len());
                                if rectangular(all) {
                                    assert(all[y as int].len() == all[0].len());
                                    assert(all.len() * all[0].len() >= all[0].len()) by (nonlinear_arith)
                                        requires
                                            all.len() >= 1,
                                    ;
                                }
                            }
                        }
                        return None;
                    }
                    robot = Some((2 * x, y));
                } else {
                    robot = Some((x, y));
                }
            }
            y += 1;
        }
        let ghost wanted = rows_of(lines, wide)->0;
        assert(rows@.map_values(|row: Vec<BoardContent>| row@) =~= wanted);
        let (rx, ry) = match robot {
            Some(at) => at,
            None => {
                return None;
            },
        };
        let board = match grid_board::Board::try_from_rows(rows) {
            Some(board) => board,
            None => {
                return None;
            },
        };
        if rx >= board.width() {
            return None;
        }
        Some(Board { board, robot_location: Xy::new(rx as Scalar, ry as Scalar) })
    }
}

/// The warehouse after the first `n` moves. `None` once something would
/// have left the warehouse.
pub open spec fn after_moves(start: (Seq<Seq<BoardContent>>, Xy), moves: Seq<Direction>, n: int) -> Option<
    (Seq<Seq<BoardContent>>, Xy),
>
    decreases n,
{
    if n <= 0 {
        Some(start)
    } else {
        match after_moves(start, moves, n - 1) {
            Some((rows, robot)) => move_result(rows, robot, moves[n - 1]),
            None => None,
        }
    }
}

pub proof fn lemma_moves_stay_lost(start: (Seq<Seq<BoardContent>>, Xy), moves: Seq<Direction>, n: int, m: int)
    requires
        0 <= n <= m,
        after_moves(start, moves, n) is None,
    ensures
        after_moves(start, moves, m) is None,
    decreases m - n,
{
    if n < m {
        lemma_moves_stay_lost(start, moves, n, m - 1);
    }
}

/// Makes all the moves. Tells whether that could be done.
pub fn run_moves(board: &mut Board, moves: &Vec<Direction>) -> (done: bool)
    requires
        old(board).wf(),
    ensures
        final(board).wf(),
        match after_moves(old(board).state(), moves@, moves@.len() as int) {
            Some(state) => done && final(board).state() == state,
            None => !done,
        },
{
    let ghost start = board.state();
    let mut n: usize = 0;
    while n < moves.len()
        invariant
            board.wf(),
            start == old(board).state(),
            n <= moves@.len(),
            after_moves(start, moves@, n as int) == Some(board.state()),
        decreases moves@.len() - n,
    {
        assert(after_moves(start, moves@, n as int + 1 - 1) == Some(board.state()));
        if !board.apply_move(moves[n]) {
            proof {
                lemma_moves_stay_lost(start, moves@, n as int + 1, moves@.len() as int);
            }
            return false;
        }
        n += 1;
    }
    true
}

/// The lines of the first `n` that start with `#`: those that show the
/// warehouse.
pub open spec fn board_lines(lines: Seq<Seq<char>>, n: int) -> Seq<Seq<char>>
    decreases n,
{
    if n <= 0 {
        Seq::empty()
    } else if lines[n - 1].len() > 0 && lines[n - 1][0] == '#' {
        board_lines(lines, n - 1).push(lines[n - 1])
    } else {
        board_lines(lines, n - 1)
    }
}

/// The characters of the lines among the first `n` that hold a `^`, one
/// line after the other: those that list the moves.
pub open spec fn move_text(lines: Seq<Seq<char>>, n: int) -> Seq<char>
    decreases n,
{
    if n <= 0 {
        Seq::empty()
    } else if lines[n - 1].contains('^') {
        move_text(lines, n - 1) + lines[n - 1]
    } else {
        move_text(lines, n - 1)
    }
}

/// The moves that a text lists, if every character shows a direction.
pub open spec fn moves_of(text: Seq<char>) -> Option<Seq<Direction>> {
    if forall|i: int| 0 <= i < text.len() ==> (#[trigger] Direction::of_glyph(text[i])) is Some {
        Some(Seq::new(text.len(), |i: int| Direction::of_glyph(text[i])->0))
    } else {
        None
    }
}

/// The sum of the positions of the crates after all moves, for the lines
/// of the puzzle text. `None` if the lines show no warehouse, list a
/// character that is no move, something would leave the warehouse, or the
/// sum leaves the range of `i64`.
pub open spec fn answer_for(lines: Seq<Seq<char>>, wide: bool) -> Option<int> {
    let n = lines.len() as int;
    match (warehouse_of(board_lines(lines, n), wide), moves_of(move_text(lines, n))) {
        (Some(start), Some(moves)) => match after_moves(start, moves, moves.len() as int) {
            Some((rows, _)) => Board::score_before(rows, 0, rows.len() as int),
            None => None,
        },
        _ => None,
    }
}

/// Tells whether a line holds the character.
fn holds(line: &Vec<char>, c: char) -> (r: bool)
    ensures
        r == line@.contains(c),
{
    let mut i: usize = 0;
    while i < line.len()
        invariant
            i <= line@.len(),
            forall|k: int| 0 <= k < i ==> line@[k] != c,
        decreases line@.len() - i,
    {
        if line[i] == c {
            return true;
        }
        i += 1;
    }
    false
}

/// Reads the warehouse and the moves, makes the moves and adds up the
/// positions of the crates.
pub fn solve(lines: &Vec<String>, wide: bool) -> (r: Option<i64>)
    ensures
        known(r) == answer_for(lines.deep_view(), wide),
{
    let ghost texts = lines.deep_view();
    let mut board_strings: Vec<String> = Vec::new();
    let mut moves: Vec<Direction> = Vec::new();
    let mut bad_move = false;
    let ghost mut listed: Seq<char> = Seq::empty();
    let mut n: usize = 0;
    assert(board_strings.deep_view() =~= Seq::<Seq<char>>::empty());
    while n < lines.len()
        invariant
            texts == lines.deep_view(),
            n <= lines@.len(),
            board_strings.deep_view() == board_lines(texts, n as int),
            listed == move_text(texts, n as int),
            !bad_move ==> moves_of(listed) == Some(moves@),
            bad_move ==> moves_of(listed) is None,
        decreases lines@.len() - n,
    {
        let line = chars_of(lines[n].as_str());
        assert(texts[n as int] == line@);
        if line.len() > 0 && line[0] == '#' {
            let ghost before = board_strings.deep_view();
            board_strings.push(lines[n].clone());
            assert(board_strings.deep_view() =~= before.push(line@));
        }
        if holds(&line, '^') {
            let ghost so_far = listed;
            let ghost done = moves@;
            let mut i: usize = 0;
            while i < line.len()
                invariant
                    i <= line@.len(),
                    listed == so_far + line@.take(i as int),
                    !bad_move ==> moves_of(listed) == Some(moves@),
                    bad_move ==> moves_of(listed) is None,
                decreases line@.len() - i,
            {
                let ghost before = listed;
                let ghost made = moves@;
                proof {
                    listed = listed.push(line@[i as int]);
                    assert(listed =~= so_far + line@.take(i as int + 1));
                }
                match Direction::try_from_char(line[i]) {
                    Some(m) => {
                        if !bad_move {
                            moves.push(m);
                            proof {
                                assert forall|k: int| 0 <= k < listed.len() implies (#[trigger] Direction::of_glyph(
                                    listed[k],
                                )) is Some by {
                                    if k < before.len() {
                                        assert(listed[k] == before[k]);
                                        assert(Direction::of_glyph(before[k]) is Some);
                                    }
                                }
                                assert(moves@ =~= moves_of(listed)->0) by {
                                    assert forall|k: int| 0 <= k < listed.len() implies moves@[k]
                                        == Direction::of_glyph(listed[k])->0 by {
                                        if k < before.len() {
                                            assert(listed[k] == before[k]);
                                            assert(moves@[k] == made[k]);
                                            assert(made[k] == moves_of(before)->0[k]);
                                        }
                                    }
                                }
                            }
                        } else {
                            proof {
                                if moves_of(listed) is Some {
                                    assert forall|k: int| 0 <= k < before.len() implies (#[trigger] Direction::of_glyph(
                                        before[k],
                                    )) is Some by {
                                        assert(listed[k] == before[k]);
                                        assert(Direction::of_glyph(listed[k]) is Some);
                                    }
                                }
                            }
                        }
                    },
                    None => {
                        bad_move = true;
                        proof {
                            assert(Direction::of_glyph(listed[listed.len() - 1]) is None);
                        }
                    },
                }
                i += 1;
            }
            proof {
                assert(line@.take(line@.len() as int) =~= line@);
            }
        }
        n += 1;
    }
    let mut board = match Board::from_strings(board_strings, wide) {
        Some(board) => board,
        None => {
            return None;
        },
    };
    if bad_move {
        return None;
    }
    if !run_moves(&mut board, &moves) {
        return None;
    }
    board.score()
}

/// Whether `r` is the answer to the first part for the puzzle text.
pub open spec fn is_solution_a(text: Seq<char>, r: Option<i64>) -> bool {
    known(r) == answer_for(lines_of(text), false)
}

/// Whether `r` is the answer to the second part for the puzzle text.
pub open spec fn is_solution_b(text: Seq<char>, r: Option<i64>) -> bool {
    known(r) == answer_for(lines_of(text), true)
}

pub fn day15(input: &str) -> (r: Option<i64>)
    ensures
        is_solution_a(input@, r),
{
    solve(&split_lines(input), false)
}

pub fn day15b(input: &str) -> (r: Option<i64>)
    ensures
        is_solution_b(input@, r),
{
    solve(&split_lines(input), true)
}

} // verus!
