//! A map of heights from 0 to 9. A trail starts at height 0 and climbs by
//! one with every step to a neighbouring place until it comes to height 9.
//! The puzzle counts, for every start, the summits that trails reach, and
//! the trails themselves.

use crate::common::arith::{add_checked, add_within, known};
use crate::common::distinct::count_distinct;
use crate::common::grid_board::{on_board, rectangular, width_of, Xy};
use crate::common::parsing::{digit_rows, parse_digit_rows};
use crate::common::text::{lines_of, split_lines};
use vstd::prelude::*;

verus! {

pub type Elevation = i8;

pub type Coords = (usize, usize);

pub type HeightMap = Vec<Vec<Elevation>>;

/// The height at which trails end.
pub const SUMMIT: Elevation = 9;

/// The rows of a map.
pub open spec fn rows_of(map: Seq<Vec<i8>>) -> Seq<Seq<i8>> {
    map.map_values(|row: Vec<i8>| row@)
}

/// The heights that lines of digits stand for.
pub open spec fn heights_of(lines: Seq<Seq<char>>) -> Option<Seq<Seq<i8>>> {
    match digit_rows(lines) {
        Some(rows) => Some(rows.map_values(|row: Seq<i64>| row.map_values(|d: i64| d as i8))),
        None => None,
    }
}

/// Reads a map of heights. `None` if a character is no digit.
pub fn make_map(input: &Vec<String>) -> (r: Option<HeightMap>)
    ensures
        match heights_of(input.deep_view()) {
            Some(rows) => r is Some && rows_of(r->0@) == rows,
            None => r is None,
        },
{
    match parse_digit_rows(input) {
        Some(digits) => {
            let ghost rows = digit_rows(input.deep_view())->0;
            let mut result: HeightMap = Vec::new();
            let mut y: usize = 0;
            while y < digits.len()
                invariant
                    rows == digits.deep_view(),
                    digit_rows(input.deep_view()) == Some(rows),
                    y <= digits@.len(),
                    result@.len() == y,
                    forall|j: int|
                        0 <= j < y ==> (#[trigger] result@[j])@ == rows[j].map_values(|d: i64| d as i8),
                decreases digits@.len() - y,
            {
                let row = &digits[y];
                assert(rows[y as int] =~= row@);
                let mut heights: Vec<i8> = Vec::new();
                let mut x: usize = 0;
                while x < row.len()
                    invariant
                        x <= row@.len(),
                        heights@ == row@.take(x as int).map_values(|d: i64| d as i8),
                    decreases row@.len() - x,
                {
                    heights.push(#[verifier::truncate] (row[x] as i8));
                    assert(heights@ =~= row@.take(x as int + 1).map_values(|d: i64| d as i8));
                    x += 1;
                }
                assert(row@.take(row@.len() as int) =~= row@);
                result.push(heights);
                y += 1;
            }
            assert(rows_of(result@) =~= heights_of(input.deep_view())->0);
            Some(result)
        },
        None => None,
    }
}

/// Whether the rows are a map: a rectangle with at least one column.
pub open spec fn is_map(rows: Seq<Seq<i8>>) -> bool {
    rectangular(rows) && width_of(rows) >= 1
}

/// Tells whether the rows are a map.
pub fn check_map(map: &HeightMap) -> (r: bool)
    ensures
        r == is_map(rows_of(map@)),
{
    let ghost rows = rows_of(map@);
    let h = map.len();
    if h == 0 || h as u64 > i64::MAX as u64 {
        return false;
    }
    let w = map[0].len();
    assert(rows[0] == map@[0]@);
    if w == 0 || w as u64 > i64::MAX as u64 || h.checked_mul(w).is_none() {
        return false;
    }
    let mut y: usize = 0;
    while y < h
        invariant
            rows == rows_of(map@),
            h == map@.len(),
            w == rows[0].len(),
            y <= h,
            forall|j: int| 0 <= j < y ==> (#[trigger] rows[j]).len() == w,
        decreases h - y,
    {
        assert(rows[y as int] == map@[y as int]@);
        if map[y].len() != w {
            return false;
        }
        y += 1;
    }
    true
}

/// The place one step from `(x, y)`: to the west, north, east or south
/// for `k` from 0 to 3.
pub open spec fn beside(x: int, y: int, k: int) -> (int, int) {
    if k == 0 {
        (x - 1, y)
    } else if k == 1 {
        (x, y - 1)
    } else if k == 2 {
        (x + 1, y)
    } else {
        (x, y + 1)
    }
}

/// Whether a step from `(x, y)` to `(nx, ny)` stays on the map and climbs
/// by one.
pub open spec fn climbs(rows: Seq<Seq<i8>>, x: int, y: int, nx: int, ny: int) -> bool {
    on_board(rows, x, y) && on_board(rows, nx, ny) && rows[ny][nx] == rows[y][x] + 1
}

/// The neighbour of `(x, y)` in direction `k`, if the step there climbs by
/// one.
pub fn step_up(map: &HeightMap, x: usize, y: usize, k: usize) -> (r: Option<Coords>)
    requires
        is_map(rows_of(map@)),
        on_board(rows_of(map@), x as int, y as int),
        k < 4,
    ensures
        match r {
            Some((nx, ny)) => (nx as int, ny as int) == beside(x as int, y as int, k as int) && climbs(
                rows_of(map@),
                x as int,
                y as int,
                nx as int,
                ny as int,
            ),
            None => !climbs(
                rows_of(map@),
                x as int,
                y as int,
                beside(x as int, y as int, k as int).0,
                beside(x as int, y as int, k as int).1,
            ),
        },
{
    let ghost rows = rows_of(map@);
    let h = map.len();
    assert(rows[0] == map@[0]@);
    let w = map[0].len();
    let place = if k == 0 {
        if x > 0 {
            Some((x - 1, y))
        } else {
            None
        }
    } else if k == 1 {
        if y > 0 {
            Some((x, y - 1))
        } else {
            None
        }
    } else if k == 2 {
        if x < w - 1 {
            Some((x + 1, y))
        } else {
            None
        }
    } else {
        if y < h - 1 {
            Some((x, y + 1))
        } else {
            None
        }
    };
    match place {
        Some((nx, ny)) => {
            assert(rows[ny as int] == map@[ny as int]@);
            assert(rows[y as int] == map@[y as int]@);
            assert(rows[ny as int].len() == w);
            assert(rows[y as int].len() == w);
            if map[ny][nx] as i16 == map[y][x] as i16 + 1 {
                Some((nx, ny))
            } else {
                None
            }
        },
        None => None,
    }
}

/// How far a place is below the greatest height, or 0 off the map.
pub open spec fn room_above(rows: Seq<Seq<i8>>, x: int, y: int) -> int {
    if on_board(rows, x, y) {
        127 - rows[y][x]
    } else {
        0
    }
}

/// The summits that trails from `(x, y)` reach, one entry for every trail,
/// in the order west, north, east, south of the steps.
pub open spec fn summits_of(rows: Seq<Seq<i8>>, x: int, y: int) -> Seq<Xy>
    decreases room_above(rows, x, y), 1int,
{
    if !on_board(rows, x, y) {
        Seq::empty()
    } else if rows[y][x] == SUMMIT {
        seq![Xy { x: x as i64, y: y as i64 }]
    } else {
        summits_by(rows, x, y, x - 1, y) + summits_by(rows, x, y, x, y - 1) + summits_by(
            rows,
            x,
            y,
            x + 1,
            y,
        ) + summits_by(rows, x, y, x, y + 1)
    }
}

/// The summits that trails from `(x, y)` reach by way of `(nx, ny)`: none
/// unless the step there climbs by one.
pub open spec fn summits_by(rows: Seq<Seq<i8>>, x: int, y: int, nx: int, ny: int) -> Seq<Xy>
    decreases room_above(rows, x, y), 0int,
{
    if climbs(rows, x, y, nx, ny) {
        summits_of(rows, nx, ny)
    } else {
        Seq::empty()
    }
}

/// Adds to `out` the summits that trails from `(x, y)` reach by way of the
/// neighbour in direction `k`.
fn climb_by(map: &HeightMap, x: usize, y: usize, k: usize, out: &mut Vec<Xy>)
    requires
        is_map(rows_of(map@)),
        on_board(rows_of(map@), x as int, y as int),
        k < 4,
    ensures
        final(out)@ == old(out)@ + summits_by(
            rows_of(map@),
            x as int,
            y as int,
            beside(x as int, y as int, k as int).0,
            beside(x as int, y as int, k as int).1,
        ),
    decreases room_above(rows_of(map@), x as int, y as int), 0int,
{
    match step_up(map, x, y, k) {
        Some((nx, ny)) => {
            climb(map, nx, ny, out);
        },
        None => {
            assert(out@ =~= old(out)@ + Seq::<Xy>::empty());
        },
    }
}

/// Adds to `out` the summits that trails from `(x, y)` reach.
fn climb(map: &HeightMap, x: usize, y: usize, out: &mut Vec<Xy>)
    requires
        is_map(rows_of(map@)),
        on_board(rows_of(map@), x as int, y as int),
    ensures
        final(out)@ == old(out)@ + summits_of(rows_of(map@), x as int, y as int),
    decreases room_above(rows_of(map@), x as int, y as int), 1int,
{
    let ghost rows = rows_of(map@);
    assert(rows[y as int] == map@[y as int]@);
    if map[y][x] == SUMMIT {
        out.push(Xy::new(x as i64, y as i64));
        assert(out@ =~= old(out)@ + summits_of(rows, x as int, y as int));
        return ;
    }
    let ghost (xi, yi) = (x as int, y as int);
    let ghost west = summits_by(rows, xi, yi, xi - 1, yi);
    let ghost north = summits_by(rows, xi, yi, xi, yi - 1);
    let ghost east = summits_by(rows, xi, yi, xi + 1, yi);
    let ghost south = summits_by(rows, xi, yi, xi, yi + 1);
    let ghost before = out@;
    climb_by(map, x, y, 0, out);
    climb_by(map, x, y, 1, out);
    climb_by(map, x, y, 2, out);
    climb_by(map, x, y, 3, out);
    assert(out@ == before + west + north + east + south);
    assert(before + west + north + east + south =~= before + (west + north + east + south));
}

/// The summits that trails from a place reach, one entry for every trail.
pub fn reachable(map: &HeightMap, start: &Coords) -> (r: Vec<Xy>)
    requires
        is_map(rows_of(map@)),
        on_board(rows_of(map@), start.0 as int, start.1 as int),
    ensures
        r@ == summits_of(rows_of(map@), start.0 as int, start.1 as int),
{
    let mut out: Vec<Xy> = Vec::new();
    climb(map, start.0, start.1, &mut out);
    out
}

/// A number of things, if `i64` can count them.
pub open spec fn countable(n: nat) -> Option<int> {
    if n <= i64::MAX {
        Some(n as int)
    } else {
        None
    }
}

/// The score of the places before column `x` of row `y` and of the rows
/// above: for every place of height 0 the number of different summits that
/// its trails reach where `by_summit` is set, and the number of its trails
/// otherwise. `None` if the sum leaves the range of `i64`.
pub open spec fn score_before(rows: Seq<Seq<i8>>, by_summit: bool, x: int, y: int) -> Option<int>
    decreases y, x,
{
    if y < 0 || (y == 0 && x <= 0) {
        Some(0)
    } else if x <= 0 {
        score_before(rows, by_summit, width_of(rows), y - 1)
    } else {
        let before = score_before(rows, by_summit, x - 1, y);
        if rows[y][x - 1] != 0 {
            before
        } else if by_summit {
            add_within(before, countable(summits_of(rows, x - 1, y).to_set().len()))
        } else {
            add_within(before, countable(summits_of(rows, x - 1, y).len()))
        }
    }
}

/// The score of a map.
pub open spec fn score_of(rows: Seq<Seq<i8>>, by_summit: bool) -> Option<int> {
    if is_map(rows) {
        score_before(rows, by_summit, 0, rows.len() as int)
    } else {
        None
    }
}

/// Works out the score of a map.
pub fn score_map(map: &HeightMap, by_summit: bool) -> (r: Option<i64>)
    ensures
        known(r) == score_of(rows_of(map@), by_summit),
{
    if !check_map(map) {
        return None;
    }
    let ghost rows = rows_of(map@);
    let h = map.len();
    assert(rows[0] == map@[0]@);
    let w = map[0].len();
    let mut score: Option<i64> = Some(0);
    let mut y: usize = 0;
    while y < h
        invariant
            rows == rows_of(map@),
            is_map(rows),
            h == rows.len(),
            w == width_of(rows),
            y <= h,
            known(score) == score_before(rows, by_summit, 0, y as int),
        decreases h - y,
    {
        let mut x: usize = 0;
        while x < w
            invariant
                rows == rows_of(map@),
                is_map(rows),
                h == rows.len(),
                w == width_of(rows),
                y < h,
                x <= w,
                known(score) == score_before(rows, by_summit, x as int, y as int) || (x == 0
                    && known(score) == score_before(rows, by_summit, 0, y as int)),
            decreases w - x,
        {
            assert(rows[y as int] == map@[y as int]@);
            assert(rows[y as int].len() == w);
            if map[y][x] == 0 {
                let summits = reachable(map, &(x, y));
                let count = if by_summit {
                    count_distinct(&summits)
                } else {
                    summits.len()
                };
                let counted = if count as u64 > i64::MAX as u64 {
                    None
                } else {
                    Some(count as i64)
                };
                assert(known(counted) == countable(count as nat));
                score = add_checked(score, counted);
            }
            x += 1;
        }
        y += 1;
    }
    score
}

/// Whether `r` is the answer to the first part for the puzzle text.
pub open spec fn is_solution_a(text: Seq<char>, r: Option<i64>) -> bool {
    match heights_of(lines_of(text)) {
        Some(rows) => known(r) == score_of(rows, true),
        None => r is None,
    }
}

/// Whether `r` is the answer to the second part for the puzzle text.
pub open spec fn is_solution_b(text: Seq<char>, r: Option<i64>) -> bool {
    match heights_of(lines_of(text)) {
        Some(rows) => known(r) == score_of(rows, false),
        None => r is None,
    }
}

pub fn day10(input: &str) -> (r: Option<i64>)
    ensures
        is_solution_a(input@, r),
{
    match make_map(&split_lines(input)) {
        Some(map) => score_map(&map, true),
        None => None,
    }
}

pub fn day10b(input: &str) -> (r: Option<i64>)
    ensures
        is_solution_b(input@, r),
{
    match make_map(&split_lines(input)) {
        Some(map) => score_map(&map, false),
        None => None,
    }
}

} // verus!
