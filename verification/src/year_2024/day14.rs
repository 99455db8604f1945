//! Robots move in straight lines over a field and come back in on the
//! other side when they leave it. The puzzle multiplies the numbers of
//! robots in the four quarters of the field after a hundred seconds.

use crate::common::arith::{add_checked, add_within, known, mul_checked, mul_within};
use crate::common::parsing::{
    i64_of, parse_i64, read_regex_records, records_of_matches, regex_captures,
};
use vstd::prelude::*;

verus! {

/// A pair of a column and a row, or of the speeds along them.
pub type IRowVec = (i64, i64);

/// The positions and the velocities of the robots, robot by robot.
pub struct State {
    pub positions: Vec<IRowVec>,
    pub velocities: Vec<IRowVec>,
}

/// The pattern of one robot in the puzzle text.
pub open spec fn state_pattern() -> Seq<char> {
    "p=(-?\\d+),(-?\\d+) v=(-?\\d+),(-?\\d+)"@
}

/// The position and the velocity that one record stands for: the whole
/// match and four numbers.
pub open spec fn robot_of(record: Seq<Seq<char>>) -> Option<((i64, i64), (i64, i64))> {
    if record.len() != 5 {
        None
    } else {
        match (i64_of(record[1]), i64_of(record[2]), i64_of(record[3]), i64_of(record[4])) {
            (Some(px), Some(py), Some(vx), Some(vy)) => Some(
                ((px as i64, py as i64), (vx as i64, vy as i64)),
            ),
            _ => None,
        }
    }
}

/// The robots that the records stand for, if every record stands for one.
pub open spec fn robots_of(records: Seq<Seq<Seq<char>>>) -> Option<Seq<((i64, i64), (i64, i64))>> {
    if forall|i: int| 0 <= i < records.len() ==> (#[trigger] robot_of(records[i])) is Some {
        Some(Seq::new(records.len(), |i: int| robot_of(records[i])->0))
    } else {
        None
    }
}

/// Whether a state holds the given robots.
pub open spec fn holds_robots(state: State, robots: Seq<((i64, i64), (i64, i64))>) -> bool {
    &&& state.positions@ == robots.map_values(|r: ((i64, i64), (i64, i64))| r.0)
    &&& state.velocities@ == robots.map_values(|r: ((i64, i64), (i64, i64))| r.1)
}

/// Reads the records that the pattern found as robots. `None` if one of
/// them is no robot.
pub fn parse_states(records: &Vec<Vec<String>>) -> (r: Option<State>)
    ensures
        match robots_of(records.deep_view()) {
            Some(robots) => r is Some && holds_robots(r->0, robots),
            None => r is None,
        },
{
    let ghost all = records.deep_view();
    let mut positions: Vec<IRowVec> = Vec::new();
    let mut velocities: Vec<IRowVec> = Vec::new();
    let mut i: usize = 0;
    while i < records.len()
        invariant
            all == records.deep_view(),
            i <= records@.len(),
            positions@.len() == i,
            velocities@.len() == i,
            forall|k: int|
                0 <= k < i ==> (#[trigger] robot_of(all[k])) == Some((positions@[k], velocities@[k])),
        decreases records@.len() - i,
    {
        let record = &records[i];
        assert(all[i as int] == record.deep_view());
        if record.len() != 5 {
            assert(robot_of(all[i as int]) is None);
            return None;
        }
        assert(all[i as int][1] == record@[1]@);
        assert(all[i as int][2] == record@[2]@);
        assert(all[i as int][3] == record@[3]@);
        assert(all[i as int][4] == record@[4]@);
        match (
            parse_i64(record[1].as_str()),
            parse_i64(record[2].as_str()),
            parse_i64(record[3].as_str()),
            parse_i64(record[4].as_str()),
        ) {
            (Some(px), Some(py), Some(vx), Some(vy)) => {
                positions.push((px, py));
                velocities.push((vx, vy));
            },
            _ => {
                assert(robot_of(all[i as int]) is None);
                return None;
            },
        }
        i += 1;
    }
    let state = State { positions, velocities };
    proof {
        let robots = robots_of(all)->0;
        assert(state.positions@ =~= robots.map_values(|r: ((i64, i64), (i64, i64))| r.0));
        assert(state.velocities@ =~= robots.map_values(|r: ((i64, i64), (i64, i64))| r.1));
    }
    Some(state)
}

/// Whether a field of the given width and height can be walked.
pub open spec fn is_field(w: int, h: int) -> bool {
    0 < w <= i64::MAX && 0 < h <= i64::MAX
}

/// The place on the field of a position that may lie off it.
pub open spec fn wrapped(position: (int, int), w: int, h: int) -> (int, int) {
    (position.0 % w, position.1 % h)
}

/// Brings a position back onto a field.
pub fn wrap_position(position: IRowVec, w: usize, h: usize) -> (r: IRowVec)
    requires
        is_field(w as int, h as int),
    ensures
        (r.0 as int, r.1 as int) == wrapped((position.0 as int, position.1 as int), w as int, h as int),
        0 <= r.0 < w,
        0 <= r.1 < h,
{
    let w = w as i64;
    let h = h as i64;
    let x = position.0.checked_rem_euclid(w);
    let y = position.1.checked_rem_euclid(h);
    let ghost (px, py) = (position.0 as int, position.1 as int);
    let ghost (wi, hi) = (w as int, h as int);
    assert(0 <= px % wi && px % wi < wi) by (nonlinear_arith)
        requires
            0 < wi,
    ;
    assert(0 <= py % hi && py % hi < hi) by (nonlinear_arith)
        requires
            0 < hi,
    ;
    (x.unwrap(), y.unwrap())
}

/// Where a robot is after the given number of seconds. `None` if a number
/// on the way leaves the range of `i64`.
pub open spec fn position_after(
    position: (i64, i64),
    velocity: (i64, i64),
    w: int,
    h: int,
    iterations: int,
) -> Option<(int, int)> {
    match (
        add_within(
            Some(position.0 as int),
            mul_within(Some(velocity.0 as int), Some(iterations)),
        ),
        add_within(
            Some(position.1 as int),
            mul_within(Some(velocity.1 as int), Some(iterations)),
        ),
    ) {
        (Some(x), Some(y)) => Some(wrapped((x, y), w, h)),
        _ => None,
    }
}

/// Where the first `n` robots are after the given number of seconds.
pub open spec fn positions_after(
    positions: Seq<(i64, i64)>,
    velocities: Seq<(i64, i64)>,
    w: int,
    h: int,
    iterations: int,
    n: int,
) -> Option<Seq<(i64, i64)>>
    decreases n,
{
    if n <= 0 {
        Some(Seq::empty())
    } else {
        match (
            positions_after(positions, velocities, w, h, iterations, n - 1),
            position_after(positions[n - 1], velocities[n - 1], w, h, iterations),
        ) {
            (Some(before), Some(p)) => Some(before.push((p.0 as i64, p.1 as i64))),
            _ => None,
        }
    }
}

pub proof fn lemma_positions_stay_lost(
    positions: Seq<(i64, i64)>,
    velocities: Seq<(i64, i64)>,
    w: int,
    h: int,
    iterations: int,
    n: int,
    m: int,
)
    requires
        0 <= n <= m,
        positions_after(positions, velocities, w, h, iterations, n) is None,
    ensures
        positions_after(positions, velocities, w, h, iterations, m) is None,
    decreases m - n,
{
    if n < m {
        lemma_positions_stay_lost(positions, velocities, w, h, iterations, n, m - 1);
    }
}

/// Whether the state holds a velocity for every position.
pub open spec fn paired(state: State) -> bool {
    state.positions@.len() == state.velocities@.len()
}

/// One coordinate after the given number of seconds, before it is
/// brought back onto the field.
pub fn coordinate_after(p: i64, v: i64, iterations: usize) -> (r: Option<i64>)
    ensures
        known(r) == add_within(Some(p as int), mul_within(Some(v as int), Some(iterations as int))),
{
    assert(-0x8000_0000_0000_0000 * 0xffff_ffff_ffff_ffff <= v * iterations
        <= 0x7fff_ffff_ffff_ffff * 0xffff_ffff_ffff_ffff) by (nonlinear_arith)
        requires
            -0x8000_0000_0000_0000 <= v <= 0x7fff_ffff_ffff_ffff,
            0 <= iterations <= 0xffff_ffff_ffff_ffff,
    ;
    let way: i128 = (v as i128) * (iterations as i128);
    if way < i64::MIN as i128 || way > i64::MAX as i128 {
        return None;
    }
    p.checked_add(way as i64)
}

/// Moves every robot for the given number of seconds.
pub fn iterate_state(state: &State, w: usize, h: usize, iterations: usize) -> (r: Option<Vec<IRowVec>>)
    requires
        paired(*state),
        is_field(w as int, h as int),
    ensures
        match positions_after(
            state.positions@,
            state.velocities@,
            w as int,
            h as int,
            iterations as int,
            state.positions@.len() as int,
        ) {
            Some(end) => r is Some && r->0@ == end && end.len() == state.positions@.len(),
            None => r is None,
        },
{
    let mut end_positions: Vec<IRowVec> = Vec::new();
    let mut n: usize = 0;
    while n < state.positions.len()
        invariant
            paired(*state),
            is_field(w as int, h as int),
            n <= state.positions@.len(),
            end_positions@.len() == n,
            positions_after(
                state.positions@,
                state.velocities@,
                w as int,
                h as int,
                iterations as int,
                n as int,
            ) == Some(end_positions@),
        decreases state.positions@.len() - n,
    {
        let p = state.positions[n];
        let v = state.velocities[n];
        let raw_x = coordinate_after(p.0, v.0, iterations);
        let raw_y = coordinate_after(p.1, v.1, iterations);
        match (raw_x, raw_y) {
            (Some(x), Some(y)) => {
                end_positions.push(wrap_position((x, y), w, h));
            },
            _ => {
                proof {
                    lemma_positions_stay_lost(
                        state.positions@,
                        state.velocities@,
                        w as int,
                        h as int,
                        iterations as int,
                        n as int + 1,
                        state.positions@.len() as int,
                    );
                }
                return None;
            },
        }
        n += 1;
    }
    Some(end_positions)
}

/// The number of the quarter of the field in which a position lies: 0 to
/// 3 for upper left, upper right, lower left and lower right, and none on
/// the middle lines.
pub open spec fn quarter_of(p: (i64, i64), halfw: int, halfh: int) -> Option<int> {
    if p.0 < halfw && p.1 < halfh {
        Some(0)
    } else if p.0 > halfw && p.1 < halfh {
        Some(1)
    } else if p.0 < halfw && p.1 > halfh {
        Some(2)
    } else if p.0 > halfw && p.1 > halfh {
        Some(3)
    } else {
        None
    }
}

/// The number of positions among the first `n` that lie in a quarter.
pub open spec fn in_quarter(positions: Seq<(i64, i64)>, halfw: int, halfh: int, quarter: int, n: int) -> int
    decreases n,
{
    if n <= 0 {
        0
    } else {
        in_quarter(positions, halfw, halfh, quarter, n - 1) + if quarter_of(
            positions[n - 1],
            halfw,
            halfh,
        ) == Some(quarter) {
            1int
        } else {
            0int
        }
    }
}

/// The product of the numbers of positions in the four quarters. `None` if
/// it leaves the range of `i64`.
pub open spec fn safety_factor(positions: Seq<(i64, i64)>, w: int, h: int) -> Option<int> {
    let n = positions.len() as int;
    let (halfw, halfh) = (w / 2, h / 2);
    mul_within(
        mul_within(
            mul_within(
                Some(in_quarter(positions, halfw, halfh, 0, n)),
                Some(in_quarter(positions, halfw, halfh, 1, n)),
            ),
            Some(in_quarter(positions, halfw, halfh, 2, n)),
        ),
        Some(in_quarter(positions, halfw, halfh, 3, n)),
    )
}

/// Counts the positions in one quarter.
pub fn count_quarter(positions: &Vec<IRowVec>, halfw: i64, halfh: i64, quarter: u8) -> (r: i64)
    requires
        positions@.len() <= i64::MAX,
    ensures
        r == in_quarter(positions@, halfw as int, halfh as int, quarter as int, positions@.len() as int),
{
    let mut count: i64 = 0;
    let mut n: usize = 0;
    while n < positions.len()
        invariant
            positions@.len() <= i64::MAX,
            n <= positions@.len(),
            0 <= count <= n,
            count == in_quarter(positions@, halfw as int, halfh as int, quarter as int, n as int),
        decreases positions@.len() - n,
    {
        let p = positions[n];
        let found: Option<u8> = if p.0 < halfw && p.1 < halfh {
            Some(0)
        } else if p.0 > halfw && p.1 < halfh {
            Some(1)
        } else if p.0 < halfw && p.1 > halfh {
            Some(2)
        } else if p.0 > halfw && p.1 > halfh {
            Some(3)
        } else {
            None
        };
        if let Some(q) = found {
            if q == quarter {
                count += 1;
            }
        }
        n += 1;
    }
    count
}

pub fn score_positions(positions: &Vec<IRowVec>, w: usize, h: usize) -> (r: Option<i64>)
    requires
        is_field(w as int, h as int),
        positions@.len() <= i64::MAX,
    ensures
        known(r) == safety_factor(positions@, w as int, h as int),
{
    let halfw = (w / 2) as i64;
    let halfh = (h / 2) as i64;
    let a = count_quarter(positions, halfw, halfh, 0);
    let b = count_quarter(positions, halfw, halfh, 1);
    let c = count_quarter(positions, halfw, halfh, 2);
    let d = count_quarter(positions, halfw, halfh, 3);
    mul_checked(mul_checked(mul_checked(Some(a), Some(b)), Some(c)), Some(d))
}

/// How often a column occurs among the first `n` positions.
pub open spec fn in_column(positions: Seq<(i64, i64)>, x: i64, n: int) -> int
    decreases n,
{
    if n <= 0 {
        0
    } else {
        in_column(positions, x, n - 1) + if positions[n - 1].0 == x {
            1int
        } else {
            0int
        }
    }
}

/// Whether more than thirty robots stand in one column.
pub open spec fn has_trunk(positions: Seq<(i64, i64)>) -> bool {
    exists|i: int|
        0 <= i < positions.len() && in_column(positions, (#[trigger] positions[i]).0, positions.len() as int)
            > 30
}

/// Tells whether more than thirty robots stand in one column, which a
/// picture of a tree needs for its trunk.
pub fn check_for_tree(positions: &Vec<IRowVec>) -> (r: bool)
    requires
        positions@.len() <= i64::MAX,
    ensures
        r == has_trunk(positions@),
{
    let mut i: usize = 0;
    while i < positions.len()
        invariant
            positions@.len() <= i64::MAX,
            i <= positions@.len(),
            forall|k: int|
                0 <= k < i ==> in_column(positions@, (#[trigger] positions@[k]).0, positions@.len() as int)
                    <= 30,
        decreases positions@.len() - i,
    {
        let x = positions[i].0;
        let mut count: i64 = 0;
        let mut n: usize = 0;
        while n < positions.len()
            invariant
                positions@.len() <= i64::MAX,
                n <= positions@.len(),
                0 <= count <= n,
                count == in_column(positions@, x, n as int),
            decreases positions@.len() - n,
        {
            if positions[n].0 == x {
                count += 1;
            }
            n += 1;
        }
        if count > 30 {
            return true;
        }
        i += 1;
    }
    false
}

/// How many of the first `n` positions are the place `(x, y)`.
pub open spec fn robots_at(positions: Seq<(i64, i64)>, x: int, y: int, n: int) -> int
    decreases n,
{
    if n <= 0 {
        0
    } else {
        robots_at(positions, x, y, n - 1) + if positions[n - 1].0 == x && positions[n - 1].1 == y {
            1int
        } else {
            0int
        }
    }
}

/// The character that shows a number of robots on one place, up to six.
pub open spec fn crowd_glyph(count: int) -> Option<char> {
    if count == 0 {
        Some(' ')
    } else if count == 1 {
        Some('.')
    } else if count == 2 {
        Some(':')
    } else if count == 3 {
        Some('-')
    } else if count == 4 {
        Some('+')
    } else if count == 5 {
        Some('*')
    } else if count == 6 {
        Some('#')
    } else {
        None
    }
}

/// Whether no place of the field holds more than six robots.
pub open spec fn can_draw(positions: Seq<(i64, i64)>, w: int, h: int) -> bool {
    forall|x: int, y: int|
        0 <= x < w && 0 <= y < h ==> #[trigger] robots_at(positions, x, y, positions.len() as int) <= 6
}

/// The picture of the field: one character for every place.
pub open spec fn picture(positions: Seq<(i64, i64)>, w: int, h: int) -> Seq<Seq<char>> {
    Seq::new(
        h as nat,
        |y: int|
            Seq::new(
                w as nat,
                |x: int| crowd_glyph(robots_at(positions, x, y, positions.len() as int))->0,
            ),
    )
}

/// Counts the robots on one place, up to seven.
fn count_at(positions: &Vec<IRowVec>, x: i64, y: i64) -> (r: u8)
    ensures
        r <= 7,
        r < 7 ==> r == robots_at(positions@, x as int, y as int, positions@.len() as int),
        r == 7 ==> robots_at(positions@, x as int, y as int, positions@.len() as int) >= 7,
{
    let mut count: u8 = 0;
    let mut n: usize = 0;
    while n < positions.len()
        invariant
            n <= positions@.len(),
            count <= 7,
            count < 7 ==> count == robots_at(positions@, x as int, y as int, n as int),
            count == 7 ==> robots_at(positions@, x as int, y as int, n as int) >= 7,
        decreases positions@.len() - n,
    {
        if positions[n].0 == x && positions[n].1 == y && count < 7 {
            count += 1;
        }
        n += 1;
    }
    count
}

/// Draws the field with its robots, one line for every row. `None` if a
/// place holds more than six robots.
pub fn print_positions(positions: &Vec<IRowVec>, w: usize, h: usize) -> (r: Option<Vec<Vec<char>>>)
    requires
        w <= i64::MAX,
        h <= i64::MAX,
    ensures
        match r {
            Some(rows) => can_draw(positions@, w as int, h as int) && crate::common::text::rows_view(
                rows@,
            ) == picture(positions@, w as int, h as int),
            None => !can_draw(positions@, w as int, h as int),
        },
{
    let mut rows: Vec<Vec<char>> = Vec::new();
    let mut y: usize = 0;
    while y < h
        invariant
            w <= i64::MAX,
            h <= i64::MAX,
            y <= h,
            rows@.len() == y,
            forall|i: int, j: int|
                0 <= i < w && 0 <= j < y ==> #[trigger] robots_at(
                    positions@,
                    i,
                    j,
                    positions@.len() as int,
                ) <= 6,
            forall|j: int|
                0 <= j < y ==> (#[trigger] rows@[j])@ == Seq::new(
                    w as nat,
                    |x: int| crowd_glyph(robots_at(positions@, x, j, positions@.len() as int))->0,
                ),
        decreases h - y,
    {
        let mut row: Vec<char> = Vec::new();
        let mut x: usize = 0;
        while x < w
            invariant
                w <= i64::MAX,
                y < h <= i64::MAX,
                x <= w,
                forall|i: int|
                    0 <= i < x ==> #[trigger] robots_at(
                        positions@,
                        i,
                        y as int,
                        positions@.len() as int,
                    ) <= 6,
                row@ == Seq::new(
                    x as nat,
                    |i: int| crowd_glyph(robots_at(positions@, i, y as int, positions@.len() as int))->0,
                ),
            decreases w - x,
        {
            let count = count_at(positions, x as i64, y as i64);
            let glyph = match count {
                0 => ' ',
                1 => '.',
                2 => ':',
                3 => '-',
                4 => '+',
                5 => '*',
                6 => '#',
                _ => {
                    return None;
                },
            };
            row.push(glyph);
            assert(row@ =~= Seq::new(
                (x + 1) as nat,
                |i: int| crowd_glyph(robots_at(positions@, i, y as int, positions@.len() as int))->0,
            ));
            x += 1;
        }
        rows.push(row);
        y += 1;
    }
    assert(crate::common::text::rows_view(rows@) =~= picture(positions@, w as int, h as int));
    Some(rows)
}

/// The robots written in the puzzle text, as the pattern finds them.
pub open spec fn input_of(text: Seq<char>) -> Option<Seq<((i64, i64), (i64, i64))>> {
    match regex_captures(state_pattern(), text) {
        Some(found) => robots_of(records_of_matches(found)),
        None => None,
    }
}

/// Reads the robots of the puzzle text.
pub fn read_input(input: &str) -> (r: Option<State>)
    ensures
        match input_of(input@) {
            Some(robots) => r is Some && holds_robots(r->0, robots),
            None => r is None,
        },
{
    match read_regex_records(input, "p=(-?\\d+),(-?\\d+) v=(-?\\d+),(-?\\d+)") {
        Some(records) => parse_states(&records),
        None => None,
    }
}

/// The safety factor of the robots on a field after some seconds. `None`
/// if the field cannot be walked, there are more robots than `i64` can
/// count, or a number leaves the range of `i64`.
pub open spec fn answer_for(
    robots: Seq<((i64, i64), (i64, i64))>,
    w: int,
    h: int,
    iterations: int,
) -> Option<int> {
    if !is_field(w, h) || robots.len() > i64::MAX {
        None
    } else {
        match positions_after(
            robots.map_values(|r: ((i64, i64), (i64, i64))| r.0),
            robots.map_values(|r: ((i64, i64), (i64, i64))| r.1),
            w,
            h,
            iterations,
            robots.len() as int,
        ) {
            Some(end) => safety_factor(end, w, h),
            None => None,
        }
    }
}

/// Whether `r` is the safety factor for the puzzle text on a field after
/// some seconds.
pub open spec fn is_answer(text: Seq<char>, w: int, h: int, iterations: int, r: Option<i64>) -> bool {
    match input_of(text) {
        Some(robots) => known(r) == answer_for(robots, w, h, iterations),
        None => r is None,
    }
}

pub fn day14_generic(input: &str, w: usize, h: usize, iterations: usize) -> (r: Option<i64>)
    ensures
        is_answer(input@, w as int, h as int, iterations as int, r),
{
    match read_input(input) {
        Some(state) => {
            if w == 0 || h == 0 || w as u64 > i64::MAX as u64 || h as u64 > i64::MAX as u64
                || state.positions.len() as u64 > i64::MAX as u64 {
                return None;
            }
            assert(state.positions@.len() == input_of(input@)->0.len());
            match iterate_state(&state, w, h, iterations) {
                Some(final_positions) => score_positions(&final_positions, w, h),
                None => None,
            }
        },
        None => None,
    }
}

/// Whether `r` is the answer to the first part for the puzzle text: the
/// safety factor on a field of 101 by 103 after 100 seconds.
pub open spec fn is_solution_a(text: Seq<char>, r: Option<i64>) -> bool {
    is_answer(text, 101, 103, 100, r)
}

pub fn day14(input: &str) -> (r: Option<i64>)
    ensures
        is_solution_a(input@, r),
{
    day14_generic(input, 101, 103, 100)
}

} // verus!
