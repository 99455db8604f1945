//! Antennas stand on a map, each sending on a channel. Two antennas of one
//! channel make antinodes on the line through them; the puzzle counts the
//! places on the map that hold an antinode.

use crate::common::distinct::count_distinct;
use crate::common::grid_board::Xy;
use crate::common::text::{chars_of, lines_of, split_lines};
use vstd::prelude::*;

verus! {

pub type Channel = char;

pub type CoordScalar = i32;

pub type Coords = (CoordScalar, CoordScalar);

/// Whether a character is a letter or a digit, as `char::is_alphanumeric`
/// tells.
pub uninterp spec fn alphanumeric(c: char) -> bool;

/// `char::is_alphanumeric` of the standard library. The contract gives the
/// result its name and states no more of it.
pub assume_specification[ char::is_alphanumeric ](c: char) -> (r: bool)
    ensures
        r == alphanumeric(c),
;

/// Turns a place on the map into a coordinate; `None` beyond the largest
/// `i32`.
pub fn as_coord_scalar(x: usize) -> (r: Option<CoordScalar>)
    ensures
        match r {
            Some(v) => v == x,
            None => x > i32::MAX,
        },
{
    if x > i32::MAX as usize {
        None
    } else {
        Some(x as i32)
    }
}

/// The antennas in the rows above `y` and in row `y` left of column `x`,
/// row by row.
pub open spec fn antennas_before(lines: Seq<Seq<char>>, x: int, y: int) -> Seq<(char, (i32, i32))>
    decreases y, x,
{
    if y < 0 || (y == 0 && x <= 0) {
        Seq::empty()
    } else if x <= 0 {
        antennas_before(lines, lines[y - 1].len() as int, y - 1)
    } else {
        let before = antennas_before(lines, x - 1, y);
        if alphanumeric(lines[y][x - 1]) {
            before.push((lines[y][x - 1], ((x - 1) as i32, y as i32)))
        } else {
            before
        }
    }
}

/// All antennas of the map.
pub open spec fn antennas_of(lines: Seq<Seq<char>>) -> Seq<(char, (i32, i32))> {
    antennas_before(lines, 0, lines.len() as int)
}

/// Whether every place of the map has coordinates.
pub open spec fn mappable(lines: Seq<Seq<char>>) -> bool {
    lines.len() <= i32::MAX && forall|y: int|
        0 <= y < lines.len() ==> (#[trigger] lines[y]).len() <= i32::MAX
}

/// Lists the antennas of a map: every letter and digit with its place.
/// `None` if a place has no coordinates.
pub fn find_all_antennas(lines: Vec<String>) -> (r: Option<Vec<(Channel, Coords)>>)
    ensures
        match r {
            Some(antennas) => mappable(lines.deep_view()) && antennas@ == antennas_of(
                lines.deep_view(),
            ),
            None => !mappable(lines.deep_view()),
        },
{
    let ghost texts = lines.deep_view();
    if lines.len() > i32::MAX as usize {
        return None;
    }
    let mut result: Vec<(Channel, Coords)> = Vec::new();
    let mut y: usize = 0;
    while y < lines.len()
        invariant
            texts == lines.deep_view(),
            lines@.len() <= i32::MAX,
            y <= lines@.len(),
            forall|j: int| 0 <= j < y ==> (#[trigger] texts[j]).len() <= i32::MAX,
            result@ == antennas_before(texts, 0, y as int),
        decreases lines@.len() - y,
    {
        let line = chars_of(lines[y].as_str());
        assert(texts[y as int] == line@);
        if line.len() > i32::MAX as usize {
            return None;
        }
        let mut x: usize = 0;
        while x < line.len()
            invariant
                texts == lines.deep_view(),
                y < lines@.len() <= i32::MAX,
                texts[y as int] == line@,
                line@.len() <= i32::MAX,
                x <= line@.len(),
                result@ == antennas_before(texts, x as int, y as int) || (x == 0 && result@
                    == antennas_before(texts, 0, y as int)),
            decreases line@.len() - x,
        {
            let c = line[x];
            if c.is_alphanumeric() {
                result.push((c, (x as i32, y as i32)));
            }
            x += 1;
        }
        y += 1;
    }
    Some(result)
}

/// The pairs of antennas of one channel among the first `j` antennas and,
/// with antenna `j`, among the first `i`: each antenna with every earlier
/// one of its channel, the earlier one first.
pub open spec fn pairs_before(antennas: Seq<(char, (i32, i32))>, j: int, i: int) -> Seq<
    (char, (i32, i32), (i32, i32)),
>
    decreases j, i,
{
    if j < 0 || (j == 0 && i <= 0) {
        Seq::empty()
    } else if i <= 0 {
        pairs_before(antennas, j - 1, j - 1)
    } else {
        let before = pairs_before(antennas, j, i - 1);
        if antennas[i - 1].0 == antennas[j].0 {
            before.push((antennas[j].0, antennas[i - 1].1, antennas[j].1))
        } else {
            before
        }
    }
}

/// All pairs of antennas of one channel.
pub open spec fn antenna_pairs(antennas: Seq<(char, (i32, i32))>) -> Seq<
    (char, (i32, i32), (i32, i32)),
> {
    pairs_before(antennas, antennas.len() as int, 0)
}

pub fn find_antenna_pairs(antennas: Vec<(Channel, Coords)>) -> (r: Vec<(Channel, Coords, Coords)>)
    ensures
        r@ == antenna_pairs(antennas@),
{
    let mut result: Vec<(Channel, Coords, Coords)> = Vec::new();
    let mut j: usize = 0;
    while j < antennas.len()
        invariant
            j <= antennas@.len(),
            result@ == pairs_before(antennas@, j as int, 0),
        decreases antennas@.len() - j,
    {
        let (channel, coords) = antennas[j];
        let mut i: usize = 0;
        while i < j
            invariant
                i <= j < antennas@.len(),
                (channel, coords) == antennas@[j as int],
                result@ == pairs_before(antennas@, j as int, i as int),
            decreases j - i,
        {
            if antennas[i].0 == channel {
                result.push((channel, antennas[i].1, coords));
            }
            i += 1;
        }
        j += 1;
    }
    result
}

/// The place `steps` times the way from the second to the first antenna
/// beyond the first.
pub open spec fn along(a: (i32, i32), b: (i32, i32), steps: int) -> (int, int) {
    (a.0 + steps * (a.0 - b.0), a.1 + steps * (a.1 - b.1))
}

/// Whether a place is on a map of the given width and height.
pub open spec fn on_map(p: (int, int), w: int, h: int) -> bool {
    0 <= p.0 < w && 0 <= p.1 < h
}

/// The place as a coordinate pair.
pub open spec fn xy_of(p: (int, int)) -> Xy {
    Xy { x: p.0 as i64, y: p.1 as i64 }
}

/// The two antinodes of each of the first `n` pairs that lie on the map:
/// for each pair the place as far beyond the first antenna as the second
/// is before it, and the same the other way round.
pub open spec fn pair_antinodes(pairs: Seq<(char, (i32, i32), (i32, i32))>, w: int, h: int, n: int) -> Seq<
    Xy,
>
    decreases n,
{
    if n <= 0 {
        Seq::empty()
    } else {
        let before = pair_antinodes(pairs, w, h, n - 1);
        let first = along(pairs[n - 1].1, pairs[n - 1].2, 1);
        let second = along(pairs[n - 1].2, pairs[n - 1].1, 1);
        let with_first = if on_map(first, w, h) {
            before.push(xy_of(first))
        } else {
            before
        };
        if on_map(second, w, h) {
            with_first.push(xy_of(second))
        } else {
            with_first
        }
    }
}

/// Lists the antinodes of the pairs that lie on the map.
pub fn find_antinode_pairs(antennas: &Vec<(Channel, Coords, Coords)>, w: CoordScalar, h: CoordScalar) -> (r:
    Vec<Xy>)
    ensures
        r@ == pair_antinodes(antennas@, w as int, h as int, antennas@.len() as int),
{
    let mut result: Vec<Xy> = Vec::new();
    let mut n: usize = 0;
    while n < antennas.len()
        invariant
            n <= antennas@.len(),
            result@ == pair_antinodes(antennas@, w as int, h as int, n as int),
        decreases antennas@.len() - n,
    {
        let (_, (x1, y1), (x2, y2)) = antennas[n];
        let first = (2 * (x1 as i64) - x2 as i64, 2 * (y1 as i64) - y2 as i64);
        let second = (2 * (x2 as i64) - x1 as i64, 2 * (y2 as i64) - y1 as i64);
        if 0 <= first.0 && first.0 < w as i64 && 0 <= first.1 && first.1 < h as i64 {
            result.push(Xy::new(first.0, first.1));
        }
        if 0 <= second.0 && second.0 < w as i64 && 0 <= second.1 && second.1 < h as i64 {
            result.push(Xy::new(second.0, second.1));
        }
        n += 1;
    }
    result
}

/// The places on the map from step `i` on along the line from the first
/// antenna away from the second (`sign` 1) or toward it (`sign` -1), up
/// to the first place that is off the map, and at most `limit` places.
pub open spec fn ray(a: (i32, i32), b: (i32, i32), sign: int, w: int, h: int, i: int, limit: nat) -> Seq<
    Xy,
>
    decreases limit,
{
    if limit == 0 || !on_map(along(a, b, sign * i), w, h) {
        Seq::empty()
    } else {
        ray(a, b, sign, w, h, i + 1, (limit - 1) as nat).insert(0, xy_of(along(a, b, sign * i)))
    }
}

/// The number of places that a line can have on the map.
pub open spec fn ray_limit(w: int, h: int) -> nat {
    if w >= 0 && h >= 0 {
        (w + h) as nat
    } else {
        0
    }
}

/// A line through two different places has left the map after as many
/// steps as the map is wide and high together.
pub proof fn lemma_ray_leaves_map(a: (i32, i32), b: (i32, i32), sign: int, w: int, h: int, i: int)
    requires
        a != b,
        sign == 1 || sign == -1,
        on_map((a.0 as int, a.1 as int), w, h),
        i >= w + h,
    ensures
        !on_map(along(a, b, sign * i), w, h),
{
    let dx = a.0 - b.0;
    let dy = a.1 - b.1;
    let step = sign * i;
    assert(step == i || step == -i) by (nonlinear_arith)
        requires
            step == sign * i,
            sign == 1 || sign == -1,
    ;
    if dx != 0 {
        assert(step * dx >= w || step * dx <= -w) by (nonlinear_arith)
            requires
                dx != 0,
                step >= w || step <= -w,
                w >= 0,
        ;
    } else {
        assert(step * dy >= h || step * dy <= -h) by (nonlinear_arith)
            requires
                dy != 0,
                step >= h || step <= -h,
                h >= 0,
        ;
    }
}

/// A longer limit finds no more places on a line through two different
/// places, once the limit reaches as far as the map is wide and high
/// together.
pub proof fn lemma_ray_limit_is_enough(
    a: (i32, i32),
    b: (i32, i32),
    sign: int,
    w: int,
    h: int,
    i: int,
    limit: nat,
)
    requires
        a != b,
        sign == 1 || sign == -1,
        0 <= i,
        i + limit >= w + h,
        i > 0 ==> on_map((a.0 as int, a.1 as int), w, h),
    ensures
        ray(a, b, sign, w, h, i, limit) == ray(a, b, sign, w, h, i, limit + 1),
    decreases limit,
{
    if on_map(along(a, b, sign * i), w, h) {
        assert(sign * 0 == 0);
        if limit == 0 {
            if i > 0 {
                lemma_ray_leaves_map(a, b, sign, w, h, i);
            }
        } else {
            lemma_ray_limit_is_enough(a, b, sign, w, h, i + 1, (limit - 1) as nat);
        }
    }
}

/// The places on the map along the lines through the first `n` pairs of
/// antennas, from the first antenna of each pair in both directions.
/// `None` if the two antennas of a pair stand on one place on the map, so
/// that the line does not leave it.
pub open spec fn ray_antinodes(pairs: Seq<(char, (i32, i32), (i32, i32))>, w: int, h: int, n: int) -> Option<
    Seq<Xy>,
>
    decreases n,
{
    if n <= 0 {
        Some(Seq::empty())
    } else {
        let (a, b) = (pairs[n - 1].1, pairs[n - 1].2);
        match ray_antinodes(pairs, w, h, n - 1) {
            Some(before) => if a == b && on_map((a.0 as int, a.1 as int), w, h) {
                None
            } else {
                Some(
                    before + ray(a, b, 1, w, h, 0, ray_limit(w, h)) + ray(
                        a,
                        b,
                        -1,
                        w,
                        h,
                        0,
                        ray_limit(w, h),
                    ),
                )
            },
            None => None,
        }
    }
}

pub proof fn lemma_rays_stay_lost(
    pairs: Seq<(char, (i32, i32), (i32, i32))>,
    w: int,
    h: int,
    n: int,
    m: int,
)
    requires
        0 <= n <= m,
        ray_antinodes(pairs, w, h, n) is None,
    ensures
        ray_antinodes(pairs, w, h, m) is None,
    decreases m - n,
{
    if n < m {
        lemma_rays_stay_lost(pairs, w, h, n, m - 1);
    }
}

/// Adds to `result` the places of one ray.
fn push_ray(result: &mut Vec<Xy>, a: Coords, b: Coords, sign: i64, w: CoordScalar, h: CoordScalar)
    requires
        sign == 1 || sign == -1,
    ensures
        final(result)@ == old(result)@ + ray(a, b, sign as int, w as int, h as int, 0, ray_limit(
            w as int,
            h as int,
        )),
{
    let dx: i64 = a.0 as i64 - b.0 as i64;
    let dy: i64 = a.1 as i64 - b.1 as i64;
    let limit: i64 = if w >= 0 && h >= 0 {
        w as i64 + h as i64
    } else {
        0
    };
    let ghost whole = ray(a, b, sign as int, w as int, h as int, 0, ray_limit(w as int, h as int));
    let mut i: i64 = 0;
    while i < limit
        invariant
            sign == 1 || sign == -1,
            dx == a.0 - b.0,
            dy == a.1 - b.1,
            0 <= i <= limit,
            limit == ray_limit(w as int, h as int),
            whole == ray(a, b, sign as int, w as int, h as int, 0, ray_limit(w as int, h as int)),
            result@ + ray(a, b, sign as int, w as int, h as int, i as int, (limit - i) as nat) == old(
                result,
            )@ + whole,
        decreases limit - i,
    {
        let step: i64 = if sign == 1 {
            i
        } else {
            -i
        };
        assert(step == sign * i) by (nonlinear_arith)
            requires
                sign == 1 || sign == -1,
                step == (if sign == 1 {
                    i as int
                } else {
                    -i
                }),
        ;
        assert(-0x1_0000_0000_0000_0000 <= step * dx <= 0x1_0000_0000_0000_0000) by (nonlinear_arith)
            requires
                -0x1_0000_0000 <= step <= 0x1_0000_0000,
                -0x1_0000_0000 <= dx <= 0x1_0000_0000,
        ;
        assert(-0x1_0000_0000_0000_0000 <= step * dy <= 0x1_0000_0000_0000_0000) by (nonlinear_arith)
            requires
                -0x1_0000_0000 <= step <= 0x1_0000_0000,
                -0x1_0000_0000 <= dy <= 0x1_0000_0000,
        ;
        let new_x: i128 = a.0 as i128 + (step as i128) * (dx as i128);
        let new_y: i128 = a.1 as i128 + (step as i128) * (dy as i128);
        let ghost rest = ray(a, b, sign as int, w as int, h as int, i as int + 1, (limit - i - 1) as nat);
        assert((new_x as int, new_y as int) == along(a, b, sign * i));
        if new_x < 0 || new_x >= w as i128 || new_y < 0 || new_y >= h as i128 {
            assert(ray(a, b, sign as int, w as int, h as int, i as int, (limit - i) as nat)
                =~= Seq::<Xy>::empty());
            assert(result@ =~= old(result)@ + whole);
            return ;
        }
        let ghost so_far = result@;
        result.push(Xy::new(new_x as i64, new_y as i64));
        assert(so_far.push(xy_of(along(a, b, sign * i))) + rest =~= so_far + rest.insert(
            0,
            xy_of(along(a, b, sign * i)),
        ));
        i += 1;
    }
    assert(ray(a, b, sign as int, w as int, h as int, i as int, 0) =~= Seq::<Xy>::empty());
    assert(result@ =~= old(result)@ + whole);
}

/// Lists the places on the map along the lines through the pairs.
pub fn find_antinode_rays(antennas: &Vec<(Channel, Coords, Coords)>, w: CoordScalar, h: CoordScalar) -> (r:
    Option<Vec<Xy>>)
    ensures
        match ray_antinodes(antennas@, w as int, h as int, antennas@.len() as int) {
            Some(places) => r is Some && r->0@ == places,
            None => r is None,
        },
{
    let mut result: Vec<Xy> = Vec::new();
    let mut n: usize = 0;
    while n < antennas.len()
        invariant
            n <= antennas@.len(),
            ray_antinodes(antennas@, w as int, h as int, n as int) == Some(result@),
        decreases antennas@.len() - n,
    {
        let (_, a, b) = antennas[n];
        assert(ray_antinodes(antennas@, w as int, h as int, n as int + 1 - 1) == Some(result@));
        if a.0 == b.0 && a.1 == b.1 && 0 <= a.0 && a.0 < w && 0 <= a.1 && a.1 < h {
            proof {
                lemma_rays_stay_lost(antennas@, w as int, h as int, n as int + 1, antennas@.len() as int);
            }
            return None;
        }
        push_ray(&mut result, a, b, 1, w, h);
        push_ray(&mut result, a, b, -1, w, h);
        n += 1;
    }
    Some(result)
}

/// The width and the height of the map: the length of the first line and
/// the number of lines.
pub open spec fn map_size(lines: Seq<Seq<char>>) -> Option<(int, int)> {
    if lines.len() > 0 && mappable(lines) {
        Some((lines[0].len() as int, lines.len() as int))
    } else {
        None
    }
}

/// The number of different places, if `i64` can count them.
pub open spec fn count_of(places: Seq<Xy>) -> Option<int> {
    if places.to_set().len() <= i64::MAX {
        Some(places.to_set().len() as int)
    } else {
        None
    }
}

/// The number of places with an antinode of two antennas, for the lines
/// of a map.
pub open spec fn pair_count(lines: Seq<Seq<char>>) -> Option<int> {
    match map_size(lines) {
        Some((w, h)) => {
            let pairs = antenna_pairs(antennas_of(lines));
            count_of(pair_antinodes(pairs, w, h, pairs.len() as int))
        },
        None => None,
    }
}

/// The number of places on the lines through two antennas, for the lines
/// of a map.
pub open spec fn ray_count(lines: Seq<Seq<char>>) -> Option<int> {
    match map_size(lines) {
        Some((w, h)) => {
            let pairs = antenna_pairs(antennas_of(lines));
            match ray_antinodes(pairs, w, h, pairs.len() as int) {
                Some(places) => count_of(places),
                None => None,
            }
        },
        None => None,
    }
}

/// Whether a result gives a count.
pub open spec fn gives(r: Option<i64>, count: Option<int>) -> bool {
    match count {
        Some(n) => r is Some && r->0 == n,
        None => r is None,
    }
}

/// Whether `r` is the answer to the first part for the puzzle text.
pub open spec fn is_solution_a(text: Seq<char>, r: Option<i64>) -> bool {
    gives(r, pair_count(lines_of(text)))
}

/// Whether `r` is the answer to the second part for the puzzle text.
pub open spec fn is_solution_b(text: Seq<char>, r: Option<i64>) -> bool {
    gives(r, ray_count(lines_of(text)))
}

/// Reads the size of the map and its pairs of antennas.
pub fn read_map(lines: Vec<String>) -> (r: Option<(CoordScalar, CoordScalar, Vec<(Channel, Coords, Coords)>)>)
    ensures
        match map_size(lines.deep_view()) {
            Some((w, h)) => r is Some && (r->0).0 == w && (r->0).1 == h && (r->0).2@ == antenna_pairs(
                antennas_of(lines.deep_view()),
            ),
            None => r is None,
        },
{
    if lines.len() == 0 {
        return None;
    }
    let first = chars_of(lines[0].as_str());
    assert(lines.deep_view()[0] == first@);
    let h = as_coord_scalar(lines.len());
    let w = as_coord_scalar(first.len());
    match find_all_antennas(lines) {
        Some(antennas) => match (w, h) {
            (Some(w), Some(h)) => Some((w, h, find_antenna_pairs(antennas))),
            _ => None,
        },
        None => None,
    }
}

pub fn day8(input: &str) -> (r: Option<i64>)
    ensures
        is_solution_a(input@, r),
{
    match read_map(split_lines(input)) {
        Some((w, h, pairs)) => {
            let linear_antinodes = find_antinode_pairs(&pairs, w, h);
            let count = count_distinct(&linear_antinodes);
            if count as u64 > i64::MAX as u64 {
                None
            } else {
                Some(count as i64)
            }
        },
        None => None,
    }
}

pub fn day8b(input: &str) -> (r: Option<i64>)
    ensures
        is_solution_b(input@, r),
{
    match read_map(split_lines(input)) {
        Some((w, h, pairs)) => match find_antinode_rays(&pairs, w, h) {
            Some(linear_antinodes) => {
                let count = count_distinct(&linear_antinodes);
                if count as u64 > i64::MAX as u64 {
                    None
                } else {
                    Some(count as i64)
                }
            },
            None => None,
        },
        None => None,
    }
}

} // verus!
