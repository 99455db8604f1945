//! A garden is a grid of plots, each with one kind of plant. Plots of one
//! kind that touch form a region. The puzzle prices the fence of every
//! region: by its area times its perimeter, and by its area times the
//! number of its sides.

use crate::common::arith::{add_checked, add_within, known, mul_checked, mul_within};
use crate::common::grid_board::{
    coords_holding, lemma_holding_grows, on_board, rectangular, same_shape, width_of, Board, Xy,
};
use crate::common::text::{chars_of_all, lines_of, rows_view, split_lines, string_of};
use vstd::prelude::*;

verus! {

pub type Color = char;

pub type Coords = (usize, usize);

pub type Garden = Vec<Vec<Color>>;

/// The colour of everything outside the garden.
pub const NO_COLOR: Color = '.';

/// The plots of a garden from lines of text, one plot for each character.
pub fn make_map(input: &Vec<String>) -> (r: Garden)
    ensures
        rows_view(r@) == input.deep_view(),
{
    chars_of_all(input)
}

/// Whether the rows are a garden: a rectangle with at least one column,
/// neither side longer than the largest `i32`.
pub open spec fn is_garden(rows: Seq<Seq<char>>) -> bool {
    rectangular(rows) && 1 <= width_of(rows) <= i32::MAX && rows.len() <= i32::MAX
}

/// Tells whether the rows are a garden.
pub fn check_garden(map: &Garden) -> (r: bool)
    ensures
        r == is_garden(rows_view(map@)),
{
    let ghost rows = rows_view(map@);
    let h = map.len();
    if h == 0 || h > i32::MAX as usize {
        return false;
    }
    let w = map[0].len();
    assert(rows[0] == map@[0]@);
    if w == 0 || w > i32::MAX as usize || h.checked_mul(w).is_none() {
        return false;
    }
    let mut y: usize = 0;
    while y < h
        invariant
            rows == rows_view(map@),
            h == map@.len(),
            w == rows[0].len(),
            y <= h,
            forall|j: int| 0 <= j < y ==> (#[trigger] rows[j]).len() == w,
        decreases h - y,
    {
        assert(rows[y as int] == map@[y as int]@);
        if map[y].len() != w {
            return false;
        }
        y += 1;
    }
    true
}

/// The plant of a plot of the garden.
pub fn at(map: &Garden, xy: Coords) -> (c: Color)
    requires
        xy.1 < map@.len(),
        xy.0 < map@[xy.1 as int]@.len(),
    ensures
        c == rows_view(map@)[xy.1 as int][xy.0 as int],
{
    assert(rows_view(map@)[xy.1 as int] == map@[xy.1 as int]@);
    map[xy.1][xy.0]
}

/// The plant at any place: that of the plot there, and `NO_COLOR` outside
/// the garden.
pub open spec fn plant_at(rows: Seq<Seq<char>>, x: int, y: int) -> char {
    if 0 <= y < rows.len() && 0 <= x < rows[y].len() {
        rows[y][x]
    } else {
        NO_COLOR
    }
}

pub fn xat(map: &Garden, xy: (i32, i32)) -> (c: Color)
    ensures
        c == plant_at(rows_view(map@), xy.0 as int, xy.1 as int),
{
    let (x, y) = xy;
    if x < 0 || y < 0 {
        return NO_COLOR;
    }
    let (x, y) = (x as usize, y as usize);
    if y >= map.len() {
        return NO_COLOR;
    }
    assert(rows_view(map@)[y as int] == map@[y as int]@);
    if x >= map[y].len() {
        NO_COLOR
    } else {
        map[y][x]
    }
}

/// 1 if the condition holds, and else 0.
pub open spec fn one_if(b: bool) -> int {
    if b {
        1
    } else {
        0
    }
}

/// The number of corners that the region of a plot has at that plot: at
/// each of the four corners of the plot, a corner where neither, or both
/// but not the plot between them, of the two neighbours along the edges
/// belong to the plot's kind.
pub open spec fn corner_count(rows: Seq<Seq<char>>, x: int, y: int) -> int {
    let center = plant_at(rows, x, y);
    let n = plant_at(rows, x, y - 1) == center;
    let ne = plant_at(rows, x + 1, y - 1) == center;
    let e = plant_at(rows, x + 1, y) == center;
    let se = plant_at(rows, x + 1, y + 1) == center;
    let s = plant_at(rows, x, y + 1) == center;
    let sw = plant_at(rows, x - 1, y + 1) == center;
    let w = plant_at(rows, x - 1, y) == center;
    let nw = plant_at(rows, x - 1, y - 1) == center;
    one_if(!ne && n && e) + one_if(!se && s && e) + one_if(!sw && s && w) + one_if(!nw && n && w)
        + one_if(!n && !e) + one_if(!s && !e) + one_if(!s && !w) + one_if(!n && !w)
}

pub fn corners(map: &Garden, xy: (i32, i32)) -> (r: usize)
    requires
        i32::MIN < xy.0 < i32::MAX,
        i32::MIN < xy.1 < i32::MAX,
    ensures
        r == corner_count(rows_view(map@), xy.0 as int, xy.1 as int),
        r <= 4,
{
    let (x, y) = xy;
    let center = xat(map, (x, y));
    let mut result: usize = 0;
    let n = xat(map, (x, y - 1)) == center;
    let ne = xat(map, (x + 1, y - 1)) == center;
    let e = xat(map, (x + 1, y)) == center;
    let se = xat(map, (x + 1, y + 1)) == center;
    let s = xat(map, (x, y + 1)) == center;
    let sw = xat(map, (x - 1, y + 1)) == center;
    let w = xat(map, (x - 1, y)) == center;
    let nw = xat(map, (x - 1, y - 1)) == center;
    // Inner corners
    if !ne && n && e {
        result += 1;
    }
    if !se && s && e {
        result += 1;
    }
    if !sw && s && w {
        result += 1;
    }
    if !nw && n && w {
        result += 1;
    }
    // Outer corners, those across a diagonal neighbour of the same kind included
    if !n && !e {
        result += 1;
    }
    if !s && !e {
        result += 1;
    }
    if !s && !w {
        result += 1;
    }
    if !n && !w {
        result += 1;
    }
    result
}

/// The garden as text, with a line feed after every row.
pub open spec fn garden_text(rows: Seq<Seq<char>>, n: int) -> Seq<char>
    decreases n,
{
    if n <= 0 {
        Seq::empty()
    } else {
        garden_text(rows, n - 1) + rows[n - 1].push('\n')
    }
}

pub fn map_to_string(map: &Garden) -> (r: String)
    ensures
        r@ == garden_text(rows_view(map@), map@.len() as int),
{
    let ghost rows = rows_view(map@);
    let mut result: Vec<char> = Vec::new();
    let mut y: usize = 0;
    while y < map.len()
        invariant
            rows == rows_view(map@),
            y <= map@.len(),
            result@ == garden_text(rows, y as int),
        decreases map@.len() - y,
    {
        let ghost before = result@;
        assert(rows[y as int] == map@[y as int]@);
        let mut x: usize = 0;
        while x < map[y].len()
            invariant
                y < map@.len(),
                x <= map@[y as int]@.len(),
                result@ == before + map@[y as int]@.take(x as int),
            decreases map@[y as int]@.len() - x,
        {
            result.push(map[y][x]);
            assert(result@ =~= before + map@[y as int]@.take(x as int + 1));
            x += 1;
        }
        result.push('\n');
        assert(map@[y as int]@.take(map@[y as int]@.len() as int) =~= map@[y as int]@);
        assert(result@ =~= before + rows[y as int].push('\n'));
        y += 1;
    }
    string_of(&result)
}

/// Whether two plots touch along an edge and grow the same plant.
pub open spec fn linked(rows: Seq<Seq<char>>, a: Xy, b: Xy) -> bool {
    &&& on_board(rows, a.x as int, a.y as int)
    &&& on_board(rows, b.x as int, b.y as int)
    &&& rows[a.y as int][a.x as int] == rows[b.y as int][b.x as int]
    &&& ((a.x == b.x && (a.y - b.y == 1 || b.y - a.y == 1)) || (a.y == b.y && (a.x - b.x == 1 || b.x
        - a.x == 1)))
}

/// Whether a plot can be reached from the start in at most `n` steps from
/// plot to linked plot.
pub open spec fn reach(rows: Seq<Seq<char>>, start: Xy, c: Xy, n: nat) -> bool
    decreases n,
{
    if n == 0 {
        c == start && on_board(rows, c.x as int, c.y as int)
    } else {
        reach(rows, start, c, (n - 1) as nat) || exists|m: Xy|
            #[trigger] linked(rows, m, c) && reach(rows, start, m, (n - 1) as nat)
    }
}

/// Whether a plot belongs to the region of the start.
pub open spec fn in_region(rows: Seq<Seq<char>>, start: Xy, c: Xy) -> bool {
    exists|n: nat| #[trigger] reach(rows, start, c, n)
}

/// The board of marks that marks exactly the region of the start.
pub open spec fn region_mask(rows: Seq<Seq<char>>, start: Xy) -> Seq<Seq<bool>> {
    Seq::new(
        rows.len(),
        |y: int|
            Seq::new(
                width_of(rows) as nat,
                |x: int| in_region(rows, start, Xy { x: x as i64, y: y as i64 }),
            ),
    )
}

/// Marks of a region are the marks of the region.
pub proof fn lemma_marks_are_region_mask(rows: Seq<Seq<char>>, start: Xy, mask: Seq<Seq<bool>>)
    requires
        marks_region(rows, start, mask),
    ensures
        mask == region_mask(rows, start),
{
    let wanted = region_mask(rows, start);
    assert forall|y: int| 0 <= y < mask.len() implies #[trigger] mask[y] == wanted[y] by {
        assert(mask[y].len() == width_of(mask));
        assert forall|x: int| 0 <= x < mask[y].len() implies mask[y][x] == wanted[y][x] by {
            assert(on_board(rows, x, y));
        }
        assert(mask[y] =~= wanted[y]);
    }
    assert(mask =~= wanted);
}

/// Whether a board of marks marks exactly the region of the start.
pub open spec fn marks_region(rows: Seq<Seq<char>>, start: Xy, mask: Seq<Seq<bool>>) -> bool {
    &&& rectangular(mask)
    &&& same_shape(mask, rows)
    &&& forall|x: int, y: int|
        on_board(rows, x, y) ==> (#[trigger] mask[y][x] <==> in_region(
            rows,
            start,
            Xy { x: x as i64, y: y as i64 },
        ))
}

/// The four plots beside a plot: north, east, south and west for `k` from
/// 0 to 3.
pub open spec fn beside(c: Xy, k: int) -> (int, int) {
    if k == 0 {
        (c.x as int, c.y - 1)
    } else if k == 1 {
        (c.x + 1, c.y as int)
    } else if k == 2 {
        (c.x as int, c.y + 1)
    } else {
        (c.x - 1, c.y as int)
    }
}

/// A plot that is linked to another is one of the four beside it.
pub proof fn lemma_linked_is_beside(rows: Seq<Seq<char>>, a: Xy, b: Xy)
    requires
        linked(rows, a, b),
    ensures
        exists|k: int| 0 <= k < 4 && #[trigger] beside(a, k) == (b.x as int, b.y as int),
{
    if a.x == b.x && b.y - a.y == -1 {
        assert(beside(a, 0) == (b.x as int, b.y as int));
    } else if a.y == b.y && b.x - a.x == 1 {
        assert(beside(a, 1) == (b.x as int, b.y as int));
    } else if a.x == b.x && b.y - a.y == 1 {
        assert(beside(a, 2) == (b.x as int, b.y as int));
    } else {
        assert(beside(a, 3) == (b.x as int, b.y as int));
    }
}

/// Whether every marked plot that is not on the list has its linked
/// neighbours marked.
pub open spec fn settled(rows: Seq<Seq<char>>, mask: Seq<Seq<bool>>, list: Seq<Xy>) -> bool {
    forall|a: Xy, b: Xy|
        #[trigger] linked(rows, a, b) && mask[a.y as int][a.x as int] && !list.contains(a)
            ==> mask[b.y as int][b.x as int]
}

/// Marks that hold the start and with every marked plot its linked
/// neighbours hold every plot that can be reached.
pub proof fn lemma_closed_holds_region(
    rows: Seq<Seq<char>>,
    start: Xy,
    mask: Seq<Seq<bool>>,
    c: Xy,
    n: nat,
)
    requires
        on_board(rows, start.x as int, start.y as int),
        mask[start.y as int][start.x as int],
        settled(rows, mask, Seq::empty()),
        reach(rows, start, c, n),
    ensures
        mask[c.y as int][c.x as int],
    decreases n,
{
    if n > 0 {
        if reach(rows, start, c, (n - 1) as nat) {
            lemma_closed_holds_region(rows, start, mask, c, (n - 1) as nat);
        } else {
            let m = choose|m: Xy| #[trigger] linked(rows, m, c) && reach(rows, start, m, (n - 1) as nat);
            lemma_closed_holds_region(rows, start, mask, m, (n - 1) as nat);
            assert(!Seq::<Xy>::empty().contains(m));
        }
    }
}

/// Looks at the plot beside `from` in direction `k`: if it is of the same
/// kind and not marked yet, it is marked and put on the list.
fn visit_beside(map: &Garden, visited: &mut Board<bool>, worklist: &mut Vec<Xy>, from: Xy, k: usize)
    requires
        is_garden(rows_view(map@)),
        old(visited).wf(),
        same_shape(old(visited)@, rows_view(map@)),
        on_board(rows_view(map@), from.x as int, from.y as int),
        k < 4,
    ensures
        final(visited).wf(),
        same_shape(final(visited)@, rows_view(map@)),
        forall|x: int, y: int|
            on_board(rows_view(map@), x, y) && old(visited)@[y][x] ==> #[trigger] final(visited)@[y][x],
        forall|x: int, y: int|
            on_board(rows_view(map@), x, y) && #[trigger] final(visited)@[y][x] && !old(visited)@[y][x]
                ==> linked(rows_view(map@), from, Xy { x: x as i64, y: y as i64 }) && final(worklist)@
                == old(worklist)@.push(Xy { x: x as i64, y: y as i64 }),
        final(worklist)@ == old(worklist)@ || (final(worklist)@.len() == old(worklist)@.len() + 1
            && final(worklist)@.drop_last() == old(worklist)@ && on_board(
            rows_view(map@),
            final(worklist)@.last().x as int,
            final(worklist)@.last().y as int,
        ) && final(visited)@[final(worklist)@.last().y as int][final(worklist)@.last().x as int]),
        forall|b: Xy|
            #[trigger] linked(rows_view(map@), from, b) && beside(from, k as int) == (
                b.x as int,
                b.y as int,
            ) ==> final(visited)@[b.y as int][b.x as int],
        coords_holding(final(visited)@, true).len() >= coords_holding(old(visited)@, true).len() + (
        final(worklist)@.len() - old(worklist)@.len()),
        coords_holding(final(visited)@, true).len() <= rows_view(map@).len() * width_of(
            rows_view(map@),
        ),
{
    let ghost rows = rows_view(map@);
    proof {
        lemma_holding_grows(visited@, visited@, true);
    }
    let h = map.len();
    assert(rows[0] == map@[0]@);
    let w = map[0].len();
    let (x, y) = (from.x, from.y);
    let place: Option<(i64, i64)> = if k == 0 {
        if y > 0 {
            Some((x, y - 1))
        } else {
            None
        }
    } else if k == 1 {
        if x < w as i64 - 1 {
            Some((x + 1, y))
        } else {
            None
        }
    } else if k == 2 {
        if y < h as i64 - 1 {
            Some((x, y + 1))
        } else {
            None
        }
    } else {
        if x > 0 {
            Some((x - 1, y))
        } else {
            None
        }
    };
    if let Some((nx, ny)) = place {
        let to = Xy::new(nx, ny);
        assert(rows[ny as int].len() == w);
        assert(rows[y as int].len() == w);
        let same = at(map, (nx as usize, ny as usize)) == at(map, (x as usize, y as usize));
        if same && !visited.at(to) {
            let ghost before = visited@;
            visited.set_at(to, true);
            worklist.push(to);
            proof {
                lemma_holding_grows(before, visited@, true);
                assert(visited@[ny as int][nx as int] != before[ny as int][nx as int]);
                assert(worklist@.drop_last() =~= old(worklist)@);
                assert(linked(rows, from, to));
            }
        }
    }
}

/// Marks the region of a plot: the plots that can be reached from it by
/// steps to neighbours of the same kind.
pub fn make_region(map: &Garden, start: &Coords) -> (mask: Board<bool>)
    requires
        is_garden(rows_view(map@)),
        on_board(rows_view(map@), start.0 as int, start.1 as int),
    ensures
        mask.wf(),
        marks_region(rows_view(map@), Xy { x: start.0 as i64, y: start.1 as i64 }, mask@),
        mask@ == region_mask(rows_view(map@), Xy { x: start.0 as i64, y: start.1 as i64 }),
{
    let ghost rows = rows_view(map@);
    let h = map.len();
    assert(rows[0] == map@[0]@);
    let w = map[0].len();
    let origin = Xy::new(start.0 as i64, start.1 as i64);
    let mut visited: Board<bool> = Board::new(h, w, false);
    let mut worklist: Vec<Xy> = Vec::new();
    let ghost blank = visited@;
    visited.set_at(origin, true);
    worklist.push(origin);
    let ghost area = h * w;
    proof {
        lemma_holding_grows(visited@, visited@, true);
        assert(reach(rows, origin, origin, 0));
        assert(worklist@[0] == origin);
        assert forall|x: int, y: int| on_board(rows, x, y) && #[trigger] visited@[y][x] implies x
            == origin.x && y == origin.y by {
            assert(on_board(blank, x, y));
            assert(!blank[y][x]);
        }
        assert forall|x: int, y: int| on_board(rows, x, y) && #[trigger] visited@[y][x] implies in_region(
            rows,
            origin,
            Xy { x: x as i64, y: y as i64 },
        ) by {
            assert(x == origin.x && y == origin.y);
        }
        assert forall|a: Xy, b: Xy|
            #[trigger] linked(rows, a, b) && visited@[a.y as int][a.x as int] && !worklist@.contains(
                a,
            ) implies visited@[b.y as int][b.x as int] by {
            assert(visited@[a.y as int][a.x as int]);
            assert(a.x == origin.x && a.y == origin.y);
        }
    }
    while worklist.len() > 0
        invariant
            rows == rows_view(map@),
            is_garden(rows),
            h == rows.len(),
            w == width_of(rows),
            area == h * w,
            visited.wf(),
            same_shape(visited@, rows),
            on_board(rows, origin.x as int, origin.y as int),
            visited@[origin.y as int][origin.x as int],
            forall|i: int|
                0 <= i < worklist@.len() ==> on_board(
                    rows,
                    (#[trigger] worklist@[i]).x as int,
                    worklist@[i].y as int,
                ) && visited@[worklist@[i].y as int][worklist@[i].x as int],
            forall|x: int, y: int|
                on_board(rows, x, y) && #[trigger] visited@[y][x] ==> in_region(
                    rows,
                    origin,
                    Xy { x: x as i64, y: y as i64 },
                ),
            settled(rows, visited@, worklist@),
            coords_holding(visited@, true).len() <= area,
        decreases area - coords_holding(visited@, true).len() + worklist@.len(),
    {
        let ghost before_list = worklist@;
        let ghost before_marks = visited@;
        let from = worklist.pop().unwrap();
        let ghost rest = worklist@;
        proof {
            assert(rest =~= before_list.drop_last());
            assert(before_list[before_list.len() - 1] == from);
            assert(in_region(rows, origin, Xy { x: from.x as int as i64, y: from.y as int as i64 }));
        }
        let ghost depth = choose|n: nat| #[trigger] reach(rows, origin, from, n);
        let mut k: usize = 0;
        while k < 4
            invariant
                rows == rows_view(map@),
                is_garden(rows),
                area == rows.len() * width_of(rows),
                visited.wf(),
                same_shape(visited@, rows),
                on_board(rows, from.x as int, from.y as int),
                k <= 4,
                rectangular(before_marks),
                same_shape(before_marks, rows),
                forall|x: int, y: int|
                    on_board(rows, x, y) && before_marks[y][x] ==> #[trigger] visited@[y][x],
                forall|x: int, y: int|
                    on_board(rows, x, y) && #[trigger] visited@[y][x] && !before_marks[y][x]
                        ==> linked(rows, from, Xy { x: x as i64, y: y as i64 }) && worklist@.contains(
                        Xy { x: x as i64, y: y as i64 },
                    ),
                rest.len() <= worklist@.len(),
                forall|i: int| 0 <= i < rest.len() ==> worklist@[i] == rest[i],
                forall|i: int|
                    rest.len() <= i < worklist@.len() ==> on_board(
                        rows,
                        (#[trigger] worklist@[i]).x as int,
                        worklist@[i].y as int,
                    ) && visited@[worklist@[i].y as int][worklist@[i].x as int],
                forall|j: int, b: Xy|
                    0 <= j < k && #[trigger] linked(rows, from, b) && #[trigger] beside(from, j) == (
                        b.x as int,
                        b.y as int,
                    ) ==> visited@[b.y as int][b.x as int],
                coords_holding(visited@, true).len() >= coords_holding(before_marks, true).len() + (
                worklist@.len() - rest.len()),
                coords_holding(visited@, true).len() <= area,
            decreases 4 - k,
        {
            let ghost marks = visited@;
            let ghost list = worklist@;
            visit_beside(map, &mut visited, &mut worklist, from, k);
            proof {
                assert forall|x: int, y: int|
                    on_board(rows, x, y) && #[trigger] visited@[y][x] && !before_marks[y][x] implies linked(
                    rows,
                    from,
                    Xy { x: x as i64, y: y as i64 },
                ) && worklist@.contains(Xy { x: x as i64, y: y as i64 }) by {
                    let c = Xy { x: x as i64, y: y as i64 };
                    if marks[y][x] {
                        let i = choose|i: int| 0 <= i < list.len() && list[i] == c;
                        assert(worklist@[i] == c);
                    } else {
                        assert(worklist@ == list.push(c));
                        assert(worklist@[list.len() as int] == c);
                    }
                }
                assert forall|i: int| 0 <= i < rest.len() implies worklist@[i] == rest[i] by {
                    if worklist@ != list {
                        assert(worklist@.drop_last()[i] == list[i]);
                    }
                }
                assert forall|i: int| rest.len() <= i < worklist@.len() implies on_board(
                    rows,
                    (#[trigger] worklist@[i]).x as int,
                    worklist@[i].y as int,
                ) && visited@[worklist@[i].y as int][worklist@[i].x as int] by {
                    if i < list.len() {
                        if worklist@ != list {
                            assert(worklist@.drop_last()[i] == list[i]);
                        }
                        assert(marks[list[i].y as int][list[i].x as int]);
                    }
                }
            }
            k += 1;
        }
        proof {
            assert forall|i: int| 0 <= i < worklist@.len() implies on_board(
                rows,
                (#[trigger] worklist@[i]).x as int,
                worklist@[i].y as int,
            ) && visited@[worklist@[i].y as int][worklist@[i].x as int] by {
                if i < rest.len() {
                    assert(worklist@[i] == rest[i]);
                    assert(before_list[i] == rest[i]);
                }
            }
            assert forall|x: int, y: int| on_board(rows, x, y) && #[trigger] visited@[y][x] implies in_region(
                rows,
                origin,
                Xy { x: x as i64, y: y as i64 },
            ) by {
                let c = Xy { x: x as i64, y: y as i64 };
                if !before_marks[y][x] {
                    assert(linked(rows, from, c));
                    assert(reach(rows, origin, from, ((depth + 1) - 1) as nat));
                    assert(reach(rows, origin, c, depth + 1));
                }
            }
            assert forall|a: Xy, b: Xy|
                #[trigger] linked(rows, a, b) && visited@[a.y as int][a.x as int] && !worklist@.contains(
                    a,
                ) implies visited@[b.y as int][b.x as int] by {
                if a == from {
                    lemma_linked_is_beside(rows, from, b);
                    let j = choose|j: int| 0 <= j < 4 && #[trigger] beside(from, j) == (
                        b.x as int,
                        b.y as int,
                    );
                    assert(beside(from, j) == (b.x as int, b.y as int));
                } else {
                    assert(before_marks[a.y as int][a.x as int]);
                    if before_list.contains(a) {
                        let i = choose|i: int| 0 <= i < before_list.len() && before_list[i] == a;
                        assert(i < rest.len());
                        assert(rest[i] == before_list[i]);
                        assert(worklist@[i] == a);
                    }
                    assert(before_marks[b.y as int][b.x as int]);
                }
            }
        }
    }
    proof {
        assert(worklist@ =~= Seq::<Xy>::empty());
        assert forall|x: int, y: int| on_board(rows, x, y) implies (#[trigger] visited@[y][x] <==> in_region(
            rows,
            origin,
            Xy { x: x as i64, y: y as i64 },
        )) by {
            let c = Xy { x: x as i64, y: y as i64 };
            if in_region(rows, origin, c) {
                let n = choose|n: nat| #[trigger] reach(rows, origin, c, n);
                lemma_closed_holds_region(rows, origin, visited@, c, n);
            }
        }
        lemma_marks_are_region_mask(rows, origin, visited@);
    }
    visited
}


/// Whether one of the boards of marks marks the plot.
pub open spec fn covered(masks: Seq<Seq<Seq<bool>>>, x: int, y: int) -> bool {
    exists|i: int| 0 <= i < masks.len() && (#[trigger] masks[i])[y][x]
}

/// The regions of the plots before column `x` of row `y` and of the rows
/// above, in the order of their first plots: every plot that no earlier
/// region holds starts a region.
pub open spec fn regions_before(rows: Seq<Seq<char>>, x: int, y: int) -> Seq<Seq<Seq<bool>>>
    decreases y, x,
{
    if y < 0 || (y == 0 && x <= 0) {
        Seq::empty()
    } else if x <= 0 {
        regions_before(rows, width_of(rows), y - 1)
    } else {
        let before = regions_before(rows, x - 1, y);
        if covered(before, x - 1, y) {
            before
        } else {
            before.push(region_mask(rows, Xy { x: (x - 1) as i64, y: y as i64 }))
        }
    }
}

/// All regions of a garden.
pub open spec fn regions_of(rows: Seq<Seq<char>>) -> Seq<Seq<Seq<bool>>> {
    regions_before(rows, 0, rows.len() as int)
}

/// The views of boards of marks.
pub open spec fn masks_view(masks: Seq<Board<bool>>) -> Seq<Seq<Seq<bool>>> {
    masks.map_values(|mask: Board<bool>| mask@)
}

/// Marks on one board whatever another board marks.
fn merge(consumed: &mut Board<bool>, mask: &Board<bool>)
    requires
        old(consumed).wf(),
        mask.wf(),
        same_shape(old(consumed)@, mask@),
    ensures
        final(consumed).wf(),
        same_shape(final(consumed)@, mask@),
        forall|x: int, y: int|
            on_board(mask@, x, y) ==> #[trigger] final(consumed)@[y][x] == (old(consumed)@[y][x]
                || mask@[y][x]),
{
    let h = mask.height();
    let w = mask.width();
    let mut y: usize = 0;
    while y < h
        invariant
            consumed.wf(),
            mask.wf(),
            same_shape(consumed@, mask@),
            h == mask@.len(),
            w == width_of(mask@),
            y <= h,
            forall|i: int, j: int|
                on_board(mask@, i, j) ==> #[trigger] consumed@[j][i] == (if j < y {
                    old(consumed)@[j][i] || mask@[j][i]
                } else {
                    old(consumed)@[j][i]
                }),
        decreases h - y,
    {
        let mut x: usize = 0;
        while x < w
            invariant
                consumed.wf(),
                mask.wf(),
                same_shape(consumed@, mask@),
                h == mask@.len(),
                w == width_of(mask@),
                y < h,
                x <= w,
                forall|i: int, j: int|
                    on_board(mask@, i, j) ==> #[trigger] consumed@[j][i] == (if j < y || (j == y && i
                        < x) {
                        old(consumed)@[j][i] || mask@[j][i]
                    } else {
                        old(consumed)@[j][i]
                    }),
            decreases w - x,
        {
            let xy = Xy::new(x as i64, y as i64);
            if mask.at(xy) {
                consumed.set_at(xy, true);
            }
            x += 1;
        }
        y += 1;
    }
}

/// Finds the regions of a garden.
pub fn make_regions(map: &Garden) -> (r: Vec<Board<bool>>)
    requires
        is_garden(rows_view(map@)),
    ensures
        masks_view(r@) == regions_of(rows_view(map@)),
        forall|i: int|
            0 <= i < r@.len() ==> (#[trigger] r@[i]).wf() && same_shape(r@[i]@, rows_view(map@)),
{
    let ghost rows = rows_view(map@);
    let h = map.len();
    assert(rows[0] == map@[0]@);
    let w = map[0].len();
    let mut consumed: Board<bool> = Board::new(h, w, false);
    let mut result: Vec<Board<bool>> = Vec::new();
    let mut y: usize = 0;
    proof {
        assert(masks_view(result@) =~= regions_before(rows, 0, 0));
        assert forall|i: int, j: int| on_board(rows, i, j) implies #[trigger] consumed@[j][i] == covered(
            masks_view(result@),
            i,
            j,
        ) by {
            assert(on_board(consumed@, i, j));
        }
    }
    while y < h
        invariant
            rows == rows_view(map@),
            is_garden(rows),
            h == rows.len(),
            w == width_of(rows),
            consumed.wf(),
            same_shape(consumed@, rows),
            y <= h,
            masks_view(result@) == regions_before(rows, 0, y as int),
            forall|i: int|
                0 <= i < result@.len() ==> (#[trigger] result@[i]).wf() && same_shape(result@[i]@, rows),
            forall|i: int, j: int|
                on_board(rows, i, j) ==> #[trigger] consumed@[j][i] == covered(
                    masks_view(result@),
                    i,
                    j,
                ),
        decreases h - y,
    {
        let mut x: usize = 0;
        while x < w
            invariant
                rows == rows_view(map@),
                is_garden(rows),
                h == rows.len(),
                w == width_of(rows),
                consumed.wf(),
                same_shape(consumed@, rows),
                y < h,
                x <= w,
                masks_view(result@) == regions_before(rows, x as int, y as int) || (x == 0
                    && masks_view(result@) == regions_before(rows, 0, y as int)),
                forall|i: int|
                    0 <= i < result@.len() ==> (#[trigger] result@[i]).wf() && same_shape(
                        result@[i]@,
                        rows,
                    ),
                forall|i: int, j: int|
                    on_board(rows, i, j) ==> #[trigger] consumed@[j][i] == covered(
                        masks_view(result@),
                        i,
                        j,
                    ),
            decreases w - x,
        {
            assert(masks_view(result@) == regions_before(rows, x as int, y as int));
            if !consumed.at(Xy::new(x as i64, y as i64)) {
                let region = make_region(map, &(x, y));
                let ghost before = masks_view(result@);
                let ghost marks = consumed@;
                merge(&mut consumed, &region);
                result.push(region);
                proof {
                    assert(masks_view(result@) =~= before.push(region@));
                    assert forall|i: int, j: int| on_board(rows, i, j) implies #[trigger] consumed@[j][i]
                        == covered(masks_view(result@), i, j) by {
                        let now = masks_view(result@);
                        assert(on_board(region@, i, j));
                        if covered(before, i, j) {
                            let q = choose|q: int| 0 <= q < before.len() && (#[trigger] before[q])[j][i];
                            assert(now[q] == before[q]);
                            assert(now[q][j][i]);
                        }
                        if region@[j][i] {
                            assert(now[before.len() as int] == region@);
                            assert(now[before.len() as int][j][i]);
                        }
                        if covered(now, i, j) {
                            let q = choose|q: int| 0 <= q < now.len() && (#[trigger] now[q])[j][i];
                            if q < before.len() {
                                assert(now[q] == before[q]);
                                assert(before[q][j][i]);
                            } else {
                                assert(now[q] == region@);
                            }
                        }
                    }
                }
            }
            x += 1;
        }
        y += 1;
    }
    result
}

/// Whether the plot beside `(x, y)` in direction `k` lies in the garden
/// and grows the same plant.
pub open spec fn same_beside(rows: Seq<Seq<char>>, x: int, y: int, k: int) -> bool {
    let b = beside(Xy { x: x as i64, y: y as i64 }, k);
    on_board(rows, b.0, b.1) && rows[b.1][b.0] == rows[y][x]
}

/// The number of sides of a plot that need a fence: those without a
/// neighbour of the same kind.
pub open spec fn fences(rows: Seq<Seq<char>>, x: int, y: int) -> int {
    4 - one_if(same_beside(rows, x, y, 0)) - one_if(same_beside(rows, x, y, 1)) - one_if(
        same_beside(rows, x, y, 2),
    ) - one_if(same_beside(rows, x, y, 3))
}

/// Counts the sides of a plot that need a fence.
pub fn count_fences(map: &Garden, x: usize, y: usize) -> (r: i64)
    requires
        is_garden(rows_view(map@)),
        on_board(rows_view(map@), x as int, y as int),
    ensures
        r == fences(rows_view(map@), x as int, y as int),
        0 <= r <= 4,
{
    let ghost rows = rows_view(map@);
    let h = map.len();
    assert(rows[0] == map@[0]@);
    let w = map[0].len();
    assert(rows[y as int].len() == w);
    let here = at(map, (x, y));
    let mut result: i64 = 4;
    if y > 0 {
        assert(rows[y - 1].len() == w);
        if at(map, (x, y - 1)) == here {
            result -= 1;
        }
    }
    if x < w - 1 {
        if at(map, (x + 1, y)) == here {
            result -= 1;
        }
    }
    if y < h - 1 {
        assert(rows[y + 1].len() == w);
        if at(map, (x, y + 1)) == here {
            result -= 1;
        }
    }
    if x > 0 {
        if at(map, (x - 1, y)) == here {
            result -= 1;
        }
    }
    result
}

/// What a plot adds to the length of the fence of its region: its sides
/// that need a fence, or its corners where sides are counted.
pub open spec fn fence_part(rows: Seq<Seq<char>>, by_sides: bool, x: int, y: int) -> int {
    if by_sides {
        corner_count(rows, x, y)
    } else {
        fences(rows, x, y)
    }
}

/// The length of the fence of the marked plots before column `x` of row
/// `y` and of the rows above. `None` if it leaves the range of `i64`.
pub open spec fn fence_before(
    rows: Seq<Seq<char>>,
    mask: Seq<Seq<bool>>,
    by_sides: bool,
    x: int,
    y: int,
) -> Option<int>
    decreases y, x,
{
    if y < 0 || (y == 0 && x <= 0) {
        Some(0)
    } else if x <= 0 {
        fence_before(rows, mask, by_sides, width_of(rows), y - 1)
    } else {
        let before = fence_before(rows, mask, by_sides, x - 1, y);
        if mask[y][x - 1] {
            add_within(before, Some(fence_part(rows, by_sides, x - 1, y)))
        } else {
            before
        }
    }
}

/// The price of the fence of a region: its area times the length of its
/// fence, or times the number of its sides. `None` if it leaves the range
/// of `i64`.
pub open spec fn price(rows: Seq<Seq<char>>, mask: Seq<Seq<bool>>, by_sides: bool) -> Option<int> {
    mul_within(
        Some(coords_holding(mask, true).len() as int),
        fence_before(rows, mask, by_sides, 0, rows.len() as int),
    )
}

/// Measures the fence of a region.
pub fn measure_fence(map: &Garden, region: &Board<bool>, by_sides: bool) -> (r: Option<i64>)
    requires
        is_garden(rows_view(map@)),
        region.wf(),
        same_shape(region@, rows_view(map@)),
    ensures
        known(r) == fence_before(rows_view(map@), region@, by_sides, 0, map@.len() as int),
{
    let ghost rows = rows_view(map@);
    let h = region.height();
    let w = region.width();
    let mut total: Option<i64> = Some(0);
    let mut y: usize = 0;
    while y < h
        invariant
            rows == rows_view(map@),
            is_garden(rows),
            region.wf(),
            same_shape(region@, rows),
            h == rows.len(),
            w == width_of(rows),
            y <= h,
            known(total) == fence_before(rows, region@, by_sides, 0, y as int),
        decreases h - y,
    {
        let mut x: usize = 0;
        while x < w
            invariant
                rows == rows_view(map@),
                is_garden(rows),
                region.wf(),
                same_shape(region@, rows),
                h == rows.len(),
                w == width_of(rows),
                y < h,
                x <= w,
                known(total) == fence_before(rows, region@, by_sides, x as int, y as int) || (x == 0
                    && known(total) == fence_before(rows, region@, by_sides, 0, y as int)),
            decreases w - x,
        {
            assert(known(total) == fence_before(rows, region@, by_sides, x as int, y as int));
            if region.at(Xy::new(x as i64, y as i64)) {
                let part: i64 = if by_sides {
                    corners(map, (x as i32, y as i32)) as i64
                } else {
                    count_fences(map, x, y)
                };
                total = add_checked(total, Some(part));
            }
            x += 1;
        }
        y += 1;
    }
    total
}

pub fn score_region(map: &Garden, region: &Board<bool>) -> (r: Option<i64>)
    requires
        is_garden(rows_view(map@)),
        region.wf(),
        same_shape(region@, rows_view(map@)),
        coords_holding(region@, true).len() <= i64::MAX,
    ensures
        known(r) == price(rows_view(map@), region@, false),
{
    let size = region.count(true);
    mul_checked(Some(size as i64), measure_fence(map, region, false))
}

/// The number of sides of a region, which is the number of its corners.
pub fn count_sides(map: &Garden, region: &Board<bool>) -> (r: Option<i64>)
    requires
        is_garden(rows_view(map@)),
        region.wf(),
        same_shape(region@, rows_view(map@)),
    ensures
        known(r) == fence_before(rows_view(map@), region@, true, 0, map@.len() as int),
{
    measure_fence(map, region, true)
}

pub fn score_region_b(map: &Garden, region: &Board<bool>) -> (r: Option<i64>)
    requires
        is_garden(rows_view(map@)),
        region.wf(),
        same_shape(region@, rows_view(map@)),
        coords_holding(region@, true).len() <= i64::MAX,
    ensures
        known(r) == price(rows_view(map@), region@, true),
{
    let size = region.count(true);
    mul_checked(Some(size as i64), count_sides(map, region))
}

/// The sum of the prices of the first `n` regions.
pub open spec fn price_sum(rows: Seq<Seq<char>>, regions: Seq<Seq<Seq<bool>>>, by_sides: bool, n: int) -> Option<
    int,
>
    decreases n,
{
    if n <= 0 {
        Some(0)
    } else {
        add_within(
            price_sum(rows, regions, by_sides, n - 1),
            price(rows, regions[n - 1], by_sides),
        )
    }
}

/// The price of all fences of the garden that lines of text show. `None`
/// if the lines show no garden or a number leaves the range of `i64`.
pub open spec fn answer_for(lines: Seq<Seq<char>>, by_sides: bool) -> Option<int> {
    if is_garden(lines) {
        price_sum(lines, regions_of(lines), by_sides, regions_of(lines).len() as int)
    } else {
        None
    }
}

/// Prices all fences of a garden.
pub fn price_garden(map: &Garden, by_sides: bool) -> (r: Option<i64>)
    ensures
        known(r) == answer_for(rows_view(map@), by_sides),
{
    if !check_garden(map) {
        return None;
    }
    let ghost rows = rows_view(map@);
    let regions = make_regions(map);
    let ghost masks = masks_view(regions@);
    let mut total: Option<i64> = Some(0);
    let mut n: usize = 0;
    while n < regions.len()
        invariant
            rows == rows_view(map@),
            is_garden(rows),
            masks == masks_view(regions@),
            masks == regions_of(rows),
            forall|i: int|
                0 <= i < regions@.len() ==> (#[trigger] regions@[i]).wf() && same_shape(
                    regions@[i]@,
                    rows,
                ),
            n <= regions@.len(),
            known(total) == price_sum(rows, masks, by_sides, n as int),
        decreases regions@.len() - n,
    {
        let region = &regions[n];
        assert(masks[n as int] == region@);
        proof {
            lemma_holding_grows(region@, region@, true);
            assert(rows.len() * width_of(rows) <= i64::MAX) by (nonlinear_arith)
                requires
                    rows.len() <= 0x7fff_ffff,
                    width_of(rows) <= 0x7fff_ffff,
                    0 <= width_of(rows),
            ;
        }
        let one = if by_sides {
            score_region_b(map, region)
        } else {
            score_region(map, region)
        };
        total = add_checked(total, one);
        n += 1;
    }
    total
}

/// Whether `r` is the answer to the first part for the puzzle text.
pub open spec fn is_solution_a(text: Seq<char>, r: Option<i64>) -> bool {
    known(r) == answer_for(lines_of(text), false)
}

/// Whether `r` is the answer to the second part for the puzzle text.
pub open spec fn is_solution_b(text: Seq<char>, r: Option<i64>) -> bool {
    known(r) == answer_for(lines_of(text), true)
}

pub fn day12(input: &str) -> (r: Option<i64>)
    ensures
        is_solution_a(input@, r),
{
    let map = make_map(&split_lines(input));
    price_garden(&map, false)
}

pub fn day12b(input: &str) -> (r: Option<i64>)
    ensures
        is_solution_b(input@, r),
{
    let map = make_map(&split_lines(input));
    price_garden(&map, true)
}

} // verus!
