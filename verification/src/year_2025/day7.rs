//! A beam enters a grid at the start cell and runs downward. A splitter
//! stops the beam above it and sends one beam down on either side. The
//! puzzle asks how many splitters are hit, and in how many ways a particle
//! can reach the bottom row.

use crate::common::grid_board;
use crate::common::grid_board::{
    coords_holding, covers, decodable, fits_within, lemma_fits_within, match_rows, matches_at,
    on_board, pattern_rows, rectangular, same_shape, stamped, strict_rows, width_of, written,
    Glyph, Matchable, Xy,
};
use crate::common::text::{lines_of, split_lines};
use vstd::prelude::*;

verus! {

#[derive(Debug, Clone, Copy, PartialEq, Eq, Structural)]
pub enum Cell {
    Empty,
    Start,
    Splitter,
    Beam,
}

impl Glyph for Cell {
    open spec fn decode(c: char) -> Option<Cell> {
        if c == '.' {
            Some(Cell::Empty)
        } else if c == 'S' {
            Some(Cell::Start)
        } else if c == '^' {
            Some(Cell::Splitter)
        } else if c == '|' {
            Some(Cell::Beam)
        } else {
            None
        }
    }

    open spec fn encode(self) -> char {
        match self {
            Cell::Empty => '.',
            Cell::Start => 'S',
            Cell::Splitter => '^',
            Cell::Beam => '|',
        }
    }

    fn from_glyph(c: char) -> (r: Option<Cell>) {
        match c {
            '.' => Some(Cell::Empty),
            'S' => Some(Cell::Start),
            '^' => Some(Cell::Splitter),
            '|' => Some(Cell::Beam),
            _ => None,
        }
    }

    fn to_glyph(self) -> (c: char) {
        match self {
            Cell::Empty => '.',
            Cell::Start => 'S',
            Cell::Splitter => '^',
            Cell::Beam => '|',
        }
    }
}

impl Matchable for Cell {
    fn same(&self, other: &Self) -> (r: bool) {
        *self == *other
    }
}

pub type Board = grid_board::Board<Cell>;

pub type Pattern = grid_board::Board<Option<Cell>>;

/// A start cell above an empty cell.
pub open spec fn start_kernel() -> Seq<Seq<Option<Cell>>> {
    seq![seq![Some(Cell::Start)], seq![Some(Cell::Empty)]]
}

/// The start cell with a beam below it.
pub open spec fn start_result() -> Seq<Seq<Option<Cell>>> {
    seq![seq![Some(Cell::Start)], seq![Some(Cell::Beam)]]
}

/// A beam above a splitter, with anything on either side.
pub open spec fn split_kernel() -> Seq<Seq<Option<Cell>>> {
    seq![seq![None, Some(Cell::Beam), None], seq![None, Some(Cell::Splitter), None]]
}

/// A beam above a splitter, and a beam on either side of the splitter.
pub open spec fn split_result() -> Seq<Seq<Option<Cell>>> {
    seq![
        seq![None, Some(Cell::Beam), None],
        seq![Some(Cell::Beam), Some(Cell::Splitter), Some(Cell::Beam)],
    ]
}

/// A beam above an empty cell.
pub open spec fn extend_kernel() -> Seq<Seq<Option<Cell>>> {
    seq![seq![Some(Cell::Beam)], seq![Some(Cell::Empty)]]
}

/// A beam above a beam.
pub open spec fn extend_result() -> Seq<Seq<Option<Cell>>> {
    seq![seq![Some(Cell::Beam)], seq![Some(Cell::Beam)]]
}

/// A beam above a splitter.
pub open spec fn beam_on_splitter() -> Seq<Seq<Option<Cell>>> {
    seq![seq![Some(Cell::Beam)], seq![Some(Cell::Splitter)]]
}

/// The pattern of two lines of equal length.
fn pattern_of(top: &'static str, bottom: &'static str) -> (r: Pattern)
    requires
        top@.len() == bottom@.len() <= 3,
    ensures
        r.wf(),
        r@ == pattern_rows::<Cell>(seq![top@, bottom@]),
{
    let strs: Vec<&str> = vec![top, bottom];
    assert(strs.deep_view() =~= seq![top@, bottom@]);
    assert(2 * top@.len() <= usize::MAX);
    grid_board::Board::<Cell>::opt_from_strs(&strs)
}

/// Whether `after` is `before` with the replacement laid wherever the
/// template matches.
pub open spec fn rewritten(
    before: Seq<Seq<Cell>>,
    template: Seq<Seq<Option<Cell>>>,
    replacement: Seq<Seq<Option<Cell>>>,
    after: Seq<Seq<Cell>>,
) -> bool {
    stamped(before, replacement, match_rows(before, template), after)
}

/// Whether `after` comes from `before` by one step of the beams: the start
/// sends a beam down, then every splitter under a beam sends beams to its
/// sides, then every beam above an empty cell grows into it.
pub open spec fn one_pass(before: Seq<Seq<Cell>>, after: Seq<Seq<Cell>>) -> bool {
    exists|first: Seq<Seq<Cell>>, second: Seq<Seq<Cell>>|
        {
            &&& #[trigger] rewritten(before, start_kernel(), start_result(), first)
            &&& #[trigger] rewritten(first, split_kernel(), split_result(), second)
            &&& rewritten(second, extend_kernel(), extend_result(), after)
        }
}

/// Whether every cell of `after` holds what it holds in `before` or a
/// beam.
pub open spec fn only_beams_added(before: Seq<Seq<Cell>>, after: Seq<Seq<Cell>>) -> bool {
    forall|x: int, y: int|
        on_board(before, x, y) ==> #[trigger] after[y][x] == before[y][x] || after[y][x] == Cell::Beam
}

/// Whether a replacement writes nothing but beams and what its template
/// asks for at the same place.
pub open spec fn adds_beams_only(
    template: Seq<Seq<Option<Cell>>>,
    replacement: Seq<Seq<Option<Cell>>>,
) -> bool {
    forall|i: int, j: int|
        on_board(replacement, i, j) ==> ((#[trigger] replacement[j][i]) matches Some(v) ==> v
            == Cell::Beam || template[j][i] == Some(v))
}

/// A rewriting whose replacement writes nothing but beams and what its
/// template asks for leaves every cell as it is or turns it into a beam.
pub proof fn lemma_rewriting_adds_beams(
    before: Seq<Seq<Cell>>,
    template: Seq<Seq<Option<Cell>>>,
    replacement: Seq<Seq<Option<Cell>>>,
    after: Seq<Seq<Cell>>,
)
    requires
        rectangular(before),
        rectangular(template),
        rectangular(replacement),
        same_shape(replacement, template),
        fits_within(template, before),
        rewritten(before, template, replacement, after),
        adds_beams_only(template, replacement),
    ensures
        only_beams_added(before, after),
{
    let locs = match_rows(before, template);
    assert forall|cx: int, cy: int| on_board(before, cx, cy) implies #[trigger] after[cy][cx]
        == before[cy][cx] || after[cy][cx] == Cell::Beam by {
        let v = after[cy][cx];
        if written(replacement, locs, cx, cy, v) {
            let (x, y) = choose|x: int, y: int| #[trigger] covers(replacement, locs, x, y, cx, cy, v);
            let (i, j) = (cx - x, cy - y);
            assert(on_board(replacement, i, j));
            assert(replacement[j][i] == Some(v));
            assert(locs[y][x] == matches_at(before, template, x, y));
            if v != Cell::Beam {
                assert(on_board(template, i, j));
                assert(template[j][i] == Some(v));
            }
        }
    }
}

/// Adding beams only, twice over, adds beams only.
pub proof fn lemma_only_beams_added_twice(
    a: Seq<Seq<Cell>>,
    b: Seq<Seq<Cell>>,
    c: Seq<Seq<Cell>>,
)
    requires
        same_shape(a, b),
        only_beams_added(a, b),
        only_beams_added(b, c),
    ensures
        only_beams_added(a, c),
{
    assert forall|x: int, y: int| on_board(a, x, y) implies #[trigger] c[y][x] == a[y][x] || c[y][x]
        == Cell::Beam by {
        assert(on_board(b, x, y));
        assert(b[y][x] == a[y][x] || b[y][x] == Cell::Beam);
    }
}

/// One step of the beams.
pub fn iterate(board: &Board) -> (r: Board)
    requires
        board.wf(),
        width_of(board@) >= 3,
        board@.len() >= 2,
    ensures
        r.wf(),
        same_shape(r@, board@),
        one_pass(board@, r@),
        only_beams_added(board@, r@),
{
    proof {
        reveal_strlit("S");
        reveal_strlit(".");
        reveal_strlit("|");
        reveal_strlit("_|_");
        reveal_strlit("_^_");
        reveal_strlit("|^|");
    }
    let start_k = pattern_of("S", ".");
    let start_r = pattern_of("S", "|");
    let split_k = pattern_of("_|_", "_^_");
    let split_r = pattern_of("_|_", "|^|");
    let extend_k = pattern_of("|", ".");
    let extend_r = pattern_of("|", "|");
    proof {
        assert(start_k@[0] =~= start_kernel()[0] && start_k@[1] =~= start_kernel()[1]);
        assert(start_r@[0] =~= start_result()[0] && start_r@[1] =~= start_result()[1]);
        assert(split_k@[0] =~= split_kernel()[0] && split_k@[1] =~= split_kernel()[1]);
        assert(split_r@[0] =~= split_result()[0] && split_r@[1] =~= split_result()[1]);
        assert(extend_k@[0] =~= extend_kernel()[0] && extend_k@[1] =~= extend_kernel()[1]);
        assert(extend_r@[0] =~= extend_result()[0] && extend_r@[1] =~= extend_result()[1]);
        assert(start_k@ =~= start_kernel());
        assert(start_r@ =~= start_result());
        assert(split_k@ =~= split_kernel());
        assert(split_r@ =~= split_result());
        assert(extend_k@ =~= extend_kernel());
        assert(extend_r@ =~= extend_result());
        lemma_fits_within(start_k@, board@);
    }
    let first = board.transform(&start_k, &start_r);
    proof {
        lemma_fits_within(split_k@, first@);
        lemma_rewriting_adds_beams(board@, start_k@, start_r@, first@);
    }
    let second = first.transform(&split_k, &split_r);
    proof {
        lemma_fits_within(extend_k@, second@);
        lemma_rewriting_adds_beams(first@, split_k@, split_r@, second@);
    }
    let third = second.transform(&extend_k, &extend_r);
    proof {
        lemma_rewriting_adds_beams(second@, extend_k@, extend_r@, third@);
        lemma_only_beams_added_twice(board@, first@, second@);
        lemma_only_beams_added_twice(board@, second@, third@);
        assert(rewritten(board@, start_kernel(), start_result(), first@));
        assert(rewritten(first@, split_kernel(), split_result(), second@));
    }
    third
}


/// The number of cells that hold a beam.
pub open spec fn beams(rows: Seq<Seq<Cell>>) -> nat {
    coords_holding(rows, Cell::Beam).len()
}

/// A step that adds beams only and changes the board adds a beam.
pub proof fn lemma_step_adds_a_beam(before: Seq<Seq<Cell>>, after: Seq<Seq<Cell>>)
    requires
        rectangular(before),
        rectangular(after),
        same_shape(before, after),
        only_beams_added(before, after),
    ensures
        beams(before) <= beams(after) <= before.len() * width_of(before),
        after != before ==> beams(before) < beams(after),
{
    grid_board::lemma_holding_grows(before, after, Cell::Beam);
}

/// Whether each board of the run comes from the one before it by one step
/// of the beams.
pub open spec fn is_run(run: Seq<Seq<Seq<Cell>>>) -> bool {
    run.len() >= 1 && forall|i: int| 0 <= i < run.len() - 1 ==> one_pass(#[trigger] run[i], run[i + 1])
}

/// Whether `after` comes from `before` by some number of steps.
pub open spec fn reached_from(before: Seq<Seq<Cell>>, after: Seq<Seq<Cell>>) -> bool {
    exists|run: Seq<Seq<Seq<Cell>>>| #[trigger] is_run(run) && run[0] == before && run.last() == after
}

/// Lets the beams run until a step changes nothing more. The result comes
/// from the board by some number of steps, and a further step can leave it
/// as it is.
pub fn iterate_until_stable(board: &Board) -> (r: Board)
    requires
        board.wf(),
        width_of(board@) >= 3,
        board@.len() >= 2,
    ensures
        r.wf(),
        same_shape(r@, board@),
        reached_from(board@, r@),
        one_pass(r@, r@),
        only_beams_added(board@, r@),
{
    let mut current: Board = board.clone();
    let ghost start = board@;
    let ghost mut run: Seq<Seq<Seq<Cell>>> = seq![start];
    proof {
        lemma_step_adds_a_beam(start, start);
    }
    loop
        invariant
            current.wf(),
            start == board@,
            rectangular(start),
            same_shape(current@, start),
            width_of(start) >= 3,
            start.len() >= 2,
            is_run(run),
            run[0] == start,
            run.last() == current@,
            only_beams_added(start, current@),
            beams(current@) <= start.len() * width_of(start),
        decreases start.len() * width_of(start) - beams(current@),
    {
        let new_board = iterate(&current);
        proof {
            lemma_step_adds_a_beam(current@, new_board@);
            lemma_only_beams_added_twice(start, current@, new_board@);
        }
        if new_board.same_as(&current) {
            return new_board;
        }
        proof {
            let longer = run.push(new_board@);
            assert forall|i: int| 0 <= i < longer.len() - 1 implies one_pass(
                #[trigger] longer[i],
                longer[i + 1],
            ) by {
                if i < run.len() - 1 {
                    assert(one_pass(run[i], run[i + 1]));
                }
            }
            run = longer;
        }
        current = new_board;
    }
}


/// The counts with `by` added to the one at column `x`, row `y`. `None` if
/// that place is off the board or the sum leaves the range of `usize`.
pub open spec fn bumped(counts: Seq<Seq<usize>>, x: int, y: int, by: int) -> Option<Seq<Seq<usize>>> {
    if on_board(counts, x, y) && counts[y][x] + by <= usize::MAX {
        Some(counts.update(y, counts[y].update(x, (counts[y][x] + by) as usize)))
    } else {
        None
    }
}

/// What a cell does to the counts of its own row: the start holds one
/// timeline, and a splitter hands the timelines that reach it to both of
/// its neighbours.
pub open spec fn spread_cell(counts: Seq<Seq<usize>>, cell: Cell, x: int, y: int) -> Option<
    Seq<Seq<usize>>,
> {
    match cell {
        Cell::Start => Some(counts.update(y, counts[y].update(x, 1usize))),
        Cell::Splitter => match bumped(counts, x - 1, y, counts[y][x] as int) {
            Some(left) => bumped(left, x + 1, y, counts[y][x] as int),
            None => None,
        },
        _ => Some(counts),
    }
}

/// The counts after the first `n` cells of row `y` have spread theirs,
/// from the left.
pub open spec fn spread_row(counts: Seq<Seq<usize>>, row: Seq<Cell>, y: int, n: int) -> Option<
    Seq<Seq<usize>>,
>
    decreases n,
{
    if n <= 0 {
        Some(counts)
    } else {
        match spread_row(counts, row, y, n - 1) {
            Some(before) => spread_cell(before, row[n - 1], n - 1, y),
            None => None,
        }
    }
}

/// What a cell does to the counts of the row below: a beam and the start
/// hand their timelines down, if there is a row below.
pub open spec fn fall_cell(counts: Seq<Seq<usize>>, cell: Cell, x: int, y: int) -> Option<
    Seq<Seq<usize>>,
> {
    if (cell == Cell::Beam || cell == Cell::Start) && y + 1 < counts.len() {
        bumped(counts, x, y + 1, counts[y][x] as int)
    } else {
        Some(counts)
    }
}

/// The counts after the first `n` cells of row `y` have handed theirs
/// down.
pub open spec fn fall_row(counts: Seq<Seq<usize>>, row: Seq<Cell>, y: int, n: int) -> Option<
    Seq<Seq<usize>>,
>
    decreases n,
{
    if n <= 0 {
        Some(counts)
    } else {
        match fall_row(counts, row, y, n - 1) {
            Some(before) => fall_cell(before, row[n - 1], n - 1, y),
            None => None,
        }
    }
}

/// A board of the given shape with every count at zero.
pub open spec fn no_counts(h: int, w: int) -> Seq<Seq<usize>> {
    Seq::new(h as nat, |y: int| Seq::new(w as nat, |x: int| 0usize))
}

/// The counts of timelines after the first `n` rows: each row first
/// spreads its counts sideways and then hands them down.
pub open spec fn counts_after(board: Seq<Seq<Cell>>, n: int) -> Option<Seq<Seq<usize>>>
    decreases n,
{
    if n <= 0 {
        Some(no_counts(board.len() as int, width_of(board)))
    } else {
        match counts_after(board, n - 1) {
            Some(before) => match spread_row(before, board[n - 1], n - 1, width_of(board)) {
                Some(spread) => fall_row(spread, board[n - 1], n - 1, width_of(board)),
                None => None,
            },
            None => None,
        }
    }
}

/// The sum of the counts. `None` if it leaves the range of `usize`.
pub open spec fn checked_sum(counts: Seq<usize>) -> Option<int>
    decreases counts.len(),
{
    if counts.len() == 0 {
        Some(0)
    } else {
        match checked_sum(counts.drop_last()) {
            Some(before) => if before + counts.last() <= usize::MAX {
                Some(before + counts.last())
            } else {
                None
            },
            None => None,
        }
    }
}

/// The number of timelines that reach the bottom row.
pub open spec fn timelines(board: Seq<Seq<Cell>>) -> Option<int> {
    match counts_after(board, board.len() as int) {
        Some(counts) => checked_sum(counts[board.len() - 1]),
        None => None,
    }
}

/// The number of splitters that have a beam above them.
pub open spec fn splits(board: Seq<Seq<Cell>>) -> nat {
    coords_holding(match_rows(board, beam_on_splitter()), true).len()
}

pub proof fn lemma_spread_stays_lost(counts: Seq<Seq<usize>>, row: Seq<Cell>, y: int, n: int, m: int)
    requires
        0 <= n <= m,
        spread_row(counts, row, y, n) is None,
    ensures
        spread_row(counts, row, y, m) is None,
    decreases m - n,
{
    if n < m {
        lemma_spread_stays_lost(counts, row, y, n, m - 1);
    }
}

pub proof fn lemma_fall_stays_lost(counts: Seq<Seq<usize>>, row: Seq<Cell>, y: int, n: int, m: int)
    requires
        0 <= n <= m,
        fall_row(counts, row, y, n) is None,
    ensures
        fall_row(counts, row, y, m) is None,
    decreases m - n,
{
    if n < m {
        lemma_fall_stays_lost(counts, row, y, n, m - 1);
    }
}

pub proof fn lemma_counts_stay_lost(board: Seq<Seq<Cell>>, n: int, m: int)
    requires
        0 <= n <= m,
        counts_after(board, n) is None,
    ensures
        counts_after(board, m) is None,
    decreases m - n,
{
    if n < m {
        lemma_counts_stay_lost(board, n, m - 1);
    }
}

pub proof fn lemma_sum_stays_lost(counts: Seq<usize>, n: int)
    requires
        0 <= n <= counts.len(),
        checked_sum(counts.take(n)) is None,
    ensures
        checked_sum(counts) is None,
    decreases counts.len() - n,
{
    if n < counts.len() {
        assert(counts.take(n + 1).drop_last() =~= counts.take(n));
        lemma_sum_stays_lost(counts, n + 1);
    } else {
        assert(counts.take(n) =~= counts);
    }
}

/// Adds `by` to the count at column `x`, row `y`, where that is possible.
fn bump(counts: &mut grid_board::Board<usize>, x: i64, y: i64, by: usize) -> (done: bool)
    requires
        old(counts).wf(),
    ensures
        final(counts).wf(),
        same_shape(final(counts)@, old(counts)@),
        match bumped(old(counts)@, x as int, y as int, by as int) {
            Some(after) => done && final(counts)@ == after,
            None => !done && final(counts)@ == old(counts)@,
        },
{
    let xy = Xy::new(x, y);
    match counts.maybe_at(xy) {
        Some(count) => match count.checked_add(by) {
            Some(sum) => {
                counts.set_at(xy, sum);
                true
            },
            None => false,
        },
        None => false,
    }
}

/// Counts the timelines that reach the bottom row of a board on which the
/// beams have been drawn.
pub fn count_timelines(board: &Board) -> (r: Option<usize>)
    requires
        board.wf(),
    ensures
        match timelines(board@) {
            Some(total) => r is Some && r->0 == total,
            None => r is None,
        },
{
    let h = board.height();
    let w = board.width();
    let mut timeline_counts: grid_board::Board<usize> = grid_board::Board::new(h, w, 0);
    proof {
        let zero = no_counts(h as int, w as int);
        assert forall|j: int| 0 <= j < h implies #[trigger] timeline_counts@[j] == zero[j] by {
            assert(timeline_counts@[j].len() == w);
            assert forall|i: int| 0 <= i < w implies timeline_counts@[j][i] == zero[j][i] by {
                assert(on_board(timeline_counts@, i, j));
            }
            assert(timeline_counts@[j] =~= zero[j]);
        }
        assert(timeline_counts@ =~= zero);
    }
    let mut y: usize = 0;
    while y < h
        invariant
            board.wf(),
            timeline_counts.wf(),
            same_shape(timeline_counts@, board@),
            h == board@.len(),
            w == width_of(board@),
            y <= h,
            counts_after(board@, y as int) == Some(timeline_counts@),
        decreases h - y,
    {
        let row = board.row(y);
        let ghost before = timeline_counts@;
        let mut x: usize = 0;
        while x < w
            invariant
                board.wf(),
                timeline_counts.wf(),
                same_shape(timeline_counts@, board@),
                h == board@.len(),
                w == width_of(board@),
                y < h,
                x <= w,
                row@ == board@[y as int],
                counts_after(board@, y as int) == Some(before),
                spread_row(before, row@, y as int, x as int) == Some(timeline_counts@),
            decreases w - x,
        {
            let xy = Xy::new(x as i64, y as i64);
            let count = timeline_counts.at(xy);
            let spread = match row[x] {
                Cell::Start => {
                    timeline_counts.set_at(xy, 1);
                    true
                },
                Cell::Splitter => {
                    bump(&mut timeline_counts, x as i64 - 1, y as i64, count) && bump(
                        &mut timeline_counts,
                        x as i64 + 1,
                        y as i64,
                        count,
                    )
                },
                _ => true,
            };
            if !spread {
                proof {
                    lemma_spread_stays_lost(before, row@, y as int, x as int + 1, w as int);
                    assert(counts_after(board@, y as int + 1 - 1) == Some(before));
                    assert(counts_after(board@, y as int + 1) is None);
                    lemma_counts_stay_lost(board@, y as int + 1, h as int);
                }
                return None;
            }
            x += 1;
        }
        let ghost spread = timeline_counts@;
        let mut x: usize = 0;
        while x < w
            invariant
                board.wf(),
                timeline_counts.wf(),
                same_shape(timeline_counts@, board@),
                h == board@.len(),
                w == width_of(board@),
                y < h,
                x <= w,
                row@ == board@[y as int],
                counts_after(board@, y as int) == Some(before),
                spread_row(before, row@, y as int, w as int) == Some(spread),
                fall_row(spread, row@, y as int, x as int) == Some(timeline_counts@),
            decreases w - x,
        {
            let xy = Xy::new(x as i64, y as i64);
            let count = timeline_counts.at(xy);
            let fell = match row[x] {
                Cell::Beam | Cell::Start => {
                    if y + 1 < h {
                        bump(&mut timeline_counts, x as i64, y as i64 + 1, count)
                    } else {
                        true
                    }
                },
                _ => true,
            };
            if !fell {
                proof {
                    lemma_fall_stays_lost(spread, row@, y as int, x as int + 1, w as int);
                    assert(counts_after(board@, y as int + 1 - 1) == Some(before));
                    assert(counts_after(board@, y as int + 1) is None);
                    lemma_counts_stay_lost(board@, y as int + 1, h as int);
                }
                return None;
            }
            x += 1;
        }
        assert(counts_after(board@, y as int + 1 - 1) == Some(before));
        y += 1;
    }
    let last = timeline_counts.row(h - 1);
    let mut total: usize = 0;
    let mut x: usize = 0;
    assert(last@.take(0) =~= Seq::<usize>::empty());
    assert(timelines(board@) == checked_sum(last@));
    while x < last.len()
        invariant
            x <= last@.len(),
            timelines(board@) == checked_sum(last@),
            checked_sum(last@.take(x as int)) == Some(total as int),
        decreases last@.len() - x,
    {
        assert(last@.take(x as int + 1).drop_last() =~= last@.take(x as int));
        assert(last@.take(x as int + 1).last() == last@[x as int]);
        match total.checked_add(last[x]) {
            Some(sum) => {
                total = sum;
            },
            None => {
                proof {
                    lemma_sum_stays_lost(last@, x as int + 1);
                }
                return None;
            },
        }
        x += 1;
    }
    assert(last@.take(last@.len() as int) =~= last@);
    Some(total)
}

/// Whether `settled` is what the beams make of `board` once they have come
/// to rest.
pub open spec fn settles_to(board: Seq<Seq<Cell>>, settled: Seq<Seq<Cell>>) -> bool {
    &&& rectangular(settled)
    &&& same_shape(settled, board)
    &&& reached_from(board, settled)
    &&& one_pass(settled, settled)
}

/// The two answers read off a board on which the beams have come to rest.
/// `None` if a count leaves its range.
pub open spec fn answer_on(settled: Seq<Seq<Cell>>) -> Option<(int, int)> {
    match timelines(settled) {
        Some(total) => if splits(settled) <= i64::MAX && total <= i64::MAX {
            Some((splits(settled) as int, total))
        } else {
            None
        },
        None => None,
    }
}

/// Whether a result gives the answers for some board that the beams
/// settle to.
pub open spec fn solves(board: Seq<Seq<Cell>>, r: Option<(i64, i64)>) -> bool {
    exists|settled: Seq<Seq<Cell>>| #[trigger]
        settles_to(board, settled) && match answer_on(settled) {
            Some((a, b)) => r is Some && (r->0).0 == a && (r->0).1 == b,
            None => r is None,
        }
}

/// Lets the beams run on a board of at least three columns and two rows
/// and reads off both answers.
pub fn solve(board: &Board) -> (r: Option<(i64, i64)>)
    requires
        board.wf(),
        width_of(board@) >= 3,
        board@.len() >= 2,
    ensures
        solves(board@, r),
{
    let settled = iterate_until_stable(board);
    proof {
        reveal_strlit("|");
        reveal_strlit("^");
    }
    let on_splitter = pattern_of("|", "^");
    proof {
        assert(on_splitter@[0] =~= beam_on_splitter()[0] && on_splitter@[1] =~= beam_on_splitter()[1]);
        assert(on_splitter@ =~= beam_on_splitter());
        lemma_fits_within(on_splitter@, settled@);
    }
    let hit = settled.scan(&on_splitter).count(true);
    let r = match count_timelines(&settled) {
        Some(total) => {
            if hit as u64 > i64::MAX as u64 || total as u64 > i64::MAX as u64 {
                None
            } else {
                Some((hit as i64, total as i64))
            }
        },
        None => None,
    };
    assert(settles_to(board@, settled@));
    r
}

/// The board written in the puzzle text, if the text is a rectangle of at
/// least three columns and two rows that holds only cells.
pub open spec fn board_of(text: Seq<char>) -> Option<Seq<Seq<Cell>>> {
    let lines = lines_of(text);
    if rectangular(lines) && decodable::<Cell>(lines) && width_of(lines) >= 3 && lines.len() >= 2 {
        Some(strict_rows::<Cell>(lines))
    } else {
        None
    }
}

/// Reads the board of the puzzle text.
pub fn read_input(input: &str) -> (r: Option<Board>)
    ensures
        match board_of(input@) {
            Some(rows) => r is Some && r->0.wf() && r->0@ == rows,
            None => r is None,
        },
{
    match grid_board::Board::<Cell>::try_from_strings(&split_lines(input)) {
        Some(board) => if board.width() >= 3 && board.height() >= 2 {
            Some(board)
        } else {
            None
        },
        None => None,
    }
}

/// Solves both parts. `None` if the text is no board or a count leaves
/// its range.
pub fn solutions(input: &str) -> (r: Option<(i64, i64)>)
    ensures
        match board_of(input@) {
            Some(board) => solves(board, r),
            None => r is None,
        },
{
    match read_input(input) {
        Some(board) => solve(&board),
        None => None,
    }
}

/// Whether a result gives the first answer for some board that the beams
/// settle to.
pub open spec fn solves_first(board: Seq<Seq<Cell>>, r: Option<i64>) -> bool {
    exists|settled: Seq<Seq<Cell>>| #[trigger]
        settles_to(board, settled) && match answer_on(settled) {
            Some((a, _)) => r is Some && r->0 == a,
            None => r is None,
        }
}

/// Whether a result gives the second answer for some board that the beams
/// settle to.
pub open spec fn solves_second(board: Seq<Seq<Cell>>, r: Option<i64>) -> bool {
    exists|settled: Seq<Seq<Cell>>| #[trigger]
        settles_to(board, settled) && match answer_on(settled) {
            Some((_, b)) => r is Some && r->0 == b,
            None => r is None,
        }
}

/// Whether `r` is the answer to the first part for the puzzle text.
pub open spec fn is_solution_a(text: Seq<char>, r: Option<i64>) -> bool {
    match board_of(text) {
        Some(board) => solves_first(board, r),
        None => r is None,
    }
}

pub fn solution_a(input: &str) -> (r: Option<i64>)
    ensures
        is_solution_a(input@, r),
{
    let both = solutions(input);
    let r = match both {
        Some((a, _)) => Some(a),
        None => None,
    };
    proof {
        if board_of(input@) is Some {
            let board = board_of(input@)->0;
            let settled = choose|settled: Seq<Seq<Cell>>| #[trigger]
                settles_to(board, settled) && match answer_on(settled) {
                    Some((a, b)) => both is Some && (both->0).0 == a && (both->0).1 == b,
                    None => both is None,
                };
            assert(settles_to(board, settled));
        }
    }
    r
}

/// Whether `r` is the answer to the second part for the puzzle text.
pub open spec fn is_solution_b(text: Seq<char>, r: Option<i64>) -> bool {
    match board_of(text) {
        Some(board) => solves_second(board, r),
        None => r is None,
    }
}

pub fn solution_b(input: &str) -> (r: Option<i64>)
    ensures
        is_solution_b(input@, r),
{
    let both = solutions(input);
    let r = match both {
        Some((_, b)) => Some(b),
        None => None,
    };
    proof {
        if board_of(input@) is Some {
            let board = board_of(input@)->0;
            let settled = choose|settled: Seq<Seq<Cell>>| #[trigger]
                settles_to(board, settled) && match answer_on(settled) {
                    Some((a, b)) => both is Some && (both->0).0 == a && (both->0).1 == b,
                    None => both is None,
                };
            assert(settles_to(board, settled));
        }
    }
    r
}

} // verus!
