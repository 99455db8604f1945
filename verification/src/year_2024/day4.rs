//! A word search. The puzzle counts a word along rows, columns and
//! diagonals, forward and backward, and then the crosses that two
//! diagonal words make.

use crate::common::parsing::{stride_text, strided};
use crate::common::text::{chars_of, chars_of_all, lines_of, rows_view, split_lines, string_of, strings_of};
use vstd::prelude::*;

verus! {

/// The place of the first line feed of a text.
pub open spec fn first_line_feed(text: Seq<char>) -> Option<int> {
    if exists|i: int| 0 <= i < text.len() && text[i] == '\n' {
        Some(choose|i: int| 0 <= i < text.len() && text[i] == '\n' && forall|k: int| 0 <= k < i ==> text[k] != '\n')
    } else {
        None
    }
}

/// Finds the first line feed of a text.
pub fn find_line_feed(text: &Vec<char>) -> (r: Option<usize>)
    ensures
        match r {
            Some(i) => i < text@.len() && text@[i as int] == '\n' && forall|k: int|
                0 <= k < i ==> text@[k] != '\n',
            None => forall|k: int| 0 <= k < text@.len() ==> text@[k] != '\n',
        },
{
    let mut i: usize = 0;
    while i < text.len()
        invariant
            i <= text@.len(),
            forall|k: int| 0 <= k < i ==> text@[k] != '\n',
        decreases text@.len() - i,
    {
        if text[i] == '\n' {
            return Some(i);
        }
        i += 1;
    }
    None
}

/// The lines along which a grid of width `w`, written as one text with a
/// line feed after each row, is searched, each followed by its reverse:
/// the text itself, then what every `stride`-th character gives from each
/// of `count` starting places.
pub open spec fn strided_lines(text: Seq<char>, stride: int, count: int) -> Seq<Seq<char>>
    decreases count,
{
    if count <= 0 {
        Seq::empty()
    } else {
        let line = strided(text, count - 1, stride);
        strided_lines(text, stride, count - 1).push(line).push(line.reverse())
    }
}

/// All the lines along which the grid is searched: the text itself, the
/// columns, the diagonals to the lower right and the diagonals to the
/// lower left, each followed by its reverse. `None` if the text has no
/// line feed, or a line would start beyond the end of the text.
pub open spec fn search_lines(text: Seq<char>, w: int) -> Option<Seq<Seq<char>>> {
    if w + 1 >= text.len() {
        None
    } else {
        Some(
            seq![text, text.reverse()] + strided_lines(text, w + 1, w) + strided_lines(
                text,
                w + 2,
                w + 2,
            ) + strided_lines(text, w, w),
        )
    }
}

/// The characters in reverse order.
pub fn reversed(line: &Vec<char>) -> (r: Vec<char>)
    ensures
        r@ == line@.reverse(),
{
    let mut out: Vec<char> = Vec::new();
    let mut i: usize = line.len();
    while i > 0
        invariant
            i <= line@.len(),
            out@.len() == line@.len() - i,
            forall|k: int| 0 <= k < out@.len() ==> out@[k] == line@[line@.len() - 1 - k],
        decreases i,
    {
        i -= 1;
        out.push(line[i]);
    }
    assert(out@ =~= line@.reverse());
    out
}

/// Adds to `result` what every `stride`-th character of the text gives
/// from each of the first `count` places, each line followed by its
/// reverse.
fn push_strided(result: &mut Vec<Vec<char>>, input: &str, stride: usize, count: usize)
    requires
        count <= input@.len(),
        count > 0 ==> stride >= 1,
    ensures
        rows_view(final(result)@) == rows_view(old(result)@) + strided_lines(
            input@,
            stride as int,
            count as int,
        ),
{
    let ghost before = rows_view(result@);
    let mut i: usize = 0;
    assert(rows_view(result@) =~= before + strided_lines(input@, stride as int, 0));
    while i < count
        invariant
            i <= count <= input@.len(),
            count > 0 ==> stride >= 1,
            rows_view(result@) == before + strided_lines(input@, stride as int, i as int),
        decreases count - i,
    {
        let line = chars_of(stride_text(input, i, stride).as_str());
        let back = reversed(&line);
        let ghost so_far = rows_view(result@);
        result.push(line);
        result.push(back);
        assert(rows_view(result@) =~= so_far.push(line@).push(back@));
        assert(rows_view(result@) =~= before + strided_lines(input@, stride as int, i as int + 1));
        i += 1;
    }
}

/// Lists the lines along which the grid is searched.
pub fn all_search_lines(input: String) -> (r: Option<Vec<String>>)
    ensures
        match first_line_feed(input@) {
            Some(w) => r.deep_view() == search_lines(input@, w),
            None => r is None,
        },
{
    let text = chars_of(input.as_str());
    let w = match find_line_feed(&text) {
        Some(w) => w,
        None => {
            return None;
        },
    };
    assert(first_line_feed(input@) == Some(w as int)) by {
        let chosen = first_line_feed(input@)->0;
        assert(chosen <= w && w <= chosen);
    }
    if w >= text.len() - 1 {
        return None;
    }
    let mut result: Vec<Vec<char>> = Vec::new();
    result.push(text.clone());
    result.push(reversed(&text));
    assert(rows_view(result@) =~= seq![input@, input@.reverse()]);
    push_strided(&mut result, input.as_str(), w + 1, w);
    push_strided(&mut result, input.as_str(), w + 2, w + 2);
    push_strided(&mut result, input.as_str(), w, w);
    Some(strings_of(&result))
}

/// Whether the word stands in the line from place `i` on.
pub open spec fn word_at(line: Seq<char>, word: Seq<char>, i: int) -> bool {
    0 <= i && i + word.len() <= line.len() && line.subrange(i, i + word.len()) == word
}

/// The number of places below `n` from which the word stands in the line.
pub open spec fn count_in_line(line: Seq<char>, word: Seq<char>, n: int) -> int
    decreases n,
{
    if n <= 0 {
        0
    } else {
        count_in_line(line, word, n - 1) + if word_at(line, word, n - 1) {
            1int
        } else {
            0int
        }
    }
}

/// The number of places from which the word stands in the first `n`
/// lines. `None` if the number leaves the range of `i32`.
pub open spec fn count_in_lines(lines: Seq<Seq<char>>, word: Seq<char>, n: int) -> Option<int>
    decreases n,
{
    if n <= 0 {
        Some(0)
    } else {
        match count_in_lines(lines, word, n - 1) {
            Some(before) => {
                let total = before + count_in_line(lines[n - 1], word, lines[n - 1].len() as int);
                if total <= i32::MAX {
                    Some(total)
                } else {
                    None
                }
            },
            None => None,
        }
    }
}

pub proof fn lemma_count_in_line_bounds(line: Seq<char>, word: Seq<char>, n: int)
    ensures
        0 <= count_in_line(line, word, n),
        n >= 0 ==> count_in_line(line, word, n) <= n,
    decreases n,
{
    if n > 0 {
        lemma_count_in_line_bounds(line, word, n - 1);
    }
}

pub proof fn lemma_count_in_lines_stays_lost(lines: Seq<Seq<char>>, word: Seq<char>, n: int, m: int)
    requires
        0 <= n <= m,
        count_in_lines(lines, word, n) is None,
    ensures
        count_in_lines(lines, word, m) is None,
    decreases m - n,
{
    if n < m {
        lemma_count_in_lines_stays_lost(lines, word, n, m - 1);
    }
}

/// Tells whether the word stands in the line from place `i` on.
pub fn has_word_at(line: &Vec<char>, word: &Vec<char>, i: usize) -> (r: bool)
    ensures
        r == word_at(line@, word@, i as int),
{
    if word.len() > line.len() || i > line.len() - word.len() {
        return false;
    }
    let mut k: usize = 0;
    while k < word.len()
        invariant
            i + word@.len() <= line.len(),
            k <= word@.len(),
            forall|j: int| 0 <= j < k ==> line@[i + j] == word@[j],
        decreases word@.len() - k,
    {
        if line[i + k] != word[k] {
            assert(line@.subrange(i as int, i + word@.len())[k as int] != word@[k as int]);
            return false;
        }
        k += 1;
    }
    assert(line@.subrange(i as int, i + word@.len()) =~= word@);
    true
}

/// The number of places from which the word stands in one of the lines.
/// `None` if the word is empty or the number leaves the range of `i32`.
pub open spec fn word_total(lines: Seq<Seq<char>>, word: Seq<char>) -> Option<int> {
    if word.len() == 0 {
        None
    } else {
        count_in_lines(lines, word, lines.len() as int)
    }
}

/// Counts the places from which the word stands in one of the lines.
pub fn count_word_in_lines(input: Vec<String>, target_word: &str) -> (r: Option<i32>)
    ensures
        match word_total(input.deep_view(), target_word@) {
            Some(count) => r is Some && r->0 == count,
            None => r is None,
        },
{
    let ghost lines = input.deep_view();
    let word = chars_of(target_word);
    if word.len() == 0 {
        return None;
    }
    let mut result: i32 = 0;
    let mut n: usize = 0;
    while n < input.len()
        invariant
            lines == input.deep_view(),
            word@ == target_word@,
            word@.len() > 0,
            n <= input@.len(),
            0 <= result,
            count_in_lines(lines, target_word@, n as int) == Some(result as int),
        decreases input@.len() - n,
    {
        let line = chars_of(input[n].as_str());
        assert(lines[n as int] == line@);
        assert(count_in_lines(lines, target_word@, n as int + 1 - 1) == Some(result as int));
        let mut count_in_this: i32 = 0;
        let mut lost = false;
        let mut i: usize = 0;
        while i < line.len()
            invariant
                word@ == target_word@,
                i <= line@.len(),
                0 <= count_in_this,
                !lost ==> count_in_this == count_in_line(line@, word@, i as int),
                lost ==> count_in_line(line@, word@, i as int) > i32::MAX,
            decreases line@.len() - i,
        {
            proof {
                lemma_count_in_line_bounds(line@, word@, i as int);
            }
            if has_word_at(&line, &word, i) {
                if count_in_this == i32::MAX {
                    lost = true;
                } else if !lost {
                    count_in_this += 1;
                }
            }
            i += 1;
        }
        let next = if lost {
            None
        } else {
            result.checked_add(count_in_this)
        };
        match next {
            Some(total) => {
                result = total;
            },
            None => {
                proof {
                    lemma_count_in_line_bounds(line@, word@, line@.len() as int);
                    assert(count_in_lines(lines, target_word@, n as int + 1) is None);
                    lemma_count_in_lines_stays_lost(lines, target_word@, n as int + 1, input@.len() as int);
                }
                return None;
            },
        }
        n += 1;
    }
    Some(result)
}

/// The number of times the word `XMAS` stands along a line of the grid.
pub open spec fn word_count(text: Seq<char>) -> Option<int> {
    match first_line_feed(text) {
        Some(w) => match search_lines(text, w) {
            Some(lines) => word_total(lines, "XMAS"@),
            None => None,
        },
        None => None,
    }
}

/// Whether a result gives a count.
pub open spec fn gives(r: Option<i32>, count: Option<int>) -> bool {
    match count {
        Some(n) => r is Some && r->0 == n,
        None => r is None,
    }
}

pub fn find_words(input: String) -> (r: Option<i32>)
    ensures
        gives(r, word_count(input@)),
{
    match all_search_lines(input) {
        Some(search_lines) => count_word_in_lines(search_lines, "XMAS"),
        None => None,
    }
}

/// Whether `r` is the answer to the first part for the puzzle text.
pub open spec fn is_solution_a(text: Seq<char>, r: Option<i32>) -> bool {
    gives(r, word_count(text))
}

pub fn day4(input: &str) -> (r: Option<i32>)
    ensures
        is_solution_a(input@, r),
{
    find_words(String::from_str(input))
}


/// The block of `h` rows and `w` columns whose upper left corner is at
/// column `x`, row `y`.
pub open spec fn block(rows: Seq<Seq<char>>, x: int, y: int, w: int, h: int) -> Seq<Seq<char>> {
    Seq::new(h as nat, |j: int| rows[y + j].subrange(x, x + w))
}

/// The blocks with their corner in column `x` and in the rows below `n`,
/// from the top.
pub open spec fn column_windows(rows: Seq<Seq<char>>, x: int, w: int, h: int, n: int) -> Seq<
    Seq<Seq<char>>,
> {
    Seq::new(n as nat, |y: int| block(rows, x, y, w, h))
}

/// The blocks with their corner in the columns below `nx`, column by
/// column from the left, `ny` blocks in each column.
pub open spec fn windows_upto(rows: Seq<Seq<char>>, w: int, h: int, ny: int, nx: int) -> Seq<
    Seq<Seq<char>>,
>
    decreases nx,
{
    if nx <= 0 {
        Seq::empty()
    } else {
        windows_upto(rows, w, h, ny, nx - 1) + column_windows(rows, nx - 1, w, h, ny)
    }
}

/// Whether blocks of `h` rows and `w` columns can be cut from the rows:
/// there is a row, the blocks are no larger than the grid, whose width is
/// that of the first row, no row that a block reaches is shorter than the
/// first, and `usize` can count the places of a block in either direction.
pub open spec fn can_cut(rows: Seq<Seq<char>>, w: int, h: int) -> bool {
    &&& rows.len() > 0
    &&& 0 <= w <= rows[0].len()
    &&& 0 <= h <= rows.len()
    &&& rows[0].len() - w + 1 <= usize::MAX
    &&& rows.len() - h + 1 <= usize::MAX
    &&& h > 0 ==> forall|j: int| 0 <= j < rows.len() ==> (#[trigger] rows[j]).len() >= rows[0].len()
}

/// All blocks of `h` rows and `w` columns, column by column from the
/// left, each column from the top.
pub open spec fn windows(rows: Seq<Seq<char>>, w: int, h: int) -> Option<Seq<Seq<Seq<char>>>> {
    if can_cut(rows, w, h) {
        Some(windows_upto(rows, w, h, rows.len() - h + 1, rows[0].len() - w + 1))
    } else {
        None
    }
}

/// The views of lists of rows of characters.
pub open spec fn blocks_view(blocks: Seq<Vec<Vec<char>>>) -> Seq<Seq<Seq<char>>> {
    blocks.map_values(|b: Vec<Vec<char>>| rows_view(b@))
}

/// Cuts all blocks of the given size from rows of characters.
pub fn cut_windows(input: &Vec<Vec<char>>, window_w: usize, window_h: usize) -> (r: Option<
    Vec<Vec<Vec<char>>>,
>)
    ensures
        match windows(rows_view(input@), window_w as int, window_h as int) {
            Some(blocks) => r is Some && blocks_view(r->0@) == blocks,
            None => r is None,
        },
{
    let ghost rows = rows_view(input@);
    let input_h = input.len();
    if input_h == 0 {
        return None;
    }
    let input_w = input[0].len();
    assert(rows[0] == input@[0]@);
    if window_w > input_w || window_h > input_h {
        return None;
    }
    if (window_w == 0 && input_w == usize::MAX) || (window_h == 0 && input_h == usize::MAX) {
        return None;
    }
    if window_h > 0 {
        let mut j: usize = 0;
        while j < input_h
            invariant
                rows == rows_view(input@),
                input_h == input@.len(),
                input_w == rows[0].len(),
                window_h > 0,
                j <= input_h,
                forall|k: int| 0 <= k < j ==> (#[trigger] rows[k]).len() >= input_w,
            decreases input_h - j,
        {
            assert(rows[j as int] == input@[j as int]@);
            if input[j].len() < input_w {
                return None;
            }
            j += 1;
        }
    }
    let nx = input_w - window_w + 1;
    let ny = input_h - window_h + 1;
    let mut result: Vec<Vec<Vec<char>>> = Vec::new();
    let mut window_x: usize = 0;
    assert(blocks_view(result@) =~= windows_upto(rows, window_w as int, window_h as int, ny as int, 0));
    while window_x < nx
        invariant
            rows == rows_view(input@),
            can_cut(rows, window_w as int, window_h as int),
            input_h == input@.len(),
            input_w == rows[0].len(),
            nx == input_w - window_w + 1,
            ny == input_h - window_h + 1,
            window_x <= nx,
            blocks_view(result@) == windows_upto(
                rows,
                window_w as int,
                window_h as int,
                ny as int,
                window_x as int,
            ),
        decreases nx - window_x,
    {
        let ghost done = blocks_view(result@);
        let mut window_y: usize = 0;
        assert(blocks_view(result@) =~= done + column_windows(
            rows,
            window_x as int,
            window_w as int,
            window_h as int,
            0,
        ));
        while window_y < ny
            invariant
                rows == rows_view(input@),
                can_cut(rows, window_w as int, window_h as int),
                input_h == input@.len(),
                input_w == rows[0].len(),
                nx == input_w - window_w + 1,
                ny == input_h - window_h + 1,
                window_x < nx,
                window_y <= ny,
                blocks_view(result@) == done + column_windows(
                    rows,
                    window_x as int,
                    window_w as int,
                    window_h as int,
                    window_y as int,
                ),
            decreases ny - window_y,
        {
            let mut window: Vec<Vec<char>> = Vec::new();
            let mut j: usize = 0;
            while j < window_h
                invariant
                    rows == rows_view(input@),
                    can_cut(rows, window_w as int, window_h as int),
                    input_h == input@.len(),
                    input_w == rows[0].len(),
                    window_x + window_w <= input_w,
                    window_y + window_h <= input_h,
                    j <= window_h,
                    rows_view(window@) == Seq::new(
                        j as nat,
                        |k: int| rows[window_y + k].subrange(window_x as int, window_x + window_w),
                    ),
                decreases window_h - j,
            {
                let line = &input[window_y + j];
                assert(rows[window_y + j] == line@);
                let mut piece: Vec<char> = Vec::new();
                let mut i: usize = 0;
                while i < window_w
                    invariant
                        window_x + window_w <= line.len(),
                        i <= window_w,
                        piece@ == line@.subrange(window_x as int, window_x + i),
                    decreases window_w - i,
                {
                    piece.push(line[window_x + i]);
                    assert(piece@ =~= line@.subrange(window_x as int, window_x + i + 1));
                    i += 1;
                }
                let ghost so_far = rows_view(window@);
                window.push(piece);
                assert(rows_view(window@) =~= so_far.push(piece@));
                assert(rows_view(window@) =~= Seq::new(
                    (j + 1) as nat,
                    |k: int| rows[window_y + k].subrange(window_x as int, window_x + window_w),
                ));
                j += 1;
            }
            assert(rows_view(window@) =~= block(
                rows,
                window_x as int,
                window_y as int,
                window_w as int,
                window_h as int,
            ));
            let ghost so_far = blocks_view(result@);
            result.push(window);
            assert(blocks_view(result@) =~= so_far.push(rows_view(window@)));
            assert(blocks_view(result@) =~= done + column_windows(
                rows,
                window_x as int,
                window_w as int,
                window_h as int,
                window_y as int + 1,
            ));
            window_y += 1;
        }
        window_x += 1;
    }
    Some(result)
}

/// Cuts all blocks of the given size from lines of text.
pub fn sliding_windows(input: Vec<String>, window_w: usize, window_h: usize) -> (r: Option<
    Vec<Vec<String>>,
>)
    ensures
        r.deep_view() == windows(input.deep_view(), window_w as int, window_h as int),
{
    let rows = chars_of_all(&input);
    match cut_windows(&rows, window_w, window_h) {
        Some(blocks) => {
            let mut result: Vec<Vec<String>> = Vec::new();
            let mut i: usize = 0;
            while i < blocks.len()
                invariant
                    i <= blocks@.len(),
                    result@.len() == i,
                    forall|k: int|
                        0 <= k < i ==> (#[trigger] result@[k]).deep_view() == rows_view(blocks@[k]@),
                decreases blocks@.len() - i,
            {
                result.push(strings_of(&blocks[i]));
                i += 1;
            }
            assert(result.deep_view() =~= blocks_view(blocks@));
            Some(result)
        },
        None => None,
    }
}

/// The five characters on the diagonals of a block of three rows and
/// three columns: the corners of the first row, the centre, and the
/// corners of the last row.
pub open spec fn readout(vignette: Seq<Seq<char>>) -> Seq<char> {
    seq![vignette[0][0], vignette[0][2], vignette[1][1], vignette[2][0], vignette[2][2]]
}

/// Whether the two diagonals of a block both read `MAS`, forward or
/// backward.
pub open spec fn is_cross(vignette: Seq<Seq<char>>) -> bool {
    let r = readout(vignette);
    r[2] == 'A' && ((r[0] == 'M' && r[4] == 'S') || (r[0] == 'S' && r[4] == 'M')) && ((r[1] == 'M'
        && r[3] == 'S') || (r[1] == 'S' && r[3] == 'M'))
}

/// The number of blocks among the first `n` that hold a cross. `None` if
/// the number leaves the range of `i32`.
pub open spec fn count_crosses(blocks: Seq<Seq<Seq<char>>>, n: int) -> Option<int>
    decreases n,
{
    if n <= 0 {
        Some(0)
    } else {
        match count_crosses(blocks, n - 1) {
            Some(before) => if !is_cross(blocks[n - 1]) {
                Some(before)
            } else if before + 1 <= i32::MAX {
                Some(before + 1)
            } else {
                None
            },
            None => None,
        }
    }
}

pub proof fn lemma_crosses_stay_lost(blocks: Seq<Seq<Seq<char>>>, n: int, m: int)
    requires
        0 <= n <= m,
        count_crosses(blocks, n) is None,
    ensures
        count_crosses(blocks, m) is None,
    decreases m - n,
{
    if n < m {
        lemma_crosses_stay_lost(blocks, n, m - 1);
    }
}

/// Every block that is cut has the size asked for.
pub proof fn lemma_windows_shape(rows: Seq<Seq<char>>, w: int, h: int, ny: int, nx: int, k: int)
    requires
        0 <= w,
        0 <= h,
        0 <= ny == rows.len() - h + 1,
        nx >= 0,
        forall|j: int| 0 <= j < rows.len() ==> (#[trigger] rows[j]).len() >= nx - 1 + w,
        0 <= k < windows_upto(rows, w, h, ny, nx).len(),
    ensures
        windows_upto(rows, w, h, ny, nx)[k].len() == h,
        forall|j: int| 0 <= j < h ==> (#[trigger] windows_upto(rows, w, h, ny, nx)[k][j]).len() == w,
    decreases nx,
{
    if nx > 0 {
        let before = windows_upto(rows, w, h, ny, nx - 1);
        if k < before.len() {
            lemma_windows_shape(rows, w, h, ny, nx - 1, k);
        } else {
            let y = k - before.len();
            assert(windows_upto(rows, w, h, ny, nx)[k] == block(rows, nx - 1, y, w, h));
            assert forall|j: int| 0 <= j < h implies (#[trigger] block(rows, nx - 1, y, w, h)[j]).len()
                == w by {
                assert(rows[y + j].len() >= nx - 1 + w);
            }
        }
    }
}

/// The number of crosses in the grid whose rows are the lines.
pub open spec fn cross_count(lines: Seq<Seq<char>>) -> Option<int> {
    match windows(lines, 3, 3) {
        Some(blocks) => count_crosses(blocks, blocks.len() as int),
        None => None,
    }
}

pub fn count_x_mas_s(input: Vec<String>) -> (r: Option<i32>)
    ensures
        gives(r, cross_count(input.deep_view())),
{
    let rows = chars_of_all(&input);
    let blocks = match cut_windows(&rows, 3, 3) {
        Some(blocks) => blocks,
        None => {
            return None;
        },
    };
    let ghost all = blocks_view(blocks@);
    let ghost lines = input.deep_view();
    let mut result: i32 = 0;
    let mut n: usize = 0;
    while n < blocks.len()
        invariant
            all == blocks_view(blocks@),
            lines == input.deep_view(),
            can_cut(lines, 3, 3),
            windows(lines, 3, 3) == Some(all),
            n <= blocks@.len(),
            count_crosses(all, n as int) == Some(result as int),
        decreases blocks@.len() - n,
    {
        let vignette = &blocks[n];
        proof {
            assert(all[n as int] == rows_view(vignette@));
            lemma_windows_shape(lines, 3, 3, lines.len() - 3 + 1, lines[0].len() - 3 + 1, n as int);
            assert(rows_view(vignette@)[0] == vignette@[0]@);
            assert(rows_view(vignette@)[1] == vignette@[1]@);
            assert(rows_view(vignette@)[2] == vignette@[2]@);
            assert(count_crosses(all, n as int + 1 - 1) == Some(result as int));
        }
        let a = vignette[0][0];
        let b = vignette[0][2];
        let c = vignette[1][1];
        let d = vignette[2][0];
        let e = vignette[2][2];
        let crossed = c == 'A' && ((a == 'M' && e == 'S') || (a == 'S' && e == 'M')) && ((b == 'M'
            && d == 'S') || (b == 'S' && d == 'M'));
        if crossed {
            match result.checked_add(1) {
                Some(more) => {
                    result = more;
                },
                None => {
                    proof {
                        lemma_crosses_stay_lost(all, n as int + 1, blocks@.len() as int);
                    }
                    return None;
                },
            }
        }
        n += 1;
    }
    Some(result)
}

/// Whether `r` is the answer to the second part for the puzzle text.
pub open spec fn is_solution_b(text: Seq<char>, r: Option<i32>) -> bool {
    gives(r, cross_count(lines_of(text)))
}

pub fn day4b(input: &str) -> (r: Option<i32>)
    ensures
        is_solution_b(input@, r),
{
    count_x_mas_s(split_lines(input))
}

} // verus!
