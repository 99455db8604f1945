//! Each bank of batteries is a row of digits. Switching on a fixed number
//! of them, in their order, gives a number; the puzzle asks for the sum of
//! the largest such numbers.

use crate::common::parsing::{digit_rows, parse_digit_rows};
use crate::common::text::{lines_of, split_lines};
use vstd::prelude::*;

verus! {

pub type Battery = Vec<i64>;

/// The place of the first largest level among the places `lo` up to, not
/// including, `hi`.
pub open spec fn first_max_pos(levels: Seq<i64>, lo: int, hi: int) -> int
    decreases hi - lo,
{
    if hi - lo <= 1 {
        lo
    } else {
        let before = first_max_pos(levels, lo, hi - 1);
        if levels[hi - 1] > levels[before] {
            hi - 1
        } else {
            before
        }
    }
}

/// The number that `cells` more cells add to `so_far`, choosing from the
/// place `cursor` on: each time the first largest level that leaves enough
/// levels behind it for the cells still to choose, written as the next
/// decimal digit. `None` if the number leaves the range of `i64`.
pub open spec fn power_from(levels: Seq<i64>, cursor: int, cells: nat, so_far: int) -> Option<int>
    decreases cells,
{
    if cells == 0 {
        Some(so_far)
    } else {
        let pos = first_max_pos(levels, cursor, levels.len() - cells + 1);
        let next = so_far * 10 + levels[pos];
        if i64::MIN <= so_far * 10 <= i64::MAX && i64::MIN <= next <= i64::MAX {
            power_from(levels, pos + 1, (cells - 1) as nat, next)
        } else {
            None
        }
    }
}

/// The largest number that `cells` cells of one battery give. `None` if
/// the battery has fewer levels than that, or the number leaves the range
/// of `i64`.
pub open spec fn battery_power(levels: Seq<i64>, cells: nat) -> Option<int> {
    if cells > levels.len() {
        None
    } else {
        power_from(levels, 0, cells, 0)
    }
}

/// The sum of the powers of the batteries. `None` if one of them has no
/// power or the sum leaves the range of `i64`.
pub open spec fn total_power(batteries: Seq<Seq<i64>>, cells: nat) -> Option<int>
    decreases batteries.len(),
{
    if batteries.len() == 0 {
        Some(0)
    } else {
        match (total_power(batteries.drop_last(), cells), battery_power(batteries.last(), cells)) {
            (Some(before), Some(power)) => if i64::MIN <= before + power <= i64::MAX {
                Some(before + power)
            } else {
                None
            },
            _ => None,
        }
    }
}

/// Once the sum is lost, it stays lost.
pub proof fn lemma_total_stays_lost(batteries: Seq<Seq<i64>>, cells: nat, n: int)
    requires
        0 <= n <= batteries.len(),
        total_power(batteries.take(n), cells) is None,
    ensures
        total_power(batteries, cells) is None,
    decreases batteries.len() - n,
{
    if n < batteries.len() {
        assert(batteries.take(n + 1).drop_last() =~= batteries.take(n));
        lemma_total_stays_lost(batteries, cells, n + 1);
    } else {
        assert(batteries.take(n) =~= batteries);
    }
}

/// The place of the first largest level in a window with at least one
/// place.
fn find_first_max(levels: &Vec<i64>, lo: usize, hi: usize) -> (pos: usize)
    requires
        lo < hi <= levels@.len(),
    ensures
        pos == first_max_pos(levels@, lo as int, hi as int),
        lo <= pos < hi,
{
    let mut best: usize = lo;
    let mut i: usize = lo + 1;
    while i < hi
        invariant
            lo < i <= hi <= levels@.len(),
            lo <= best < i,
            best == first_max_pos(levels@, lo as int, i as int),
        decreases hi - i,
    {
        if levels[i] > levels[best] {
            best = i;
        }
        i += 1;
    }
    best
}

/// The largest number that `num_cells` cells of one battery give.
fn power_of_battery(battery: &Vec<i64>, num_cells: usize) -> (r: Option<i64>)
    ensures
        match battery_power(battery@, num_cells as nat) {
            Some(power) => r is Some && r->0 == power,
            None => r is None,
        },
{
    if num_cells > battery.len() {
        return None;
    }
    let mut power: i64 = 0;
    let mut cursor: usize = 0;
    let mut cell: usize = 0;
    while cell < num_cells
        invariant
            cell <= num_cells <= battery@.len(),
            cursor + (num_cells - cell) <= battery@.len(),
            power_from(battery@, cursor as int, (num_cells - cell) as nat, power as int)
                == power_from(battery@, 0, num_cells as nat, 0),
        decreases num_cells - cell,
    {
        let cells_remaining = num_cells - cell;
        let digit_pos = find_first_max(battery, cursor, battery.len() - cells_remaining + 1);
        let digit = battery[digit_pos];
        match power.checked_mul(10) {
            Some(shifted) => match shifted.checked_add(digit) {
                Some(next) => {
                    power = next;
                },
                None => {
                    return None;
                },
            },
            None => {
                return None;
            },
        }
        cursor = digit_pos + 1;
        cell += 1;
    }
    Some(power)
}

/// The sum over all batteries of the largest number that `num_cells`
/// cells give.
pub fn compute_power(batteries: &Vec<Battery>, num_cells: usize) -> (r: Option<i64>)
    ensures
        match total_power(batteries.deep_view(), num_cells as nat) {
            Some(power) => r is Some && r->0 == power,
            None => r is None,
        },
{
    let ghost all = batteries.deep_view();
    let mut sum: i64 = 0;
    let mut i: usize = 0;
    assert(all.take(0) =~= Seq::empty());
    while i < batteries.len()
        invariant
            all == batteries.deep_view(),
            i <= batteries@.len(),
            total_power(all.take(i as int), num_cells as nat) == Some(sum as int),
        decreases batteries@.len() - i,
    {
        assert(all.take(i as int + 1).drop_last() =~= all.take(i as int));
        assert(all.take(i as int + 1).last() == batteries@[i as int]@);
        assert(batteries@[i as int].deep_view() =~= batteries@[i as int]@);
        let next = match power_of_battery(&batteries[i], num_cells) {
            Some(power) => sum.checked_add(power),
            None => None,
        };
        match next {
            Some(more) => {
                sum = more;
            },
            None => {
                proof {
                    lemma_total_stays_lost(all, num_cells as nat, i as int + 1);
                }
                return None;
            },
        }
        i += 1;
    }
    assert(all.take(batteries@.len() as int) =~= all);
    Some(sum)
}

/// The batteries written in the puzzle text, one per line.
pub open spec fn input_of(text: Seq<char>) -> Option<Seq<Seq<i64>>> {
    digit_rows(lines_of(text))
}

/// Reads the batteries of the puzzle text. `None` if a character is no
/// digit.
pub fn read_input(input: &str) -> (r: Option<Vec<Battery>>)
    ensures
        r.deep_view() == input_of(input@),
{
    parse_digit_rows(&split_lines(input))
}

/// The answers to both parts: the total power with two cells and with
/// twelve cells for each battery.
pub open spec fn answer(text: Seq<char>) -> Option<(int, int)> {
    match input_of(text) {
        Some(batteries) => match (total_power(batteries, 2), total_power(batteries, 12)) {
            (Some(a), Some(b)) => Some((a, b)),
            _ => None,
        },
        None => None,
    }
}

/// Solves both parts. `None` if the text is no list of batteries, a
/// battery is too short, or a number leaves the range of `i64`.
pub fn day3(input: &str) -> (r: Option<(i64, i64)>)
    ensures
        match answer(input@) {
            Some((a, b)) => r is Some && (r->0).0 == a && (r->0).1 == b,
            None => r is None,
        },
{
    match read_input(input) {
        Some(records) => match (compute_power(&records, 2), compute_power(&records, 12)) {
            (Some(a), Some(b)) => Some((a, b)),
            _ => None,
        },
        None => None,
    }
}

/// Whether `r` is the answer to the first part for the puzzle text.
pub open spec fn is_solution_a(text: Seq<char>, r: Option<i64>) -> bool {
    match answer(text) {
        Some((a, _)) => r is Some && r->0 == a,
        None => r is None,
    }
}

pub fn solution_a(input: &str) -> (r: Option<i64>)
    ensures
        is_solution_a(input@, r),
{
    match day3(input) {
        Some((a, _)) => Some(a),
        None => None,
    }
}

/// Whether `r` is the answer to the second part for the puzzle text.
pub open spec fn is_solution_b(text: Seq<char>, r: Option<i64>) -> bool {
    match answer(text) {
        Some((_, b)) => r is Some && r->0 == b,
        None => r is None,
    }
}

pub fn solution_b(input: &str) -> (r: Option<i64>)
    ensures
        is_solution_b(input@, r),
{
    match day3(input) {
        Some((_, b)) => Some(b),
        None => None,
    }
}

} // verus!
