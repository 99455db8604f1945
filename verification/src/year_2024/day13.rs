//! Claw machines: two buttons move the claw by fixed steps, and the prize
//! lies at a given place. Pressing the first button costs three tokens
//! and pressing the second costs one.

use crate::common::arith::{add_checked, add_within, known};
use crate::common::parsing::{
    i64_of, parse_i64, read_regex_records, records_of_matches, regex_captures,
};
use vstd::prelude::*;

verus! {

pub type Scalar = i64;

pub type Coords = (Scalar, Scalar);

/// One machine: the steps of its two buttons, and the place of its prize.
#[derive(Debug, Clone, Copy, PartialEq, Eq)]
pub struct Puzzle {
    pub buttons: (Coords, Coords),
    pub prize: Coords,
}

/// The pattern of one machine in the puzzle text.
pub open spec fn puzzle_pattern() -> Seq<char> {
    "Button A: X\\+(\\d+), Y\\+(\\d+)\\nButton B: X\\+(\\d+), Y\\+(\\d+)\\nPrize: X=(\\d+), Y=(\\d+)\\n"@
}

/// The machine that one record stands for: the whole match and six
/// numbers.
pub open spec fn puzzle_of(record: Seq<Seq<char>>) -> Option<Puzzle> {
    if record.len() != 7 {
        None
    } else {
        match (
            i64_of(record[1]),
            i64_of(record[2]),
            i64_of(record[3]),
            i64_of(record[4]),
            i64_of(record[5]),
            i64_of(record[6]),
        ) {
            (Some(ax), Some(ay), Some(bx), Some(by), Some(px), Some(py)) => Some(
                Puzzle {
                    buttons: ((ax as i64, ay as i64), (bx as i64, by as i64)),
                    prize: (px as i64, py as i64),
                },
            ),
            _ => None,
        }
    }
}

/// The machines that the records stand for, if every record stands for
/// one.
pub open spec fn puzzles_of(records: Seq<Seq<Seq<char>>>) -> Option<Seq<Puzzle>> {
    if forall|i: int| 0 <= i < records.len() ==> (#[trigger] puzzle_of(records[i])) is Some {
        Some(Seq::new(records.len(), |i: int| puzzle_of(records[i])->0))
    } else {
        None
    }
}

/// Reads one record as a machine.
pub fn parse_puzzle(record: &Vec<String>) -> (r: Option<Puzzle>)
    ensures
        r == puzzle_of(record.deep_view()),
{
    if record.len() != 7 {
        return None;
    }
    let ghost fields = record.deep_view();
    assert(fields[1] == record@[1]@);
    assert(fields[2] == record@[2]@);
    assert(fields[3] == record@[3]@);
    assert(fields[4] == record@[4]@);
    assert(fields[5] == record@[5]@);
    assert(fields[6] == record@[6]@);
    match (
        parse_i64(record[1].as_str()),
        parse_i64(record[2].as_str()),
        parse_i64(record[3].as_str()),
        parse_i64(record[4].as_str()),
        parse_i64(record[5].as_str()),
        parse_i64(record[6].as_str()),
    ) {
        (Some(ax), Some(ay), Some(bx), Some(by), Some(px), Some(py)) => Some(
            Puzzle { buttons: ((ax, ay), (bx, by)), prize: (px, py) },
        ),
        _ => None,
    }
}

/// Reads the records that the pattern found as machines. `None` if one of
/// them is no machine.
pub fn parse_puzzles(records: &Vec<Vec<String>>) -> (r: Option<Vec<Puzzle>>)
    ensures
        match puzzles_of(records.deep_view()) {
            Some(puzzles) => r is Some && r->0@ == puzzles,
            None => r is None,
        },
{
    let ghost all = records.deep_view();
    let mut result: Vec<Puzzle> = Vec::new();
    let mut i: usize = 0;
    while i < records.len()
        invariant
            all == records.deep_view(),
            i <= records@.len(),
            result@.len() == i,
            forall|k: int| 0 <= k < i ==> (#[trigger] puzzle_of(all[k])) == Some(result@[k]),
        decreases records@.len() - i,
    {
        assert(all[i as int] == records@[i as int].deep_view());
        match parse_puzzle(&records[i]) {
            Some(puzzle) => {
                result.push(puzzle);
            },
            None => {
                return None;
            },
        }
        i += 1;
    }
    assert(result@ =~= puzzles_of(all)->0);
    Some(result)
}

/// The machines written in the puzzle text, as the pattern finds them.
pub open spec fn input_of(text: Seq<char>) -> Option<Seq<Puzzle>> {
    match regex_captures(puzzle_pattern(), text) {
        Some(found) => puzzles_of(records_of_matches(found)),
        None => None,
    }
}

/// Reads the machines of the puzzle text.
pub fn read_input(input: &str) -> (r: Option<Vec<Puzzle>>)
    ensures
        match input_of(input@) {
            Some(puzzles) => r is Some && r->0@ == puzzles,
            None => r is None,
        },
{
    match read_regex_records(
        input,
        "Button A: X\\+(\\d+), Y\\+(\\d+)\\nButton B: X\\+(\\d+), Y\\+(\\d+)\\nPrize: X=(\\d+), Y=(\\d+)\\n",
    ) {
        Some(records) => parse_puzzles(&records),
        None => None,
    }
}

/// How much further away the prizes of the second part lie, in either
/// direction.
pub const PRIZE_SHIFT: Scalar = 10000000000000;

/// The machine with its prize moved further away by `PRIZE_SHIFT` in
/// either direction. `None` if a coordinate leaves the range of `i64`.
pub fn shift_prize(puzzle: &Puzzle) -> (r: Option<Puzzle>)
    ensures
        match r {
            Some(far) => far.buttons == puzzle.buttons && far.prize.0 == puzzle.prize.0 + PRIZE_SHIFT
                && far.prize.1 == puzzle.prize.1 + PRIZE_SHIFT,
            None => puzzle.prize.0 + PRIZE_SHIFT > i64::MAX || puzzle.prize.1 + PRIZE_SHIFT
                > i64::MAX,
        },
{
    match (puzzle.prize.0.checked_add(PRIZE_SHIFT), puzzle.prize.1.checked_add(PRIZE_SHIFT)) {
        (Some(x), Some(y)) => Some(Puzzle { buttons: puzzle.buttons, prize: (x, y) }),
        _ => None,
    }
}

/// The sum of the costs of the first `n` machines, a machine without a
/// cost counting as 0. `None` if the sum leaves the range of `i64`.
pub open spec fn cost_sum(costs: Seq<Option<i64>>, n: int) -> Option<int>
    decreases n,
{
    if n <= 0 {
        Some(0)
    } else {
        add_within(
            cost_sum(costs, n - 1),
            Some(
                match costs[n - 1] {
                    Some(c) => c as int,
                    None => 0,
                },
            ),
        )
    }
}

/// Adds up the costs of the machines that have one.
pub fn total_cost(costs: &Vec<Option<i64>>) -> (r: Option<i64>)
    ensures
        known(r) == cost_sum(costs@, costs@.len() as int),
{
    let mut result: Option<i64> = Some(0);
    let mut n: usize = 0;
    while n < costs.len()
        invariant
            n <= costs@.len(),
            known(result) == cost_sum(costs@, n as int),
        decreases costs@.len() - n,
    {
        let cost = match costs[n] {
            Some(c) => c,
            None => 0,
        };
        result = add_checked(result, Some(cost));
        n += 1;
    }
    result
}

} // verus!
