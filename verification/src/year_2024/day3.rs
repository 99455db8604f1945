//! A corrupted program text holds multiplications `mul(a,b)` among other
//! characters, and the switches `do()` and `don't()`. The puzzle adds up
//! the products, first of all multiplications and then of those that are
//! switched on.

use crate::common::parsing::{
    i32_of, parse_i32, read_regex_records, records_of_matches, regex_captures,
};
use crate::common::text::{lines_of, same_text, split_lines};
use vstd::prelude::*;

verus! {

/// The pattern of a multiplication: `mul(`, one to three digits, a comma,
/// one to three digits, `)`.
pub open spec fn mul_pattern() -> Seq<char> {
    "mul\\((\\d{1,3}),(\\d{1,3})\\)"@
}

/// The pattern of a switch or a multiplication.
pub open spec fn op_pattern() -> Seq<char> {
    "(?:do\\(\\))|(?:don't\\(\\))|(?:mul\\((\\d{1,3}),(\\d{1,3})\\))"@
}

/// One instruction of the program.
#[derive(Debug, Clone, Copy, PartialEq, Eq, Structural)]
pub enum Instr {
    Do,
    Dont,
    Mul(i32, i32),
}

/// The two factors that a record of a whole match and two numbers stands
/// for.
pub open spec fn mul_of(record: Seq<Seq<char>>) -> Option<Instr> {
    if record.len() == 3 {
        match (i32_of(record[1]), i32_of(record[2])) {
            (Some(l), Some(r)) => Some(Instr::Mul(l as i32, r as i32)),
            _ => None,
        }
    } else {
        None
    }
}

/// The instruction that a record stands for: a switch if the whole match
/// is one, and else a multiplication.
pub open spec fn instr_of(record: Seq<Seq<char>>) -> Option<Instr> {
    if record.len() == 0 {
        None
    } else if record[0] == "do()"@ {
        Some(Instr::Do)
    } else if record[0] == "don't()"@ {
        Some(Instr::Dont)
    } else {
        mul_of(record)
    }
}

/// The state of the program: whether multiplications are switched on, and
/// the sum of the products so far.
pub struct Tally {
    pub enabled: bool,
    pub result: int,
}

/// The state after one more instruction. A multiplication adds its product
/// if multiplications are switched on. `None` if the sum leaves the range
/// of `i32`.
pub open spec fn after_instr(state: Tally, instr: Instr) -> Option<Tally> {
    match instr {
        Instr::Do => Some(Tally { enabled: true, result: state.result }),
        Instr::Dont => Some(Tally { enabled: false, result: state.result }),
        Instr::Mul(l, r) => if !state.enabled {
            Some(state)
        } else if i32::MIN <= l * r <= i32::MAX && i32::MIN <= state.result + l * r <= i32::MAX {
            Some(Tally { enabled: true, result: state.result + l * r })
        } else {
            None
        },
    }
}

/// The state after the first `n` records, each read as a switch or a
/// multiplication where `switches` is set and as a multiplication
/// otherwise. `None` if a record stands for no instruction.
pub open spec fn after_records(
    state: Tally,
    records: Seq<Seq<Seq<char>>>,
    switches: bool,
    n: int,
) -> Option<Tally>
    decreases n,
{
    if n <= 0 {
        Some(state)
    } else {
        let instr = if switches {
            instr_of(records[n - 1])
        } else {
            mul_of(records[n - 1])
        };
        match (after_records(state, records, switches, n - 1), instr) {
            (Some(before), Some(i)) => after_instr(before, i),
            _ => None,
        }
    }
}

/// The state after the first `n` lines, each searched with the pattern.
pub open spec fn after_lines(lines: Seq<Seq<char>>, switches: bool, n: int) -> Option<Tally>
    decreases n,
{
    if n <= 0 {
        Some(Tally { enabled: true, result: 0 })
    } else {
        let pattern = if switches {
            op_pattern()
        } else {
            mul_pattern()
        };
        match (after_lines(lines, switches, n - 1), regex_captures(pattern, lines[n - 1])) {
            (Some(before), Some(found)) => {
                let records = records_of_matches(found);
                after_records(before, records, switches, records.len() as int)
            },
            _ => None,
        }
    }
}

pub proof fn lemma_records_stay_lost(
    state: Tally,
    records: Seq<Seq<Seq<char>>>,
    switches: bool,
    n: int,
    m: int,
)
    requires
        0 <= n <= m,
        after_records(state, records, switches, n) is None,
    ensures
        after_records(state, records, switches, m) is None,
    decreases m - n,
{
    if n < m {
        lemma_records_stay_lost(state, records, switches, n, m - 1);
    }
}

pub proof fn lemma_lines_stay_lost(lines: Seq<Seq<char>>, switches: bool, n: int, m: int)
    requires
        0 <= n <= m,
        after_lines(lines, switches, n) is None,
    ensures
        after_lines(lines, switches, m) is None,
    decreases m - n,
{
    if n < m {
        lemma_lines_stay_lost(lines, switches, n, m - 1);
    }
}

/// Reads a record as a multiplication.
pub fn parse_mul(record: &Vec<String>) -> (r: Option<Instr>)
    ensures
        r == mul_of(record.deep_view()),
{
    if record.len() != 3 {
        return None;
    }
    assert(record.deep_view()[1] == record@[1]@);
    assert(record.deep_view()[2] == record@[2]@);
    match (parse_i32(record[1].as_str()), parse_i32(record[2].as_str())) {
        (Some(l), Some(r)) => Some(Instr::Mul(l, r)),
        _ => None,
    }
}

/// Reads a record as a switch or a multiplication.
pub fn parse_instr(record: &Vec<String>) -> (r: Option<Instr>)
    ensures
        r == instr_of(record.deep_view()),
{
    if record.len() == 0 {
        return None;
    }
    assert(record.deep_view()[0] == record@[0]@);
    if same_text(record[0].as_str(), "do()") {
        Some(Instr::Do)
    } else if same_text(record[0].as_str(), "don't()") {
        Some(Instr::Dont)
    } else {
        parse_mul(record)
    }
}

/// Carries out the records that the pattern found in one line.
pub fn run_records(enabled: bool, result: i32, records: &Vec<Vec<String>>, switches: bool) -> (r:
    Option<(bool, i32)>)
    ensures
        match after_records(
            Tally { enabled, result: result as int },
            records.deep_view(),
            switches,
            records@.len() as int,
        ) {
            Some(state) => r is Some && (r->0).0 == state.enabled && (r->0).1 == state.result,
            None => r is None,
        },
{
    let ghost start = Tally { enabled, result: result as int };
    let ghost all = records.deep_view();
    let mut on = enabled;
    let mut sum_so_far = result;
    let mut i: usize = 0;
    while i < records.len()
        invariant
            all == records.deep_view(),
            start == (Tally { enabled, result: result as int }),
            i <= records@.len(),
            after_records(start, all, switches, i as int) == Some(
                Tally { enabled: on, result: sum_so_far as int },
            ),
        decreases records@.len() - i,
    {
        assert(all[i as int] == records@[i as int].deep_view());
        assert(after_records(start, all, switches, i as int + 1 - 1) == Some(
            Tally { enabled: on, result: sum_so_far as int },
        ));
        let instr = if switches {
            parse_instr(&records[i])
        } else {
            parse_mul(&records[i])
        };
        let next = match instr {
            Some(Instr::Do) => Some((true, sum_so_far)),
            Some(Instr::Dont) => Some((false, sum_so_far)),
            Some(Instr::Mul(l, r)) => if !on {
                Some((on, sum_so_far))
            } else {
                match l.checked_mul(r) {
                    Some(product) => match sum_so_far.checked_add(product) {
                        Some(sum) => Some((true, sum)),
                        None => None,
                    },
                    None => None,
                }
            },
            None => None,
        };
        match next {
            Some((e, s)) => {
                on = e;
                sum_so_far = s;
            },
            None => {
                proof {
                    let before = Tally { enabled: on, result: sum_so_far as int };
                    let read = if switches {
                        instr_of(all[i as int])
                    } else {
                        mul_of(all[i as int])
                    };
                    assert(read == instr);
                    if let Some(op) = read {
                        assert(after_instr(before, op) is None);
                    }
                    assert(after_records(start, all, switches, i as int + 1) is None);
                    lemma_records_stay_lost(start, all, switches, i as int + 1, records@.len() as int);
                }
                return None;
            },
        }
        i += 1;
    }
    Some((on, sum_so_far))
}

/// Searches every line with the pattern and carries out what it finds.
pub fn run_lines(lines: &Vec<String>, switches: bool) -> (r: Option<i32>)
    ensures
        match after_lines(lines.deep_view(), switches, lines@.len() as int) {
            Some(state) => r is Some && r->0 == state.result,
            None => r is None,
        },
{
    let ghost texts = lines.deep_view();
    let mut enabled = true;
    let mut result: i32 = 0;
    let mut i: usize = 0;
    while i < lines.len()
        invariant
            texts == lines.deep_view(),
            i <= lines@.len(),
            after_lines(texts, switches, i as int) == Some(Tally { enabled, result: result as int }),
        decreases lines@.len() - i,
    {
        assert(texts[i as int] == lines@[i as int]@);
        assert(after_lines(texts, switches, i as int + 1 - 1) == Some(
            Tally { enabled, result: result as int },
        ));
        let found = if switches {
            read_regex_records(
                lines[i].as_str(),
                "(?:do\\(\\))|(?:don't\\(\\))|(?:mul\\((\\d{1,3}),(\\d{1,3})\\))",
            )
        } else {
            read_regex_records(lines[i].as_str(), "mul\\((\\d{1,3}),(\\d{1,3})\\)")
        };
        let next = match found {
            Some(records) => run_records(enabled, result, &records, switches),
            None => None,
        };
        match next {
            Some((e, s)) => {
                enabled = e;
                result = s;
            },
            None => {
                proof {
                    lemma_lines_stay_lost(texts, switches, i as int + 1, lines@.len() as int);
                }
                return None;
            },
        }
        i += 1;
    }
    Some(result)
}

/// Whether a result gives the sum of a final state.
pub open spec fn gives(r: Option<i32>, state: Option<Tally>) -> bool {
    match state {
        Some(s) => r is Some && r->0 == s.result,
        None => r is None,
    }
}

pub fn count_muls(lines: Vec<String>) -> (r: Option<i32>)
    ensures
        gives(r, after_lines(lines.deep_view(), false, lines@.len() as int)),
{
    run_lines(&lines, false)
}

pub fn count_enabled_muls(lines: Vec<String>) -> (r: Option<i32>)
    ensures
        gives(r, after_lines(lines.deep_view(), true, lines@.len() as int)),
{
    run_lines(&lines, true)
}

/// Whether `r` is the answer to the first part for the puzzle text.
pub open spec fn is_solution_a(text: Seq<char>, r: Option<i32>) -> bool {
    gives(r, after_lines(lines_of(text), false, lines_of(text).len() as int))
}

/// Whether `r` is the answer to the second part for the puzzle text.
pub open spec fn is_solution_b(text: Seq<char>, r: Option<i32>) -> bool {
    gives(r, after_lines(lines_of(text), true, lines_of(text).len() as int))
}

pub fn day3(input: &str) -> (r: Option<i32>)
    ensures
        is_solution_a(input@, r),
{
    count_muls(split_lines(input))
}

pub fn day3b(input: &str) -> (r: Option<i32>)
    ensures
        is_solution_b(input@, r),
{
    count_enabled_muls(split_lines(input))
}

} // verus!
