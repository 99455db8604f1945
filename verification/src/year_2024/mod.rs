//! Puzzles of the 2024 series.

use crate::common::text::same_text;
use vstd::prelude::*;

pub mod day1;
pub mod day2;
pub mod day3;
pub mod day4;
pub mod day5;
pub mod day6;
pub mod day7;
pub mod day8;
pub mod day9;
pub mod day10;
pub mod day11;
pub mod day12;
pub mod day13;
pub mod day14;
pub mod day15;
pub mod day16;
pub mod day17;

verus! {

/// A number of 32 bits as one of 64 bits.
pub open spec fn widened(v: Option<i32>) -> Option<i64> {
    match v {
        Some(x) => Some(x as i64),
        None => None,
    }
}

/// Widens a result of 32 bits.
fn widen(v: Option<i32>) -> (r: Option<i64>)
    ensures
        r == widened(v),
{
    match v {
        Some(x) => Some(x as i64),
        None => None,
    }
}

/// Runs the solver with the given name on the puzzle text. `None` for a
/// name that no solver has here, and where the solver gives `None`.
pub fn run_solution(name: &str, input: &str) -> (r: Option<i64>)
    ensures
        name@ == "day1a"@ ==> day1::is_solution_a(input@, r),
        name@ == "day1b"@ ==> day1::is_solution_b(input@, r),
        name@ == "day2a"@ ==> exists|v: Option<i32>| #[trigger] day2::is_solution_a(input@, v) && r == widened(v),
        name@ == "day2b"@ ==> exists|v: Option<i32>| #[trigger] day2::is_solution_b(input@, v) && r == widened(v),
        name@ == "day3a"@ ==> exists|v: Option<i32>| #[trigger] day3::is_solution_a(input@, v) && r == widened(v),
        name@ == "day3b"@ ==> exists|v: Option<i32>| #[trigger] day3::is_solution_b(input@, v) && r == widened(v),
        name@ == "day4a"@ ==> exists|v: Option<i32>| #[trigger] day4::is_solution_a(input@, v) && r == widened(v),
        name@ == "day4b"@ ==> exists|v: Option<i32>| #[trigger] day4::is_solution_b(input@, v) && r == widened(v),
        name@ == "day5a"@ ==> exists|v: Option<i32>| #[trigger] day5::is_solution_a(input@, v) && r == widened(v),
        name@ == "day5b"@ ==> exists|v: Option<i32>| #[trigger] day5::is_solution_b(input@, v) && r == widened(v),
        name@ == "day6a"@ ==> exists|v: Option<i32>| #[trigger] day6::is_solution_a(input@, v) && r == widened(v),
        name@ == "day6b"@ ==> exists|v: Option<i32>| #[trigger] day6::is_solution_b(input@, v) && r == widened(v),
        name@ == "day7a"@ ==> day7::is_solution_a(input@, r),
        name@ == "day7b"@ ==> day7::is_solution_b(input@, r),
        name@ == "day8a"@ ==> day8::is_solution_a(input@, r),
        name@ == "day8b"@ ==> day8::is_solution_b(input@, r),
        name@ == "day9a"@ ==> day9::is_solution_a(input@, r),
        name@ == "day9b"@ ==> day9::is_solution_b(input@, r),
        name@ == "day10a"@ ==> day10::is_solution_a(input@, r),
        name@ == "day10b"@ ==> day10::is_solution_b(input@, r),
        name@ == "day11a"@ ==> day11::is_solution_a(input@, r),
        name@ == "day11b"@ ==> day11::is_solution_b(input@, r),
        name@ == "day12a"@ ==> day12::is_solution_a(input@, r),
        name@ == "day12b"@ ==> day12::is_solution_b(input@, r),
        name@ == "day14a"@ ==> day14::is_solution_a(input@, r),
        name@ == "day15a"@ ==> day15::is_solution_a(input@, r),
        name@ == "day15b"@ ==> day15::is_solution_b(input@, r),
        name@ == "day17b"@ ==> day17::is_solution_b(input@, r),
        !(name@ == "day1a"@ || name@ == "day1b"@ || name@ == "day2a"@ || name@ == "day2b"@ || name@ == "day3a"@ || name@ == "day3b"@ || name@ == "day4a"@ || name@ == "day4b"@ || name@ == "day5a"@ || name@ == "day5b"@ || name@ == "day6a"@ || name@ == "day6b"@ || name@ == "day7a"@ || name@ == "day7b"@ || name@ == "day8a"@ || name@ == "day8b"@ || name@ == "day9a"@ || name@ == "day9b"@ || name@ == "day10a"@ || name@ == "day10b"@ || name@ == "day11a"@ || name@ == "day11b"@ || name@ == "day12a"@ || name@ == "day12b"@ || name@ == "day14a"@ || name@ == "day15a"@ || name@ == "day15b"@ || name@ == "day17b"@) ==> r is None,
{
    proof {
        reveal_strlit("day1a");
        reveal_strlit("day1b");
        reveal_strlit("day2a");
        reveal_strlit("day2b");
        reveal_strlit("day3a");
        reveal_strlit("day3b");
        reveal_strlit("day4a");
        reveal_strlit("day4b");
        reveal_strlit("day5a");
        reveal_strlit("day5b");
        reveal_strlit("day6a");
        reveal_strlit("day6b");
        reveal_strlit("day7a");
        reveal_strlit("day7b");
        reveal_strlit("day8a");
        reveal_strlit("day8b");
        reveal_strlit("day9a");
        reveal_strlit("day9b");
        reveal_strlit("day10a");
        reveal_strlit("day10b");
        reveal_strlit("day11a");
        reveal_strlit("day11b");
        reveal_strlit("day12a");
        reveal_strlit("day12b");
        reveal_strlit("day14a");
        reveal_strlit("day15a");
        reveal_strlit("day15b");
        reveal_strlit("day17b");
    }
    if same_text(name, "day1a") {
        assert(name@.len() == 5 && name@[3] == '1' && name@[4] == 'a');
        day1::day1(input)
    }     else if same_text(name, "day1b") {
        assert(name@.len() == 5 && name@[3] == '1' && name@[4] == 'b');
        day1::day1b(input)
    }     else if same_text(name, "day2a") {
        assert(name@.len() == 5 && name@[3] == '2' && name@[4] == 'a');
        let v = day2::day2(input);
        widen(v)
    }     else if same_text(name, "day2b") {
        assert(name@.len() == 5 && name@[3] == '2' && name@[4] == 'b');
        let v = day2::day2b(input);
        widen(v)
    }     else if same_text(name, "day3a") {
        assert(name@.len() == 5 && name@[3] == '3' && name@[4] == 'a');
        let v = day3::day3(input);
        widen(v)
    }     else if same_text(name, "day3b") {
        assert(name@.len() == 5 && name@[3] == '3' && name@[4] == 'b');
        let v = day3::day3b(input);
        widen(v)
    }     else if same_text(name, "day4a") {
        assert(name@.len() == 5 && name@[3] == '4' && name@[4] == 'a');
        let v = day4::day4(input);
        widen(v)
    }     else if same_text(name, "day4b") {
        assert(name@.len() == 5 && name@[3] == '4' && name@[4] == 'b');
        let v = day4::day4b(input);
        widen(v)
    }     else if same_text(name, "day5a") {
        assert(name@.len() == 5 && name@[3] == '5' && name@[4] == 'a');
        let v = day5::day5(input);
        widen(v)
    }     else if same_text(name, "day5b") {
        assert(name@.len() == 5 && name@[3] == '5' && name@[4] == 'b');
        let v = day5::day5b(input);
        widen(v)
    }     else if same_text(name, "day6a") {
        assert(name@.len() == 5 && name@[3] == '6' && name@[4] == 'a');
        let v = day6::day6(input);
        widen(v)
    }     else if same_text(name, "day6b") {
        assert(name@.len() == 5 && name@[3] == '6' && name@[4] == 'b');
        let v = day6::day6b(input);
        widen(v)
    }     else if same_text(name, "day7a") {
        assert(name@.len() == 5 && name@[3] == '7' && name@[4] == 'a');
        day7::day7(input)
    }     else if same_text(name, "day7b") {
        assert(name@.len() == 5 && name@[3] == '7' && name@[4] == 'b');
        day7::day7b(input)
    }     else if same_text(name, "day8a") {
        assert(name@.len() == 5 && name@[3] == '8' && name@[4] == 'a');
        day8::day8(input)
    }     else if same_text(name, "day8b") {
        assert(name@.len() == 5 && name@[3] == '8' && name@[4] == 'b');
        day8::day8b(input)
    }     else if same_text(name, "day9a") {
        assert(name@.len() == 5 && name@[3] == '9' && name@[4] == 'a');
        day9::day9(input)
    }     else if same_text(name, "day9b") {
        assert(name@.len() == 5 && name@[3] == '9' && name@[4] == 'b');
        day9::day9b(input)
    }     else if same_text(name, "day10a") {
        assert(name@.len() == 6 && name@[3] == '1' && name@[4] == '0' && name@[5] == 'a');
        day10::day10(input)
    }     else if same_text(name, "day10b") {
        assert(name@.len() == 6 && name@[3] == '1' && name@[4] == '0' && name@[5] == 'b');
        day10::day10b(input)
    }     else if same_text(name, "day11a") {
        assert(name@.len() == 6 && name@[3] == '1' && name@[4] == '1' && name@[5] == 'a');
        day11::day11(input)
    }     else if same_text(name, "day11b") {
        assert(name@.len() == 6 && name@[3] == '1' && name@[4] == '1' && name@[5] == 'b');
        day11::day11b(input)
    }     else if same_text(name, "day12a") {
        assert(name@.len() == 6 && name@[3] == '1' && name@[4] == '2' && name@[5] == 'a');
        day12::day12(input)
    }     else if same_text(name, "day12b") {
        assert(name@.len() == 6 && name@[3] == '1' && name@[4] == '2' && name@[5] == 'b');
        day12::day12b(input)
    }     else if same_text(name, "day14a") {
        assert(name@.len() == 6 && name@[3] == '1' && name@[4] == '4' && name@[5] == 'a');
        day14::day14(input)
    }     else if same_text(name, "day15a") {
        assert(name@.len() == 6 && name@[3] == '1' && name@[4] == '5' && name@[5] == 'a');
        day15::day15(input)
    }     else if same_text(name, "day15b") {
        assert(name@.len() == 6 && name@[3] == '1' && name@[4] == '5' && name@[5] == 'b');
        day15::day15b(input)
    }     else if same_text(name, "day17b") {
        assert(name@.len() == 6 && name@[3] == '1' && name@[4] == '7' && name@[5] == 'b');
        day17::day17b(input)
    } else {
        None
    }
}

} // verus!
