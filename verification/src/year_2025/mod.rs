//! Puzzles of the 2025 series.

use crate::common::text::same_text;
use vstd::prelude::*;

pub mod day1;
pub mod day3;
pub mod day5;
pub mod day6;
pub mod day7;

verus! {

/// Runs the solver with the given name on the puzzle text. `None` for a
/// name that no solver has, and where the solver gives `None`.
pub fn run_solution(name: &str, input: &str) -> (r: Option<i64>)
    ensures
        name@ == "day1a"@ ==> day1::is_solution_a(input@, r),
        name@ == "day1b"@ ==> day1::is_solution_b(input@, r),
        name@ == "day3a"@ ==> day3::is_solution_a(input@, r),
        name@ == "day3b"@ ==> day3::is_solution_b(input@, r),
        name@ == "day5a"@ ==> day5::is_solution_a(input@, r),
        name@ == "day5b"@ ==> day5::is_solution_b(input@, r),
        name@ == "day6a"@ ==> day6::is_solution_a(input@, r),
        name@ == "day6b"@ ==> day6::is_solution_b(input@, r),
        name@ == "day7a"@ ==> day7::is_solution_a(input@, r),
        name@ == "day7b"@ ==> day7::is_solution_b(input@, r),
        !(name@ == "day1a"@ || name@ == "day1b"@ || name@ == "day3a"@ || name@ == "day3b"@ || name@ == "day5a"@ || name@ == "day5b"@ || name@ == "day6a"@ || name@ == "day6b"@ || name@ == "day7a"@ || name@ == "day7b"@) ==> r is None,
{
    proof {
        reveal_strlit("day1a");
        reveal_strlit("day1b");
        reveal_strlit("day3a");
        reveal_strlit("day3b");
        reveal_strlit("day5a");
        reveal_strlit("day5b");
        reveal_strlit("day6a");
        reveal_strlit("day6b");
        reveal_strlit("day7a");
        reveal_strlit("day7b");
    }
    if same_text(name, "day1a") {
        assert(name@[3] == '1' && name@[4] == 'a');
        day1::solution_a(input)
    } else if same_text(name, "day1b") {
        assert(name@[3] == '1' && name@[4] == 'b');
        day1::solution_b(input)
    } else if same_text(name, "day3a") {
        assert(name@[3] == '3' && name@[4] == 'a');
        day3::solution_a(input)
    } else if same_text(name, "day3b") {
        assert(name@[3] == '3' && name@[4] == 'b');
        day3::solution_b(input)
    } else if same_text(name, "day5a") {
        assert(name@[3] == '5' && name@[4] == 'a');
        day5::solution_a(input)
    } else if same_text(name, "day5b") {
        assert(name@[3] == '5' && name@[4] == 'b');
        day5::solution_b(input)
    } else if same_text(name, "day6a") {
        assert(name@[3] == '6' && name@[4] == 'a');
        day6::solution_a(input)
    } else if same_text(name, "day6b") {
        assert(name@[3] == '6' && name@[4] == 'b');
        day6::solution_b(input)
    } else if same_text(name, "day7a") {
        assert(name@[3] == '7' && name@[4] == 'a');
        day7::solution_a(input)
    } else if same_text(name, "day7b") {
        assert(name@[3] == '7' && name@[4] == 'b');
        day7::solution_b(input)
    } else {
        None
    }
}

} // verus!
