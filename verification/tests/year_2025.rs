use grid_puzzles::year_2025::{day1, day3, day5, day7};

const DAY1_EXAMPLE: &str = "L68\nL30\nR48\nL5\nR60\nL55\nL1\nL99\nR14\nL82\n";

const DAY3_EXAMPLE: &str =
    "987654321111111\n811111111111119\n234234234234278\n818181911112111\n";

const DAY5_EXAMPLE: &str = "3-5\n10-14\n16-20\n12-18\n\n1\n5\n8\n11\n17\n32\n";

const DAY7_EXAMPLE: &str = "\
.......S.......
...............
.......^.......
...............
......^.^......
...............
.....^.^.^.....
...............
....^.^...^....
...............
...^.^...^.^...
...............
..^...^.....^..
...............
.^.^.^.^.^...^.
...............
";

#[test]
fn day1_test_example_1() {
    assert_eq!(day1::solution_a(DAY1_EXAMPLE), Some(3));
}

#[test]
fn day1_test_example_1b() {
    assert_eq!(day1::solution_b(DAY1_EXAMPLE), Some(6));
}

#[test]
fn day1_count_clicks_values() {
    assert_eq!(day1::count_clicks(50, -68), (0, 1));
    assert_eq!(day1::count_clicks(52, 48), (1, 1));
    assert_eq!(day1::count_clicks(0, -5), (0, 0));
    assert_eq!(day1::count_clicks(50, 1000), (0, 10));
    assert_eq!(day1::count_clicks(50, 250), (1, 3));
    assert_eq!(day1::count_clicks(1, -201), (1, 3));
    assert_eq!(day1::count_clicks(0, 0), (1, 0));
}

#[test]
fn day1_rejects_text_that_is_no_turn() {
    let actions = day1::read_input("L12 R7").unwrap();
    assert_eq!(actions.len(), 2);
    assert_eq!(actions[0], day1::Action { direction: day1::Lr::Left, distance: 12 });
    assert_eq!(actions[1], day1::Action { direction: day1::Lr::Right, distance: 7 });
    assert_eq!(day1::solution_a("L99999999999"), None);
    assert_eq!(day1::day1(""), Some((0, 0)));
}

#[test]
fn day3_test_example_1() {
    assert_eq!(day3::solution_a(DAY3_EXAMPLE), Some(357));
}

#[test]
fn day3_test_example_1b() {
    assert_eq!(day3::solution_b(DAY3_EXAMPLE), Some(3121910778619));
}

#[test]
fn day3_compute_power_edge_cases() {
    let batteries = vec![vec![1, 9, 2], vec![9, 9, 1]];
    assert_eq!(day3::compute_power(&batteries, 1), Some(18));
    assert_eq!(day3::compute_power(&batteries, 2), Some(92 + 99));
    assert_eq!(day3::compute_power(&batteries, 3), Some(192 + 991));
    assert_eq!(day3::compute_power(&batteries, 4), None);
    assert_eq!(day3::compute_power(&batteries, 0), Some(0));
    assert_eq!(day3::compute_power(&vec![vec![9; 30]], 30), None);
    assert_eq!(day3::solution_a("12a\n"), None);
}

#[test]
fn day5_test_example() {
    assert_eq!(day5::solution_a(DAY5_EXAMPLE), Some(3));
}

#[test]
fn day5_test_example_b() {
    assert_eq!(day5::solution_b(DAY5_EXAMPLE), Some(14));
}

#[test]
fn day5_sweep_counts_touching_and_nested_ranges() {
    let ranges = vec![
        day5::IdRange { start: 5, end: 5 },
        day5::IdRange { start: 1, end: 3 },
        day5::IdRange { start: 3, end: 4 },
        day5::IdRange { start: 10, end: 20 },
        day5::IdRange { start: 12, end: 13 },
    ];
    let ids = vec![0, 1, 4, 5, 6, 20, 21];
    assert_eq!(day5::count_fresh(&ranges, &ids), 4);
    let inventory = day5::Inventory { ranges, ids };
    assert_eq!(day5::solve(&inventory), Some((4, 3 + 1 + 1 + 11)));
    let whole = day5::Inventory {
        ranges: vec![day5::IdRange { start: 0, end: usize::MAX }],
        ids: vec![],
    };
    assert_eq!(day5::solve(&whole), None);
}

#[test]
fn day7_test_example() {
    assert_eq!(day7::solution_a(DAY7_EXAMPLE), Some(21));
}

#[test]
fn day7_test_example_b() {
    assert_eq!(day7::solution_b(DAY7_EXAMPLE), Some(40));
}

#[test]
fn day7_small_boards() {
    assert_eq!(day7::solutions(".S.\n...\n.^.\n...\n"), Some((1, 2)));
    assert_eq!(day7::solutions(".S.\n...\n"), Some((0, 1)));
    assert_eq!(day7::solutions("S\n.\n"), None);
    assert_eq!(day7::solutions(".S.\n..\n"), None);
    assert_eq!(day7::solutions(".S.\n.x.\n"), None);
    assert_eq!(day7::solutions("S..\n^..\n...\n"), None);
}

#[test]
fn day7_iterate_draws_one_step() {
    let board = day7::read_input(".S.\n...\n.^.\n...\n").unwrap();
    let once = day7::iterate(&board);
    assert_eq!(once.to_strings(), vec![".S.", ".|.", "|^|", "|.|"]);
    let tall = day7::read_input(".S.\n...\n...\n...\n").unwrap();
    let first = day7::iterate(&tall);
    assert_eq!(first.to_strings(), vec![".S.", ".|.", ".|.", "..."]);
    let second = day7::iterate(&first);
    assert_eq!(second.to_strings(), vec![".S.", ".|.", ".|.", ".|."]);
    let settled = day7::iterate_until_stable(&board);
    assert_eq!(settled.to_strings(), vec![".S.", ".|.", "|^|", "|.|"]);
    assert!(day7::iterate(&settled).same_as(&settled));
}
