use grid_puzzles::year_2024::day3::Instr;
use grid_puzzles::year_2024::{day1, day2, day3, day4};

const DAY1_EXAMPLE: &str = "3   4\n4   3\n2   5\n1   3\n3   9\n3   3\n";

#[test]
fn day1_test_example_1_of_2024() {
    assert_eq!(day1::day1(DAY1_EXAMPLE), Some(11));
}

#[test]
fn day1_test_example_1b_of_2024() {
    assert_eq!(day1::day1b(DAY1_EXAMPLE), Some(31));
}

#[test]
fn day1_scores_on_pairs() {
    assert_eq!(day1::sorted_error_sum(vec![(1, 10), (5, 2)]), Some(1 + 5));
    assert_eq!(day1::sorted_error_sum(vec![]), Some(0));
    assert_eq!(day1::sorted_error_sum(vec![(i64::MIN, i64::MAX)]), None);
    assert_eq!(day1::sorted_error_sum(vec![(i64::MIN, 0)]), None);
    assert_eq!(day1::sorted_error_sum(vec![(i64::MIN + 1, 0)]), Some(i64::MAX));
    assert_eq!(day1::similarity_score(vec![(3, 3), (3, 3), (4, 3)]), Some(3 * 2 * 3));
    assert_eq!(day1::similarity_score(vec![(-2, -2), (7, -2)]), Some(-4));
    assert_eq!(day1::similarity_score(vec![]), Some(0));
    assert_eq!(day1::similarity_score(vec![(i64::MAX, i64::MAX), (i64::MAX, 0)]), None);
    assert_eq!(day1::distance_between(3, 9), Some(6));
    assert_eq!(day1::count_of(&vec![1, 2, 1, 1], 1), 3);
    assert_eq!(day1::day1("1 2 3\n"), None);
    assert_eq!(day1::day1("1 x\n"), None);
    assert_eq!(day1::day1b("\n"), None);
}

const DAY2_EXAMPLE: &str = "7 6 4 2 1\n1 2 7 8 9\n9 7 6 2 1\n1 3 2 4 5\n8 6 4 4 1\n1 3 6 7 9\n";

#[test]
fn day2_test_example() {
    assert_eq!(day2::day2(DAY2_EXAMPLE), Some(2));
}

#[test]
fn day2_test_example_b() {
    assert_eq!(day2::day2b(DAY2_EXAMPLE), Some(4));
}

#[test]
fn day2_single_reports() {
    assert!(day2::record_is_safe(&vec![7, 6, 4, 2, 1]));
    assert!(!day2::record_is_safe(&vec![1, 2, 7, 8, 9]));
    assert!(!day2::record_is_safe(&vec![8, 6, 4, 4, 1]));
    assert!(day2::record_is_safe(&vec![5]));
    assert!(day2::record_is_safe(&vec![1, 4]));
    assert!(!day2::record_is_safe(&vec![1, 5]));
    assert!(!day2::record_is_safe(&vec![i64::MIN, i64::MAX]));
    assert!(!day2::record_is_kinda_safe(&vec![1, 2, 7, 8, 9]));
    assert!(day2::record_is_kinda_safe(&vec![1, 3, 2, 4, 5]));
    assert!(day2::record_is_kinda_safe(&vec![8, 6, 4, 4, 1]));
    assert!(day2::record_is_kinda_safe(&vec![1, 9]));
    assert!(day2::record_is_kinda_safe(&vec![9, 1, 2, 3]));
    assert!(day2::record_is_kinda_safe(&vec![1, 2, 3, 9]));
    assert!(!day2::record_is_kinda_safe(&vec![1, 9, 1, 9]));
    assert_eq!(day2::total_safe(vec![vec![1, 2], vec![]]), None);
    assert_eq!(day2::total_kinda_safe(vec![vec![], vec![1, 2]]), None);
    assert_eq!(day2::total_safe(vec![]), Some(0));
    assert_eq!(day2::day2("1 2\n\n"), None);
    assert_eq!(day2::day2("1 b\n"), None);
}

#[test]
fn day3_test_example() {
    let text = "xmul(2,4)%&mul[3,7]!@^do_not_mul(5,5)+mul(32,64]then(mul(11,8)mul(8,5))\n";
    assert_eq!(day3::day3(text), Some(161));
}

#[test]
fn day3_test_example_b() {
    let text = "xmul(2,4)&mul[3,7]!^don't()_mul(5,5)+mul(32,64](mul(11,8)undo()?mul(8,5))\n";
    assert_eq!(day3::day3b(text), Some(48));
}

fn record(fields: &[&str]) -> Vec<String> {
    fields.iter().map(|f| f.to_string()).collect()
}

#[test]
fn day3_instructions_from_records() {
    assert_eq!(day3::parse_instr(&record(&["do()"])), Some(Instr::Do));
    assert_eq!(day3::parse_instr(&record(&["don't()"])), Some(Instr::Dont));
    assert_eq!(day3::parse_instr(&record(&["mul(2,4)", "2", "4"])), Some(Instr::Mul(2, 4)));
    assert_eq!(day3::parse_instr(&record(&["mul(2,4)", "2"])), None);
    assert_eq!(day3::parse_instr(&record(&[])), None);
    assert_eq!(day3::parse_mul(&record(&["do()"])), None);
    let records = vec![
        record(&["mul(2,3)", "2", "3"]),
        record(&["don't()"]),
        record(&["mul(5,5)", "5", "5"]),
        record(&["do()"]),
        record(&["mul(1,7)", "1", "7"]),
    ];
    assert_eq!(day3::run_records(true, 100, &records, true), Some((true, 113)));
    assert_eq!(day3::run_records(false, 100, &records, true), Some((true, 107)));
    assert_eq!(day3::run_records(true, 0, &records, false), None);
    let big = vec![record(&["mul", "65536", "65536"])];
    assert_eq!(day3::run_records(true, 0, &big, true), None);
    assert_eq!(day3::run_records(false, 0, &big, true), Some((false, 0)));
    let full = vec![record(&["mul", "1", "1"])];
    assert_eq!(day3::run_records(true, i32::MAX, &full, false), None);
    assert_eq!(day3::day3b("don't()\nmul(2,2)\ndo()mul(3,3)\n"), Some(9));
}

const DAY4_EXAMPLE: &str = "\
MMMSXXMASM
MSAMXMSMSA
AMXSXMAAMM
MSAMASMSMX
XMASAMXAMM
XXAMMXXAMA
SMSMSASXSS
SAXAMASAAA
MAMMMXMMMM
MXMXAXMASX
";

#[test]
fn day4_test_example() {
    assert_eq!(day4::day4(DAY4_EXAMPLE), Some(18));
}

#[test]
fn day4_test_example_b() {
    assert_eq!(day4::day4b(DAY4_EXAMPLE), Some(9));
}

#[test]
fn day4_search_lines_of_a_small_grid() {
    let lines = day4::all_search_lines("123\n456\n789\n".to_string()).unwrap();
    let expected = vec![
        "123\n456\n789\n",
        "\n987\n654\n321",
        "147",
        "741",
        "258",
        "852",
        "369",
        "963",
        "159",
        "951",
        "26\n",
        "\n62",
        "3\n",
        "\n3",
        "\n7",
        "7\n",
        "48",
        "84",
        "1\n68",
        "86\n1",
        "24\n9",
        "9\n42",
        "357\n",
        "\n753",
    ];
    assert_eq!(lines, expected);
    assert_eq!(day4::all_search_lines("123".to_string()), None);
    assert_eq!(day4::all_search_lines("12\n".to_string()), None);
    assert_eq!(day4::find_words("XMAS\nSAMX\n".to_string()), Some(2));
}

#[test]
fn day4_counts_overlapping_words() {
    let lines = vec!["aaaa".to_string(), "aa".to_string(), "a".to_string()];
    assert_eq!(day4::count_word_in_lines(lines.clone(), "aa"), Some(4));
    assert_eq!(day4::count_word_in_lines(lines.clone(), "aaaaa"), Some(0));
    assert_eq!(day4::count_word_in_lines(lines, ""), None);
    assert!(day4::has_word_at(&vec!['x', 'a', 'b'], &vec!['a', 'b'], 1));
    assert!(!day4::has_word_at(&vec!['x', 'a', 'b'], &vec!['a', 'b'], 2));
    assert!(!day4::has_word_at(&vec!['x', 'a', 'b'], &vec!['a', 'b'], usize::MAX));
}

#[test]
fn day4_sliding_windows_go_column_by_column() {
    let grid = vec!["abc".to_string(), "def".to_string(), "ghi".to_string()];
    assert_eq!(
        day4::sliding_windows(grid.clone(), 2, 2),
        Some(vec![
            vec!["ab".to_string(), "de".to_string()],
            vec!["de".to_string(), "gh".to_string()],
            vec!["bc".to_string(), "ef".to_string()],
            vec!["ef".to_string(), "hi".to_string()],
        ])
    );
    assert_eq!(day4::sliding_windows(grid.clone(), 3, 3).unwrap().len(), 1);
    assert_eq!(day4::sliding_windows(grid.clone(), 4, 1), None);
    assert_eq!(day4::sliding_windows(grid.clone(), 1, 4), None);
    assert_eq!(day4::sliding_windows(vec![], 1, 1), None);
    assert_eq!(day4::sliding_windows(vec!["abc".to_string(), "de".to_string()], 1, 1), None);
    assert_eq!(day4::sliding_windows(grid, 3, 0).unwrap(), vec![Vec::<String>::new(); 4]);
    assert_eq!(day4::count_x_mas_s(vec!["M.S".into(), ".A.".into(), "M.S".into()]), Some(1));
    assert_eq!(day4::count_x_mas_s(vec!["M.S".into(), ".A.".into(), "S.M".into()]), Some(0));
    assert_eq!(day4::count_x_mas_s(vec!["M.S".into(), ".A.".into()]), None);
}
