use grid_puzzles::common::arith::{add_checked, min_checked, mul_checked, product_i64, sum_i64};
use grid_puzzles::common::arraylike::{transpose, transpose_strings};
use grid_puzzles::common::distinct::{contains, count_distinct, distinct, insert};
use grid_puzzles::common::grid_board::Xy;
use grid_puzzles::common::parsing::{
    parse_as_i32s, parse_as_ii, parse_digit, parse_digit_row, parse_i32, parse_i64, parse_u16,
    parse_u32, parse_u64, parse_usize, push_decimal, push_signed, read_regex_records,
    split_records, stride_text,
};
use grid_puzzles::common::sorting::sort_by_rank;
use grid_puzzles::common::text::{
    chars_of, same_text, split_chars, split_lines, split_on_char, string_of,
};

#[test]
fn test_transpose() {
    let data = vec![vec![1, 2, 3], vec![4, 5, 6]];
    let transposed = transpose(&data);
    assert_eq!(transposed, vec![vec![1, 4], vec![2, 5], vec![3, 6],]);
}

#[test]
fn test_transpose_strings() {
    let data = vec!["abc", "def"];
    let transposed = transpose_strings(&data);
    assert_eq!(transposed, vec!["ad", "be", "cf",]);
}

#[test]
fn transpose_of_ragged_rows() {
    let data = vec![vec![1], vec![2, 3, 4], vec![], vec![5, 6]];
    assert_eq!(transpose(&data), vec![vec![1, 2, 5], vec![3, 6], vec![4]]);
    assert_eq!(transpose(&Vec::<Vec<u8>>::new()), Vec::<Vec<u8>>::new());
    assert_eq!(transpose_strings(&["ab", "", "cde"]), vec!["ac", "bd", "e"]);
}

fn records(rows: &[&[&str]]) -> Vec<Vec<String>> {
    rows.iter().map(|r| r.iter().map(|f| f.to_string()).collect()).collect()
}

#[test]
fn parse_records_of_numbers() {
    assert_eq!(
        parse_as_ii(records(&[&["3", "4"], &["-1", "+7"]])),
        Some(vec![(3, 4), (-1, 7)])
    );
    assert_eq!(parse_as_ii(records(&[&["3", "4", "5"]])), None);
    assert_eq!(parse_as_ii(records(&[&["3"]])), None);
    assert_eq!(parse_as_ii(records(&[&["3", "x"]])), None);
    assert_eq!(parse_as_ii(records(&[])), Some(vec![]));
    assert_eq!(
        parse_as_i32s(records(&[&["7", "6", "4"], &[], &["-2"]])),
        Some(vec![vec![7, 6, 4], vec![], vec![-2]])
    );
    assert_eq!(parse_as_i32s(records(&[&["7", "6.5"]])), None);
}

#[test]
fn parse_single_numbers() {
    assert_eq!(parse_i64("0"), Some(0));
    assert_eq!(parse_i64("-0"), Some(0));
    assert_eq!(parse_i64("+12"), Some(12));
    assert_eq!(parse_i64("007"), Some(7));
    assert_eq!(parse_i64("9223372036854775807"), Some(i64::MAX));
    assert_eq!(parse_i64("-9223372036854775808"), Some(i64::MIN));
    assert_eq!(parse_i64("9223372036854775808"), None);
    assert_eq!(parse_i64(""), None);
    assert_eq!(parse_i64("-"), None);
    assert_eq!(parse_i64("+"), None);
    assert_eq!(parse_i64("1 "), None);
    assert_eq!(parse_i64("1_0"), None);
    assert_eq!(parse_i64("--1"), None);
    assert_eq!(parse_i32("2147483647"), Some(i32::MAX));
    assert_eq!(parse_i32("2147483648"), None);
    assert_eq!(parse_i32("-2147483648"), Some(i32::MIN));
    assert_eq!(parse_u64("18446744073709551615"), Some(u64::MAX));
    assert_eq!(parse_u64("18446744073709551616"), None);
    assert_eq!(parse_u64("-0"), None);
    assert_eq!(parse_u64("-1"), None);
    assert_eq!(parse_u64("+5"), Some(5));
    assert_eq!(parse_u32("4294967295"), Some(u32::MAX));
    assert_eq!(parse_u32("4294967296"), None);
    assert_eq!(parse_u16("65535"), Some(u16::MAX));
    assert_eq!(parse_u16("65536"), None);
    assert_eq!(parse_u16("x"), None);
    assert_eq!(parse_usize("42"), Some(42));
    assert_eq!(parse_usize("-42"), None);
    for text in ["12", "-7", "+3", "", "a", "99999999999999999999", "-", "0x10", "٣"] {
        assert_eq!(parse_i64(text), text.parse::<i64>().ok());
        assert_eq!(parse_u64(text), text.parse::<u64>().ok());
        assert_eq!(parse_i32(text), text.parse::<i32>().ok());
        assert_eq!(parse_u16(text), text.parse::<u16>().ok());
    }
}

#[test]
fn parse_digits() {
    assert_eq!(parse_digit('0'), Some(0));
    assert_eq!(parse_digit('9'), Some(9));
    assert_eq!(parse_digit('a'), None);
    assert_eq!(parse_digit('+'), None);
    assert_eq!(parse_digit('٣'), None);
    assert_eq!(parse_digit_row("0189"), Some(vec![0, 1, 8, 9]));
    assert_eq!(parse_digit_row(""), Some(vec![]));
    assert_eq!(parse_digit_row("01x"), None);
}

#[test]
fn write_numbers_in_decimal() {
    let mut out = vec!['#'];
    push_decimal(&mut out, 0);
    push_decimal(&mut out, 907);
    push_signed(&mut out, -45);
    push_signed(&mut out, 6);
    assert_eq!(string_of(&out), "#0907-456");
    let mut big = Vec::new();
    push_decimal(&mut big, u64::MAX);
    assert_eq!(string_of(&big), u64::MAX.to_string());
    let mut low = Vec::new();
    push_signed(&mut low, i64::MIN);
    assert_eq!(string_of(&low), i64::MIN.to_string());
}

#[test]
fn stride_text_takes_every_nth_character() {
    assert_eq!(stride_text("123\n456\n789\n", 0, 4), "147");
    assert_eq!(stride_text("123\n456\n789\n", 2, 4), "369");
    assert_eq!(stride_text("123\n456\n789\n", 0, 5), "159");
    assert_eq!(stride_text("abcdef", 5, 1), "f");
    assert_eq!(stride_text("abcdef", 1, 100), "b");
    assert_eq!(stride_text("abcdef", 0, 1), "abcdef");
    assert_eq!(stride_text("abcdef", 3, usize::MAX), "d");
}

#[test]
fn regex_records_drop_groups_that_took_no_part() {
    let found = read_regex_records("3-5 12 7-9", "(\\d+)(?:-(\\d+))?").unwrap();
    assert_eq!(
        found,
        vec![vec!["3-5", "3", "5"], vec!["12", "12"], vec!["7-9", "7", "9"]]
    );
    assert_eq!(read_regex_records("abc", "(\\d+)").unwrap(), Vec::<Vec<String>>::new());
    assert!(read_regex_records("abc", "(\\d+").is_none());
}

#[test]
fn split_text_into_lines_and_fields() {
    assert_eq!(split_lines("a\nb\r\n\nc"), vec!["a", "b", "", "c"]);
    assert_eq!(split_lines("a\nb\n"), vec!["a", "b"]);
    assert_eq!(split_lines(""), Vec::<String>::new());
    assert_eq!(split_lines("\n"), vec![""]);
    assert_eq!(split_lines("a\r"), vec!["a\r"]);
    assert_eq!(split_lines("a\r\r\n"), vec!["a\r"]);
    for text in ["", "\n", "x", "x\n", "x\r\ny", "\r\n\r\n", "a\n\nb\n\n", "a\rb\n"] {
        let expected: Vec<String> = text.lines().map(String::from).collect();
        assert_eq!(split_lines(text), expected);
    }
    assert_eq!(split_on_char("a|b||c", '|'), vec!["a", "b", "", "c"]);
    assert_eq!(split_on_char("", '|'), vec![""]);
    assert_eq!(split_on_char("|", '|'), vec!["", ""]);
    assert_eq!(split_on_char("abc", '|'), vec!["abc"]);
    assert_eq!(
        split_chars(&vec!['1', ',', '2'], ','),
        vec![vec!['1'], vec!['2']]
    );
    let lines = vec!["3   4".to_string(), "".to_string(), " 1\t2 3 ".to_string()];
    assert_eq!(
        split_records(&lines),
        vec![vec!["3", "4"], vec![], vec!["1", "2", "3"]]
    );
    assert_eq!(chars_of("héllo"), vec!['h', 'é', 'l', 'l', 'o']);
    assert_eq!(string_of(&vec!['h', 'é']), "hé");
    assert!(same_text("abc", "abc"));
    assert!(!same_text("abc", "abd"));
    assert!(!same_text("abc", "ab"));
    assert!(same_text("", ""));
}

#[test]
fn sort_and_distinct() {
    assert_eq!(sort_by_rank(&vec![3i64, -1, 3, 0, i64::MIN, i64::MAX]), vec![
        i64::MIN,
        -1,
        0,
        3,
        3,
        i64::MAX
    ]);
    assert_eq!(sort_by_rank(&Vec::<i64>::new()), Vec::<i64>::new());
    let items = vec![Xy::new(1, 2), Xy::new(0, 0), Xy::new(1, 2), Xy::new(2, 1), Xy::new(0, 0)];
    assert_eq!(distinct(&items), vec![Xy::new(1, 2), Xy::new(0, 0), Xy::new(2, 1)]);
    assert_eq!(count_distinct(&items), 3);
    assert!(contains(&items, &Xy::new(2, 1)));
    assert!(!contains(&items, &Xy::new(2, 2)));
    let mut set = vec![5usize];
    insert(&mut set, 5);
    insert(&mut set, 6);
    assert_eq!(set, vec![5, 6]);
}

#[test]
fn checked_arithmetic() {
    assert_eq!(sum_i64(&vec![1, 2, 3]), Some(6));
    assert_eq!(sum_i64(&vec![]), Some(0));
    assert_eq!(sum_i64(&vec![i64::MAX, 1, -1]), None);
    assert_eq!(sum_i64(&vec![i64::MAX, -1, 1]), Some(i64::MAX));
    assert_eq!(product_i64(&vec![2, 3, 4]), Some(24));
    assert_eq!(product_i64(&vec![]), Some(1));
    assert_eq!(product_i64(&vec![i64::MAX, 2, 0]), None);
    assert_eq!(add_checked(Some(2), Some(3)), Some(5));
    assert_eq!(add_checked(Some(i64::MAX), Some(1)), None);
    assert_eq!(add_checked(None, Some(1)), None);
    assert_eq!(mul_checked(Some(-4), Some(5)), Some(-20));
    assert_eq!(mul_checked(Some(i64::MIN), Some(-1)), None);
    assert_eq!(min_checked(Some(3), Some(-3)), Some(-3));
    assert_eq!(min_checked(Some(3), None), None);
}
