use grid_puzzles::year_2024::day13::{
    parse_puzzles, read_input, shift_prize, total_cost, Puzzle, PRIZE_SHIFT,
};

const MACHINES: &str = "Button A: X+94, Y+34\nButton B: X+22, Y+67\nPrize: X=8400, Y=5400\n\nButton A: X+26, Y+66\nButton B: X+67, Y+21\nPrize: X=12748, Y=12176\n";

fn record(fields: &[&str]) -> Vec<String> {
    fields.iter().map(|s| s.to_string()).collect()
}

#[test]
fn day13_reads_machines_in_order() {
    let puzzles = read_input(MACHINES).unwrap();
    assert_eq!(
        puzzles,
        vec![
            Puzzle { buttons: ((94, 34), (22, 67)), prize: (8400, 5400) },
            Puzzle { buttons: ((26, 66), (67, 21)), prize: (12748, 12176) },
        ]
    );
}

#[test]
fn day13_text_without_machines_gives_an_empty_list() {
    assert_eq!(read_input("nothing here\n"), Some(vec![]));
    assert_eq!(read_input(""), Some(vec![]));
}

#[test]
fn day13_record_needs_seven_fields_of_numbers() {
    let good = record(&["whole", "1", "2", "3", "4", "5", "6"]);
    assert_eq!(
        parse_puzzles(&vec![good.clone()]),
        Some(vec![Puzzle { buttons: ((1, 2), (3, 4)), prize: (5, 6) }])
    );
    let short = record(&["whole", "1", "2", "3", "4", "5"]);
    assert_eq!(parse_puzzles(&vec![good.clone(), short]), None);
    let wordy = record(&["whole", "1", "2", "x", "4", "5", "6"]);
    assert_eq!(parse_puzzles(&vec![wordy]), None);
    let huge = record(&["whole", "1", "2", "3", "4", "5", "9223372036854775808"]);
    assert_eq!(parse_puzzles(&vec![huge]), None);
    assert_eq!(parse_puzzles(&vec![]), Some(vec![]));
}

#[test]
fn day13_shifted_prize_lies_further_away() {
    let near = Puzzle { buttons: ((94, 34), (22, 67)), prize: (8400, 5400) };
    assert_eq!(PRIZE_SHIFT, 10_000_000_000_000);
    assert_eq!(
        shift_prize(&near),
        Some(Puzzle { buttons: ((94, 34), (22, 67)), prize: (10000000008400, 10000000005400) })
    );
    let edge = Puzzle { buttons: ((1, 1), (1, 2)), prize: (i64::MAX - PRIZE_SHIFT, 0) };
    assert_eq!(shift_prize(&edge).unwrap().prize, (i64::MAX, PRIZE_SHIFT));
    let far = Puzzle { buttons: ((1, 1), (1, 2)), prize: (0, i64::MAX - PRIZE_SHIFT + 1) };
    assert_eq!(shift_prize(&far), None);
}

#[test]
fn day13_total_skips_machines_without_a_cost() {
    assert_eq!(total_cost(&vec![Some(280), None, Some(200), None]), Some(480));
    assert_eq!(total_cost(&vec![]), Some(0));
    assert_eq!(total_cost(&vec![None, None]), Some(0));
    assert_eq!(total_cost(&vec![Some(i64::MAX), Some(-1), Some(1)]), Some(i64::MAX));
    assert_eq!(total_cost(&vec![Some(i64::MAX), Some(1), Some(-1)]), None);
}
