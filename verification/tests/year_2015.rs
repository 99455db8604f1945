use grid_puzzles::year_2015::day7::Op;
use grid_puzzles::year_2015::day7::Value::Literal;
use grid_puzzles::year_2015::{day2, day3, day4, day5, day7};

#[test]
fn day2_test_example_1() {
    assert_eq!(day2::solution_a("2x3x4\n1x1x10\n"), Some(101));
}

#[test]
fn day2_test_example_1b() {
    assert_eq!(day2::solution_b("2x3x4\n1x1x10\n"), Some(48));
}

#[test]
fn day2_paper_and_ribbon_for_one_present() {
    let present = day2::Package { length: 2, width: 3, height: 4 };
    assert_eq!(day2::paper_for(&present), Some(58));
    assert_eq!(day2::ribbon_for(&present), Some(34));
    let thin = day2::Package { length: 1, width: 1, height: 10 };
    assert_eq!(day2::paper_for(&thin), Some(43));
    assert_eq!(day2::ribbon_for(&thin), Some(14));
    let huge = day2::Package { length: i64::MAX, width: 2, height: 1 };
    assert_eq!(day2::paper_for(&huge), None);
    assert_eq!(day2::ribbon_for(&huge), None);
    assert_eq!(day2::day1(""), Some((0, 0)));
    assert_eq!(day2::day1("99999999999999999999x1x1"), None);
}

#[test]
fn day3_test_example_a() {
    assert_eq!(day3::solution_a(">^>v<^v^v^v^v^v"), Some(5));
}

#[test]
fn day3_test_example_b_of_2015() {
    assert_eq!(day3::solution_b(">^>v<^v^v^v^v^v"), Some(13));
}

#[test]
fn day3_single_examples() {
    assert_eq!(day3::solution_a(">"), Some(2));
    assert_eq!(day3::solution_a("^>v<"), Some(4));
    assert_eq!(day3::solution_a("^v^v^v^v^v"), Some(2));
    assert_eq!(day3::solution_b("^v"), Some(3));
    assert_eq!(day3::solution_b("^>v<"), Some(3));
    assert_eq!(day3::solution_b("^v^v^v^v^v"), Some(11));
    assert_eq!(day3::multi_day3("", 0), Some(1));
    assert_eq!(day3::multi_day3("^", 0), None);
    assert_eq!(day3::multi_day3("^x", 1), None);
    assert_eq!(day3::multi_day3("^\n", 1), None);
}

#[test]
fn day4_test_example_a() {
    assert_eq!(day4::solution_a("abcdef"), Some(609043));
}

#[test]
fn day4_test_example_b_of_2015() {
    assert_eq!(day4::solution_b("abcdef"), Some(6742839));
}

#[test]
fn day4_digest_checks() {
    assert_eq!(day4::solution("pqrstuv", 5), Some(1048970));
    assert_eq!(day4::solution("abcdef", 0), Some(0));
    assert_eq!(day4::solution("abcdef", 1), Some(31));
    assert!(day4::is_hit("000001dbbfa", 5));
    assert!(!day4::is_hit("000001dbbfa", 6));
    assert!(!day4::is_hit("00", 3));
    assert!(day4::is_hit("", 0));
    assert_eq!(day4::candidate(&vec!['a', 'b'], 0), "ab0");
    assert_eq!(day4::candidate(&vec!['a', 'b'], 609043), "ab609043");
    assert_eq!(day4::candidate(&vec![], i64::MAX), "9223372036854775807");
}

const DAY5_EXAMPLE_A: &str =
    "ugknbfddgicrmopn\naaa\njchzalrnumimnmhp\nhaegwjzuvuyypxyu\ndvszwmarrgswjxmb\n";

const DAY5_EXAMPLE_B: &str = "qjhvhtzxzqqjkmpb\nxxyxx\nuurcxstgmygtbstg\nieodomkazucvgmuy\n";

#[test]
fn day5_test_example_a() {
    assert_eq!(day5::solution_a(DAY5_EXAMPLE_A), Some(2));
}

#[test]
fn day5_test_example_b_of_2015() {
    assert_eq!(day5::solution_b(DAY5_EXAMPLE_B), Some(2));
}

#[test]
fn day5_single_lines() {
    assert_eq!(day5::accept_string_a("ugknbfddgicrmopn"), Some(true));
    assert_eq!(day5::accept_string_a("aaa"), Some(true));
    assert_eq!(day5::accept_string_a("jchzalrnumimnmhp"), Some(false));
    assert_eq!(day5::accept_string_a("haegwjzuvuyypxyu"), Some(false));
    assert_eq!(day5::accept_string_a("dvszwmarrgswjxmb"), Some(false));
    assert_eq!(day5::accept_string_b("qjhvhtzxzqqjkmpb"), Some(true));
    assert_eq!(day5::accept_string_b("xxyxx"), Some(true));
    assert_eq!(day5::accept_string_b("uurcxstgmygtbstg"), Some(false));
    assert_eq!(day5::accept_string_b("ieodomkazucvgmuy"), Some(false));
    assert_eq!(day5::accept_string_b("aaa"), Some(false));
}

#[test]
fn day5_verdicts_from_pattern_results() {
    let yes = Some(Some(true));
    let no = Some(Some(false));
    let gave_up = Some(None);
    assert_eq!(day5::judge_a(yes, yes, no), Some(true));
    assert_eq!(day5::judge_a(yes, yes, yes), Some(false));
    assert_eq!(day5::judge_a(no, yes, no), Some(false));
    assert_eq!(day5::judge_a(yes, no, gave_up), Some(false));
    assert_eq!(day5::judge_a(no, gave_up, gave_up), Some(false));
    assert_eq!(day5::judge_a(yes, yes, gave_up), None);
    assert_eq!(day5::judge_a(gave_up, yes, no), None);
    assert_eq!(day5::judge_a(None, yes, no), None);
    assert_eq!(day5::judge_a(no, None, no), None);
    assert_eq!(day5::judge_b(yes, yes), Some(true));
    assert_eq!(day5::judge_b(yes, no), Some(false));
    assert_eq!(day5::judge_b(no, gave_up), Some(false));
    assert_eq!(day5::judge_b(yes, gave_up), None);
    assert_eq!(day5::judge_b(yes, None), None);
    assert_eq!(day5::tally(&vec![Some(true), Some(false), Some(true)]), Some(2));
    assert_eq!(day5::tally(&vec![Some(true), None]), None);
}

fn words(line: &str) -> Vec<String> {
    line.split_whitespace().map(String::from).collect()
}

#[test]
fn day7_reads_records() {
    let text = "123 -> x\nNOT x -> h\nx AND y -> d\n\nx LSHIFT 2 -> f\n";
    let nodes = day7::read_input(text).unwrap();
    assert_eq!(nodes.len(), 4);
    assert_eq!(nodes[0].output, "x");
    assert_eq!(nodes[0].op, day7::Op::Nop);
    assert!(matches!(nodes[0].input, day7::Value::Literal(123)));
    assert_eq!(nodes[1].output, "h");
    assert_eq!(nodes[1].op, day7::Op::Not);
    assert!(matches!(&nodes[1].input, day7::Value::Label(l) if l == "x"));
    assert_eq!(nodes[2].output, "y");
    assert_eq!(nodes[2].op, day7::Op::And);
    assert!(nodes[2].extra_input.is_none());
    assert_eq!(nodes[3].op, day7::Op::Lshift);
    assert_eq!(day7::solution(text), Some((0, 0)));
    assert_eq!(day7::solution_a(text), Some(0));
    assert_eq!(day7::solution_b(text), Some(0));
    assert_eq!(day7::solution("x XOR y -> d\n"), None);
    assert_eq!(day7::solution("NOT x ->\n"), None);
    assert_eq!(day7::solution("x\n"), None);
    assert!(day7::parse_node(&words("")).unwrap().is_none());
}

fn wire(output: &str, input: day7::Value, op: day7::Op, extra: Option<day7::Value>) -> day7::Node {
    day7::Node { output: output.to_string(), input, op, extra_input: extra }
}

fn label(name: &str) -> day7::Value {
    day7::Value::Label(name.to_string())
}

#[test]
fn day7_computes_signals() {
    let nodes = vec![
        wire("x", Literal(123), Op::Nop, None),
        wire("y", Literal(456), Op::Nop, None),
        wire("d", label("x"), Op::And, Some(label("y"))),
        wire("e", label("x"), Op::Or, Some(label("y"))),
        wire("f", label("x"), Op::Lshift, Some(Literal(2))),
        wire("g", label("y"), Op::Rshift, Some(Literal(2))),
        wire("h", label("x"), Op::Not, None),
        wire("i", label("y"), Op::Not, None),
        wire("j", label("x"), Op::And, None),
        wire("k", label("x"), Op::Lshift, Some(Literal(16))),
        wire("l", label("nowhere"), Op::Nop, None),
    ];
    let expected = [
        ("d", Some(72)),
        ("e", Some(507)),
        ("f", Some(492)),
        ("g", Some(114)),
        ("h", Some(65412)),
        ("i", Some(65079)),
        ("x", Some(123)),
        ("y", Some(456)),
        ("j", None),
        ("k", None),
        ("l", None),
        ("m", None),
    ];
    for (name, signal) in expected {
        assert_eq!(day7::compute_value(&label(name), &nodes), signal);
    }
    assert_eq!(day7::compute_value(&Literal(7), &nodes), Some(7));
    assert_eq!(day7::find_source(&nodes, "e"), Some(3));
    assert_eq!(day7::find_source(&nodes, "zz"), None);
    let sources = day7::labels_to_sources(&nodes).unwrap();
    assert_eq!(sources[4], ("f".to_string(), 4));
    let looping = vec![
        wire("a", label("b"), Op::Nop, None),
        wire("b", label("a"), Op::Not, None),
    ];
    assert_eq!(day7::compute_value(&label("a"), &looping), None);
    let twice = vec![
        wire("a", Literal(1), Op::Nop, None),
        wire("a", Literal(2), Op::Nop, None),
    ];
    assert!(day7::labels_to_sources(&twice).is_none());
    assert_eq!(day7::compute_value(&Literal(7), &twice), None);
    assert_eq!(day7::apply_op(Op::Rshift, Some(0x8000), Some(15)), Some(1));
}
