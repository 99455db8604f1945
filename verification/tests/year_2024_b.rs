use grid_puzzles::common::grid_board::{Direction, Xy};
use grid_puzzles::year_2024::day16::BoardContent;
use grid_puzzles::year_2024::day17::VmState;
use grid_puzzles::year_2024::day6::{Facing, GameState};
use grid_puzzles::year_2024::day7::Operator;
use grid_puzzles::year_2024::day7::Operator::{Add, Concat, Mul};
use grid_puzzles::year_2024::day9::RleItem;
use grid_puzzles::year_2024::{day10, day14, day16, day17, day5, day6, day7, day8, day9};
use std::cmp::Ordering;

const DAY5_EXAMPLE: &str = "47|53\n97|13\n97|61\n97|47\n75|29\n61|13\n75|53\n29|13\n97|29\n53|29\n61|53\n97|53\n61|29\n47|13\n75|47\n97|75\n47|61\n75|61\n47|29\n75|13\n53|13\n\n75,47,61,53,29\n97,61,53,29,13\n75,29,13\n75,97,47,61,53\n61,13,29\n97,13,75,29,47\n";

#[test]
fn day5_test_example_of_2024() {
    assert_eq!(day5::day5(DAY5_EXAMPLE), Some(143));
}

#[test]
fn day5_test_example_b_of_2024() {
    assert_eq!(day5::day5b(DAY5_EXAMPLE), Some(123));
}

#[test]
fn day5_rules_and_updates() {
    let rules = vec![(47, 53), (97, 13), (97, 47), (75, 47), (97, 75)];
    assert!(day5::valid_update(&vec![75, 47, 53], &rules));
    assert!(!day5::valid_update(&vec![75, 97, 47], &rules));
    assert!(day5::valid_update(&vec![], &rules));
    assert!(!day5::valid_update(&vec![5], &vec![(5, 5)]));
    assert_eq!(day5::fix_update(&vec![75, 97, 47], &rules), Some(vec![97, 75, 47]));
    assert_eq!(day5::fix_update(&vec![47, 75, 97], &rules), Some(vec![97, 75, 47]));
    assert_eq!(day5::fix_update(&vec![1, 2], &vec![(1, 2), (2, 1)]), None);
    assert_eq!(day5::middle_element(&vec![1, 2, 3]), 2);
    assert_eq!(day5::middle_element(&vec![1, 2, 3, 4]), 2);
    assert_eq!(day5::middle_element(&vec![9]), 9);
    assert_eq!(day5::parse_numbers("1,22,3", ','), Some(vec![1, 22, 3]));
    assert_eq!(day5::parse_numbers("1,,3", ','), None);
    assert_eq!(day5::day5("1|2|3\n"), None);
    assert_eq!(day5::day5("1|2\n2,x\n"), None);
    assert_eq!(day5::day5("1|2\n"), Some(0));
    assert!(day5::breaks_rule(&vec![3, 1, 2], 2, 3));
    assert!(!day5::breaks_rule(&vec![3, 1, 2], 3, 2));
}

const DAY6_EXAMPLE: &str = "....#.....\n.........#\n..........\n..#.......\n.......#..\n..........\n.#..^.....\n........#.\n#.........\n......#...\n";

#[test]
fn day6_test_example() {
    assert_eq!(day6::day6(DAY6_EXAMPLE), Some(41));
}

#[test]
fn day6_test_example_b() {
    assert_eq!(day6::day6b(DAY6_EXAMPLE), Some(6));
}

fn lines(text: &str) -> Vec<String> {
    text.lines().map(String::from).collect()
}

#[test]
fn day6_guard_moves() {
    let game = GameState::from_lines(lines(".#.\n.^.\n...\n")).unwrap();
    assert_eq!(game.position, (1, 1));
    assert_eq!(game.facing, Facing::North);
    assert_eq!(game.h(), 3);
    assert_eq!(game.w(), 3);
    assert!(game.at((1, 0)));
    assert!(!game.at((1, 1)));
    assert_eq!(game.ascii_art(), ".#.\n.^.\n...\n");
    assert_eq!(game.position_forward(), Some((1, 0)));
    let turned = game.advance_game_state().unwrap();
    assert_eq!((turned.position, turned.facing), ((1, 1), Facing::East));
    let moved = turned.advance_game_state().unwrap();
    assert_eq!((moved.position, moved.facing), ((2, 1), Facing::East));
    assert_eq!(moved.position_forward(), None);
    assert!(moved.advance_game_state().is_none());
    let path = day6::visited_set(&game).unwrap();
    assert_eq!(
        path,
        vec![(Facing::North, (1, 1)), (Facing::East, (1, 1)), (Facing::East, (2, 1))]
    );
    let caged = GameState::from_lines(lines(".#.\n#^#\n.#.\n")).unwrap();
    assert!(day6::visited_set(&caged).is_none());
    assert_eq!(day6::count_visited(&caged), None);
    assert!(GameState::from_lines(lines("...\n...\n")).is_none());
    assert!(GameState::from_lines(lines("..\n.^.\n")).is_none());
    assert!(GameState::from_lines(lines("")).is_none());
    for (f, c) in [(Facing::North, '^'), (Facing::East, '>'), (Facing::South, 'v'), (Facing::West, '<')] {
        assert_eq!(f.repr(), c);
        assert_eq!(Facing::from_char(c), Some(f));
    }
    assert_eq!(Facing::from_char('x'), None);
    assert_eq!(Facing::West.clockwise(), Facing::North);
    assert_eq!(Facing::North.offset(), (0, -1));
    assert_eq!(Facing::West.offset(), (-1, 0));
    assert_eq!(GameState::detect_guard(&lines("..\n.v\n<.\n")), Some((Facing::South, (1, 1))));
    assert_eq!(GameState::create_grid(&lines("#.\n.#\n")), vec![vec![true, false], vec![false, true]]);
}

const DAY7_EXAMPLE: &str = "190: 10 19\n3267: 81 40 27\n83: 17 5\n156: 15 6\n7290: 6 8 6 15\n161011: 16 10 13\n192: 17 8 14\n21037: 9 7 18 13\n292: 11 6 16 20\n";

#[test]
fn day7_test_example_of_2024() {
    assert_eq!(day7::day7(DAY7_EXAMPLE), Some(3749));
}

#[test]
fn day7_test_example_b_of_2024() {
    assert_eq!(day7::day7b(DAY7_EXAMPLE), Some(11387));
}

#[test]
fn day7_operators() {
    assert_eq!(Operator::Add.apply(2, 3), Some(5));
    assert_eq!(Operator::Mul.apply(-2, 3), Some(-6));
    assert_eq!(Operator::Concat.apply(12, 345), Some(12345));
    assert_eq!(Operator::Concat.apply(-12, 3), Some(-123));
    assert_eq!(Operator::Concat.apply(12, 0), Some(120));
    assert_eq!(Operator::Concat.apply(12, -3), None);
    assert_eq!(Operator::Concat.apply(i64::MAX, 0), None);
    assert_eq!(Operator::Add.apply(i64::MAX, 1), None);
    assert_eq!(Operator::Mul.apply(i64::MAX, 2), None);
    assert_eq!(Operator::all_seqs(0, false), vec![Vec::<Operator>::new()]);
    assert_eq!(Operator::all_seqs(1, false), vec![vec![Add], vec![Mul]]);
    assert_eq!(
        Operator::all_seqs(2, false),
        vec![vec![Add, Add], vec![Add, Mul], vec![Mul, Add], vec![Mul, Mul]]
    );
    assert_eq!(Operator::all_seqs(1, true), vec![vec![Add], vec![Mul], vec![Concat]]);
    assert_eq!(Operator::all_seqs(3, true).len(), 27);
    assert_eq!(day7::parse_line("190: 10 19".to_string()), Some((190, vec![10, 19])));
    assert_eq!(day7::parse_line("190:10".to_string()), Some((190, vec![10])));
    assert_eq!(day7::parse_line("190: 10  19".to_string()), None);
    assert_eq!(day7::parse_line("190 10 19".to_string()), None);
    assert_eq!(day7::parse_line("1: 2: 3".to_string()), None);
    assert_eq!(day7::evaluate(&vec![6, 8, 6, 15], &vec![Mul, Concat, Mul]), Some(7290));
    assert_eq!(day7::can_make(7290, &vec![6, 8, 6, 15], true), Some(true));
    assert_eq!(day7::can_make(7290, &vec![6, 8, 6, 15], false), Some(false));
    assert_eq!(day7::can_make(5, &vec![5], false), Some(true));
    assert_eq!(day7::can_make(5, &vec![], false), None);
    assert_eq!(day7::can_make(0, &vec![i64::MAX, 2], false), None);
    assert_eq!(day7::can_make(i64::MAX, &vec![i64::MAX, 0], false), Some(true));
}

const DAY8_EXAMPLE: &str = "............\n........0...\n.....0......\n.......0....\n....0.......\n......A.....\n............\n............\n........A...\n.........A..\n............\n............\n";

#[test]
fn day8_test_example() {
    assert_eq!(day8::day8(DAY8_EXAMPLE), Some(14));
}

#[test]
fn day8_test_example_b() {
    assert_eq!(day8::day8b(DAY8_EXAMPLE), Some(34));
}

#[test]
fn day8_antennas_and_antinodes() {
    let antennas = day8::find_all_antennas(lines("a.b\n.a.\n")).unwrap();
    assert_eq!(antennas, vec![('a', (0, 0)), ('b', (2, 0)), ('a', (1, 1))]);
    let pairs = day8::find_antenna_pairs(antennas);
    assert_eq!(pairs, vec![('a', (0, 0), (1, 1))]);
    assert_eq!(
        day8::find_antinode_pairs(&pairs, 3, 3),
        vec![Xy::new(2, 2)]
    );
    assert_eq!(
        day8::find_antinode_pairs(&pairs, 2, 2),
        Vec::<Xy>::new()
    );
    assert_eq!(
        day8::find_antinode_rays(&pairs, 4, 4),
        Some(vec![Xy::new(0, 0), Xy::new(0, 0), Xy::new(1, 1), Xy::new(2, 2), Xy::new(3, 3)])
    );
    assert_eq!(day8::find_antinode_rays(&vec![('x', (1, 1), (1, 1))], 4, 4), None);
    assert_eq!(day8::find_antinode_rays(&vec![('x', (9, 9), (9, 9))], 4, 4), Some(vec![]));
    assert_eq!(day8::as_coord_scalar(7), Some(7));
    assert_eq!(day8::as_coord_scalar(usize::MAX), None);
    assert_eq!(day8::day8(""), None);
    let three = vec![('a', (0, 0)), ('a', (1, 0)), ('b', (5, 5)), ('a', (2, 0))];
    assert_eq!(
        day8::find_antenna_pairs(three),
        vec![('a', (0, 0), (1, 0)), ('a', (0, 0), (2, 0)), ('a', (1, 0), (2, 0))]
    );
}

#[test]
fn day9_test_example() {
    assert_eq!(day9::day9("2333133121414131402\n"), Some(1928));
}

fn file(id: i32, length: i32) -> RleItem {
    RleItem { id: Some(id), length }
}

fn gap(length: i32) -> RleItem {
    RleItem { id: None, length }
}

#[test]
fn day9_disk_operations() {
    let rle = day9::str_to_rle("12345").unwrap();
    assert_eq!(rle, vec![file(0, 1), gap(2), file(1, 3), gap(4), file(2, 5)]);
    assert_eq!(day9::rle_to_map_str(&rle), "0..111....22222");
    assert!(!day9::is_compact(&rle));
    assert_eq!(day9::index_of_first_empty_item(&rle), Some(1));
    assert_eq!(day9::index_of_last_nonempty_item(&rle), Some(4));
    assert!(day9::try_to_move(&rle, 1));
    assert!(!day9::try_to_move(&rle, 7));
    let mut disk = rle.clone();
    assert!(day9::move_last_nonempty_block(&mut disk));
    assert_eq!(day9::rle_to_map_str(&disk), "022111222......");
    assert!(day9::is_compact(&disk));
    assert_eq!(day9::score(&disk), Some(0 + 2 + 4 + 3 + 4 + 5 + 12 + 14 + 16));
    let mut other = rle.clone();
    assert!(day9::compact_disk(&mut other));
    assert_eq!(day9::rle_to_map_str(&other), "022111222......");
    let mut small = vec![file(0, 1), gap(1), file(1, 3)];
    assert!(!day9::write_block(&mut small, 5, 7));
    let mut exact = vec![gap(2), file(1, 1)];
    assert!(day9::write_block(&mut exact, 5, 2));
    assert_eq!(exact, vec![file(5, 2), gap(0), file(1, 1)]);
    let mut none = vec![gap(2)];
    assert!(day9::write_block(&mut none, 5, 0));
    assert_eq!(none, vec![gap(2)]);
    assert_eq!(day9::str_to_rle("12a"), None);
    assert_eq!(day9::str_to_rle(""), Some(vec![]));
    assert!(day9::is_compact(&vec![file(0, 2), gap(0), file(1, 1), gap(3)]));
    assert_eq!(day9::score(&vec![file(i32::MAX, 2)]), Some(i32::MAX as i64));
    assert_eq!(day9::score(&vec![file(i32::MAX, 3)]), None);
    assert_eq!(day9::day9b("12345\n"), Some(0 * 0 + 1 * (3 + 4 + 5) + 2 * (10 + 11 + 12 + 13 + 14)));
    assert_eq!(day9::day9(""), None);
    assert_eq!(day9::rle_to_map_str(&vec![file(-13, 2), gap(-1), file(27, 1)]), "337");
}

const DAY10_EXAMPLE: &str = "89010123\n78121874\n87430965\n96549874\n45678903\n32019012\n01329801\n10456732\n";

#[test]
fn day10_test_example() {
    assert_eq!(day10::day10(DAY10_EXAMPLE), Some(36));
}

#[test]
fn day10_test_example_b() {
    assert_eq!(day10::day10b(DAY10_EXAMPLE), Some(81));
}

#[test]
fn day10_small_maps() {
    let map = day10::make_map(&lines("0123\n1234\n8765\n9876\n")).unwrap();
    assert!(day10::check_map(&map));
    assert_eq!(day10::score_map(&map, true), Some(1));
    assert_eq!(day10::score_map(&map, false), Some(16));
    assert_eq!(day10::reachable(&map, &(3, 3)), vec![Xy::new(0, 3)]);
    let flat = day10::make_map(&lines("00\n09\n")).unwrap();
    assert_eq!(day10::reachable(&flat, &(0, 0)), Vec::<Xy>::new());
    assert_eq!(day10::reachable(&map, &(0, 3)), vec![Xy::new(0, 3)]);
    assert_eq!(day10::step_up(&map, 0, 0, 2), Some((1, 0)));
    assert_eq!(day10::step_up(&map, 0, 0, 3), Some((0, 1)));
    assert_eq!(day10::step_up(&map, 0, 0, 0), None);
    assert_eq!(day10::step_up(&map, 1, 0, 0), None);
    assert_eq!(day10::day10("01\n2\n"), None);
    assert_eq!(day10::day10("0a\n"), None);
    assert_eq!(day10::day10(""), None);
    assert_eq!(day10::day10b("9\n"), Some(0));
}

const DAY14_EXAMPLE: &str = "p=0,4 v=3,-3\np=6,3 v=-1,-3\np=10,3 v=-1,2\np=2,0 v=2,-1\np=0,0 v=1,3\np=3,0 v=-2,-2\np=7,6 v=-1,-3\np=3,0 v=-1,-2\np=9,3 v=2,3\np=7,3 v=-1,2\np=2,4 v=2,-3\np=9,5 v=-3,-3\n";

#[test]
fn day14_test_example() {
    assert_eq!(day14::day14_generic(DAY14_EXAMPLE, 11, 7, 100), Some(12));
}

#[test]
fn day14_robots() {
    assert_eq!(day14::wrap_position((-1, 8), 11, 7), (10, 1));
    assert_eq!(day14::wrap_position((11, -7), 11, 7), (0, 0));
    assert_eq!(day14::wrap_position((i64::MIN, i64::MAX), 11, 7), (
        i64::MIN.rem_euclid(11),
        i64::MAX.rem_euclid(7)
    ));
    let state = day14::read_input("p=2,4 v=2,-3\n").unwrap();
    assert_eq!(state.positions, vec![(2, 4)]);
    assert_eq!(state.velocities, vec![(2, -3)]);
    assert_eq!(day14::iterate_state(&state, 11, 7, 5), Some(vec![(1, 3)]));
    assert_eq!(day14::iterate_state(&state, 11, 7, usize::MAX), None);
    assert_eq!(day14::coordinate_after(1, 0, usize::MAX), Some(1));
    assert_eq!(day14::coordinate_after(i64::MAX, 1, 1), None);
    let spread = vec![(0, 0), (1, 1), (10, 0), (0, 6), (10, 6), (9, 5), (5, 0), (0, 3)];
    assert_eq!(day14::score_positions(&spread, 11, 7), Some(2 * 1 * 1 * 2));
    assert_eq!(day14::count_quarter(&spread, 5, 3, 3), 2);
    assert!(!day14::check_for_tree(&spread));
    let trunk: Vec<(i64, i64)> = (0..31).map(|y| (4, y)).collect();
    assert!(day14::check_for_tree(&trunk));
    assert!(!day14::check_for_tree(&trunk[1..].to_vec()));
    assert_eq!(day14::day14_generic("p=0,0 v=1,1\n", 0, 7, 1), None);
    assert_eq!(day14::day14(""), Some(0));
    assert_eq!(
        day14::print_positions(&vec![(0, 0), (2, 1), (2, 1), (0, 0), (0, 0)], 3, 2),
        Some(vec![vec!['-', ' ', ' '], vec![' ', ' ', ':']])
    );
    assert_eq!(day14::print_positions(&vec![(1, 0); 7], 2, 1), None);
    assert_eq!(day14::print_positions(&vec![(1, 0); 6], 2, 1), Some(vec![vec![' ', '#']]));
}

#[test]
fn day16_reads_a_maze() {
    let puzzle = day16::Puzzle::from_strings(lines("#####\n#S.E#\n#####\n")).unwrap();
    assert_eq!(puzzle.start, Xy::new(1, 1));
    assert_eq!(puzzle.end, Xy::new(3, 1));
    assert_eq!(puzzle.start_direction, Direction::East);
    assert_eq!(puzzle.board.to_strings(), vec!["#####", "#...#", "#####"]);
    let start = puzzle.initial_state();
    assert_eq!(start, day16::State { position: Xy::new(1, 1), facing: Direction::East });
    assert_eq!(
        puzzle.next_states(&start),
        vec![
            (day16::State { position: Xy::new(1, 1), facing: Direction::South }, 1000),
            (day16::State { position: Xy::new(1, 1), facing: Direction::North }, 1000),
            (day16::State { position: Xy::new(2, 1), facing: Direction::East }, 1),
        ]
    );
    let north = day16::State { position: Xy::new(1, 1), facing: Direction::North };
    assert_eq!(puzzle.next_states(&north).len(), 2);
    assert_eq!(puzzle.cost_heuristic(start), -2);
    assert_eq!(puzzle.final_states().len(), 4);
    assert_eq!(puzzle.final_states()[1], start);
    assert!(puzzle.pathfind().is_empty());
    assert_eq!(day16::Pathfinder::astar(), (vec![], 0));
    assert_eq!(start.cmp(&north), Ordering::Greater);
    assert_eq!(north.cmp(&start), Ordering::Less);
    assert_eq!(start.cmp(&start), Ordering::Equal);
    let right = day16::State { position: Xy::new(2, 0), facing: Direction::North };
    assert_eq!(start.cmp(&right), Ordering::Less);
    assert_eq!(day16::day16("#####\n#S.E#\n#####\n"), Some(5));
    assert_eq!(day16::day16b("#####\n#S.E#\n#####\n"), Some(5));
    assert_eq!(day16::day16("#####\n#S?E#\n#####\n"), None);
    assert_eq!(day16::day16("##\n#\n"), None);
    let none = day16::Puzzle::from_strings(lines("#.#\n")).unwrap();
    assert_eq!(none.start, Xy::new(-1, -1));
    let _ = BoardContent::Wall;
}

const DAY17_EXAMPLE: &str = "Register A: 729\nRegister B: 0\nRegister C: 0\n\nProgram: 0,1,5,4,3,0\n";

#[test]
fn day17_test_example() {
    assert_eq!(day17::day17(DAY17_EXAMPLE), Some("4,6,3,5,6,3,5,2,1,0".to_string()));
}

fn machine(a: u32, b: u32, c: u32, program: &[u8]) -> VmState {
    VmState {
        registers: [a, b, c],
        instruction_pointer: 0,
        program: program.to_vec(),
        output_so_far: Vec::new(),
        halted: false,
    }
}

#[test]
fn day17_machine_steps() {
    let next = machine(0, 0, 9, &[2, 6]).advance_state().unwrap();
    assert_eq!(next.registers, [0, 1, 9]);
    assert!(next.halted);
    assert_eq!(machine(10, 0, 0, &[5, 0, 5, 1, 5, 4]).run_until_halt(100, 1000), Some(vec![0, 1, 2]));
    assert_eq!(
        machine(2024, 0, 0, &[0, 1, 5, 4, 3, 0]).run_until_halt(100, 1000),
        Some(vec![4, 2, 5, 6, 7, 7, 7, 7, 3, 1, 0])
    );
    assert_eq!(machine(2024, 0, 0, &[0, 1, 5, 4, 3, 0]).run_until_halt(3, 1000), Some(vec![4, 2, 5]));
    assert_eq!(machine(2024, 0, 0, &[0, 1, 5, 4, 3, 0]).run_until_halt(100, 5), None);
    assert_eq!(machine(1, 0, 0, &[3, 0]).run_until_halt(100, 1000), None);
    let bxl = machine(0, 29, 0, &[1, 7]).advance_state().unwrap();
    assert_eq!(bxl.registers[1], 26);
    let bxc = machine(0, 2024, 43690, &[4, 0]).advance_state().unwrap();
    assert_eq!(bxc.registers[1], 44354);
    let bad = machine(0, 0, 0, &[0, 7]).advance_state().unwrap();
    assert!(bad.halted);
    assert!(machine(0, 0, 0, &[8, 0]).advance_state().is_none());
    assert!(machine(0, 0, 0, &[0]).advance_state().is_none());
    assert!(machine(0, 0, 0, &[]).advance_state().is_none());
    let vm = machine(5, 6, 7, &[0, 0]);
    assert_eq!(vm.resolve_combo(3), Some(3));
    assert_eq!(vm.resolve_combo(4), Some(5));
    assert_eq!(vm.resolve_combo(5), Some(6));
    assert_eq!(vm.resolve_combo(6), Some(7));
    assert_eq!(vm.resolve_combo(7), None);
    assert_eq!(machine(117440, 0, 0, &[0, 3, 5, 4, 3, 0]).expect_output(&vec![0, 3, 5, 4, 3, 0], 1000), Some(true));
    assert_eq!(machine(2024, 0, 0, &[0, 3, 5, 4, 3, 0]).expect_output(&vec![0, 3, 5, 4, 3, 0], 1000), Some(false));
    assert_eq!(day17::day17b("Register A: 117440\nRegister B: 0\nRegister C: 0\n\nProgram: 0,3,5,4,3,0\n"), Some(0));
    assert_eq!(day17::day17b("Register A: 2024\nRegister B: 0\nRegister C: 0\n\nProgram: 0,3,5,4,3,0\n"), None);
    assert_eq!(day17::day17("Register A: 1\n"), None);
    assert_eq!(day17::join_output(&vec![]), "");
    assert_eq!(day17::join_output(&vec![7]), "7");
    assert_eq!(day17::join_output(&vec![10, 0, 3]), "10,0,3");
}

#[test]
fn day17_division_matches_floating_point() {
    let powers: [u32; 14] = [
        0,
        1,
        5,
        31,
        32,
        33,
        1000,
        0x7fff_ffff,
        0x8000_0000,
        0xffff_fbce,
        0xffff_ffe0,
        0xffff_ffe1,
        0xffff_fffe,
        0xffff_ffff,
    ];
    let values: [u32; 7] = [0, 1, 2, 3, 729, 0x8000_0000, 0xffff_ffff];
    for a in values {
        for pow in powers {
            let expected = (a as f64 / f64::powi(2.0, pow as i32)) as u32;
            assert_eq!(machine(a, 0, 0, &[0, 0]).do_dv(pow), expected);
        }
    }
}
