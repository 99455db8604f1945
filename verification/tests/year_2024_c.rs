use grid_puzzles::common::grid_board::Xy;
use grid_puzzles::year_2024::{day11, day12};

#[test]
fn day11_test_example() {
    assert_eq!(day11::day11("125 17\n"), Some(55312));
}

#[test]
fn day11_stones() {
    assert_eq!(day11::update_stone(0), Some(vec![1]));
    assert_eq!(day11::update_stone(1), Some(vec![2024]));
    assert_eq!(day11::update_stone(10), Some(vec![1, 0]));
    assert_eq!(day11::update_stone(99), Some(vec![9, 9]));
    assert_eq!(day11::update_stone(999), Some(vec![2021976]));
    assert_eq!(day11::update_stone(1000), Some(vec![10, 0]));
    assert_eq!(day11::update_stone(253000), Some(vec![253, 0]));
    assert_eq!(day11::update_stone(512072), Some(vec![512, 72]));
    assert_eq!(day11::update_stone(u64::MAX), Some(vec![1844674407, 3709551615]));
    assert_eq!(day11::update_stone(10_000_000_000_000_000), None);
    assert_eq!(day11::update_stone(999_999_999_999_999), Some(vec![999_999_999_999_999 * 2024]));
    assert_eq!(day11::count_digits(0), 1);
    assert_eq!(day11::count_digits(9), 1);
    assert_eq!(day11::count_digits(10), 2);
    assert_eq!(day11::count_digits(u64::MAX), 20);
    assert_eq!(day11::power_of_ten(0, 1), 1);
    assert_eq!(day11::power_of_ten(19, u64::MAX), 10_000_000_000_000_000_000);
    assert_eq!(day11::do_blinks(&vec![0, 1, 10, 99, 999], 1), Some(7));
    assert_eq!(day11::do_blinks(&vec![125, 17], 6), Some(22));
    assert_eq!(day11::do_blinks(&vec![125, 17], 0), Some(2));
    assert_eq!(day11::do_blinks(&vec![], 25), Some(0));
    assert_eq!(day11::do_blinks(&vec![7, 7, 7], 0), Some(3));
    assert_eq!(day11::do_blinks(&vec![10_000_000_000_000_000], 0), Some(1));
    assert_eq!(day11::do_blinks(&vec![10_000_000_000_000_000], 1), None);
    assert_eq!(day11::do_blinks(&vec![125, 17], 75), Some(65601038650482));
    let mut list = vec![(5u64, 2u64)];
    assert!(day11::add_count(&mut list, 5, 3));
    assert!(day11::add_count(&mut list, 6, 1));
    assert!(!day11::add_count(&mut list, 6, u64::MAX));
    assert_eq!(list, vec![(5, 5), (6, 1)]);
    assert_eq!(day11::count_stones(&list), Some(6));
    assert_eq!(day11::count_stones(&vec![(1, u64::MAX), (2, 1)]), None);
    assert_eq!(day11::blink(&vec![(0, 2), (1000, 3)]), Some(vec![(1, 2), (10, 3), (0, 3)]));
    assert_eq!(day11::day11(""), None);
    assert_eq!(day11::day11("1 x\n"), None);
    assert_eq!(day11::day11b("0\n"), Some(22938365706844));
}

const DAY12_EXAMPLE_1: &str = "AAAA\nBBCD\nBBCC\nEEEC\n";

const DAY12_EXAMPLE_2: &str = "OOOOO\nOXOXO\nOOOOO\nOXOXO\nOOOOO\n";

const DAY12_EXAMPLE_3: &str = "RRRRIICCFF\nRRRRIICCCF\nVVRRRCCFFF\nVVRCCCJFFF\nVVVVCJJCFE\nVVIVCCJJEE\nVVIIICJJEE\nMIIIIIJJEE\nMIIISIJEEE\nMMMISSJEEE\n";

#[test]
fn day12_test_example2() {
    assert_eq!(day12::day12(DAY12_EXAMPLE_1), Some(140));
    assert_eq!(day12::day12(DAY12_EXAMPLE_2), Some(772));
    assert_eq!(day12::day12(DAY12_EXAMPLE_3), Some(1930));
}

#[test]
fn day12_test_example_b() {
    assert_eq!(day12::day12b(DAY12_EXAMPLE_1), Some(80));
    assert_eq!(day12::day12b(DAY12_EXAMPLE_3), Some(1206));
}

fn lines(text: &str) -> Vec<String> {
    text.lines().map(String::from).collect()
}

#[test]
fn day12_regions_of_a_small_garden() {
    let map = day12::make_map(&lines(DAY12_EXAMPLE_1));
    assert!(day12::check_garden(&map));
    assert_eq!(day12::at(&map, (2, 1)), 'C');
    assert_eq!(day12::xat(&map, (2, 1)), 'C');
    assert_eq!(day12::xat(&map, (-1, 0)), '.');
    assert_eq!(day12::xat(&map, (0, 4)), '.');
    assert_eq!(day12::xat(&map, (4, 0)), '.');
    assert_eq!(day12::map_to_string(&map), DAY12_EXAMPLE_1);
    let region = day12::make_region(&map, &(2, 1));
    assert_eq!(region.to_strings(), vec!["....", "..#.", "..##", "...#"]);
    assert_eq!(day12::score_region(&map, &region), Some(4 * 10));
    assert_eq!(day12::count_sides(&map, &region), Some(8));
    assert_eq!(day12::score_region_b(&map, &region), Some(4 * 8));
    let regions = day12::make_regions(&map);
    let shown: Vec<Vec<String>> = regions.iter().map(|r| r.to_strings()).collect();
    assert_eq!(
        shown,
        vec![
            vec!["####", "....", "....", "...."],
            vec!["....", "##..", "##..", "...."],
            vec!["....", "..#.", "..##", "...#"],
            vec!["....", "...#", "....", "...."],
            vec!["....", "....", "....", "###."],
        ]
    );
    assert_eq!(day12::corners(&map, (0, 0)), 2);
    assert_eq!(day12::corners(&map, (1, 0)), 0);
    assert_eq!(day12::corners(&map, (3, 1)), 4);
    assert_eq!(day12::corners(&map, (2, 2)), 2);
    assert_eq!(day12::count_fences(&map, 0, 0), 3);
    assert_eq!(day12::count_fences(&map, 1, 0), 2);
    assert_eq!(day12::count_fences(&map, 3, 1), 4);
    assert_eq!(day12::day12b("EEEEE\nEXXXX\nEEEEE\nEXXXX\nEEEEE\n"), Some(236));
    assert_eq!(day12::day12b("AAAAAA\nAAABBA\nAAABBA\nABBAAA\nABBAAA\nAAAAAA\n"), Some(368));
    assert_eq!(day12::day12b(DAY12_EXAMPLE_2), Some(436));
    assert_eq!(day12::day12(""), None);
    assert_eq!(day12::day12("AB\nA\n"), None);
    assert_eq!(day12::day12("A\n"), Some(4));
    let _ = Xy::new(0, 0);
}
