use grid_puzzles::common::grid_board::{Direction, Xy};
use grid_puzzles::year_2024::day15;
use grid_puzzles::year_2024::day15::{Board, BoardContent};

const SMALL: &str = "\
########
#..O.O.#
##@.O..#
#...O..#
#.#.O..#
#...O..#
#......#
########

<^^>>>vv<v>>v<<
";

const LARGE: &str = "\
##########
#..O..O.O#
#......O.#
#.OO..O.O#
#..O@..O.#
#O#..O...#
#O..O..O.#
#.OO.O.OO#
#....O...#
##########

<vv>^<v^>v>^vv^v>v<>v^v<v<^vv<<<^><<><>>v<vvv<>^v^>^<<<><<v<<<v^vv^v>^
vvv<<^>^v^^><<>>><>^<<><^vv^^<>vvv<>><^^v>^>vv<>v<<<<v<^v>^<^^>>>^<v<v
><>vv>v^v^<>><>>>><^^>vv>v<^^^>>v^v^<^^>v^^>v^<^v>v<>>v^v^<v>v^^<^^vv<
<<v<^>>^^^^>>>v^<>vvv^><v<<<>^^^vv^<vvv>^>v<^^^^v<>^>vvvv><>>v^<<^^^^^
^><^><>>><>^^<<^^v>>><^<v>^<vv>>v>>>^v><>^v><<<<v>>v<v<v>vvv>^<><<>^><
^>><>^v<><^vvv<^^<><v<<<<<><^v<<<><<<^^<v<^^^><^>>^<v^><<<^>>^v<v^v<v^
>^>>^v>vv>^<<^v<>><<><<v<<v><>v<^vv<<<>^^v^>^^>>><<^v>>v^v><^^>>^<>vv^
<><^^>^^^<><vvvvv^v<v<<>^v<v>v<<^><<><<><<<^^<<<^<<>><<><^^^>^^<>^>v<>
^^>vv<^v^v<vv>^<><v<^v>^^^>>>^^vvv^>vvv<>>>^<^>>>>>^<<^v>>vvv>^vv^>^<<
v^^>>><<^^<>>^v^<v^vv<>v^<<>^<^v^v><^<<<><<^<v><v<>vv>>v><v^<vv<>v^<<^
";

#[test]
fn test_example_small() {
    assert_eq!(day15::day15(SMALL), Some(2028));
}

#[test]
fn day15_test_example() {
    assert_eq!(day15::day15(LARGE), Some(10092));
}

#[test]
fn day15_wide_example_ends_as_described() {
    let text = "#######\n#...#.#\n#.....#\n#..OO@#\n#..O..#\n#.....#\n#######\n";
    let mut board = Board::from_strings(lines(text), true).unwrap();
    for c in "<vv<<^^<<^^".chars() {
        assert!(board.apply_move(Direction::from_char(c)));
    }
    assert_eq!(
        board.to_strings(),
        lines("##############\n##...[].##..##\n##...@.[]...##\n##....[]....##\n##..........##\n##..........##\n##############\n")
    );
    assert_eq!(board.score(), Some(105 + 207 + 306));
    let whole = format!("{}\n<vv<<^^<<^^\n", text);
    assert_eq!(day15::day15b(&whole), Some(105 + 207 + 306));
}

fn lines(text: &str) -> Vec<String> {
    text.lines().map(String::from).collect()
}

#[test]
fn day15_single_moves() {
    let mut board = Board::from_strings(lines("#######\n#.@OO.#\n#..O..#\n#######\n"), false).unwrap();
    assert_eq!(board.robot_location, Xy::new(2, 1));
    assert_eq!(board.at(Xy::new(3, 1)), BoardContent::Crate);
    assert_eq!(
        board.get_move_zone(Direction::East),
        vec![Xy::new(2, 1), Xy::new(3, 1), Xy::new(4, 1)]
    );
    assert_eq!(board.get_move_zone(Direction::West), vec![Xy::new(2, 1)]);
    assert_eq!(board.get_move_zone(Direction::North), Vec::<Xy>::new());
    assert!(board.apply_move(Direction::East));
    assert_eq!(board.to_strings(), lines("#######\n#..@OO#\n#..O..#\n#######\n"));
    assert_eq!(board.robot_location, Xy::new(3, 1));
    assert!(board.apply_move(Direction::East));
    assert_eq!(board.to_strings(), lines("#######\n#..@OO#\n#..O..#\n#######\n"));
    assert!(board.apply_move(Direction::South));
    assert!(board.apply_move(Direction::North));
    assert_eq!(board.to_strings(), lines("#######\n#..@OO#\n#..O..#\n#######\n"));
    assert_eq!(board.score(), Some(104 + 105 + 203));
    let moved = board.moved(Direction::West).unwrap();
    assert_eq!(moved.to_strings(), lines("#######\n#.@.OO#\n#..O..#\n#######\n"));
    assert_eq!(board.to_strings(), lines("#######\n#..@OO#\n#..O..#\n#######\n"));
}

#[test]
fn day15_wide_boxes_move_together() {
    let mut board =
        Board::from_strings(lines("#######\n#.....#\n#.OO..#\n#..O..#\n#..@..#\n#######\n"), true)
            .unwrap();
    assert_eq!(
        board.to_strings(),
        lines("##############\n##..........##\n##..[][]....##\n##....[]....##\n##....@.....##\n##############\n")
    );
    assert_eq!(board.robot_location, Xy::new(6, 4));
    assert!(board.apply_move(Direction::North));
    assert_eq!(
        board.to_strings(),
        lines("##############\n##....[]....##\n##..[][]....##\n##....@.....##\n##..........##\n##############\n")
    );
    assert!(board.apply_move(Direction::North));
    assert_eq!(
        board.to_strings(),
        lines("##############\n##....[]....##\n##..[][]....##\n##....@.....##\n##..........##\n##############\n")
    );
    assert_eq!(board.score(), Some(106 + 204 + 206));
    assert_eq!(
        BoardContent::from_char_wide('O'),
        vec![BoardContent::BoxLeft, BoardContent::BoxRight]
    );
    assert_eq!(BoardContent::from_char_wide('@'), vec![BoardContent::Robot, BoardContent::Empty]);
    assert_eq!(BoardContent::from_char('#'), BoardContent::Wall);
    assert_eq!(BoardContent::try_from_char('['), None);
    for c in ['O', '#', '@', '.'] {
        assert_eq!(BoardContent::from_char(c).to_char(), c);
    }
    assert_eq!(BoardContent::BoxLeft.to_char(), '[');
    assert_eq!(BoardContent::BoxRight.to_char(), ']');
}

#[test]
fn day15_rejects_bad_input() {
    assert!(Board::from_strings(lines("###\n#.#\n###\n"), false).is_none());
    assert!(Board::from_strings(lines("###\n#@\n###\n"), false).is_none());
    assert!(Board::from_strings(lines("###\n#x#\n###\n"), false).is_none());
    assert!(Board::from_strings(vec![], false).is_none());
    assert_eq!(day15::day15("###\n#@#\n###\n\n^x\n"), None);
    assert_eq!(day15::day15("###\n#@#\n###\n\n<>v\n"), Some(0));
    assert_eq!(day15::day15("@.\n\n<^\n"), None);
    let mut open = Board::from_strings(lines("@.\n"), false).unwrap();
    assert!(!open.apply_move(Direction::North));
    assert_eq!(open.to_strings(), lines("@.\n"));
    assert!(open.apply_move(Direction::East));
    assert_eq!(open.to_strings(), lines(".@\n"));
    assert_eq!(day15::find_robot(&vec!['.', '@', '@']), Some(1));
    assert_eq!(day15::find_robot(&vec!['.']), None);
}
