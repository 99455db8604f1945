use grid_puzzles::common::grid_board::{xy_range, Board, Direction, Glyph, Xy};

fn lines(rows: &[&str]) -> Vec<String> {
    rows.iter().map(|r| r.to_string()).collect()
}

fn char_board(rows: &[&str]) -> Board<char> {
    Board::<char>::from_strings(&lines(rows))
}

#[test]
fn transform_replaces_single_match() {
    let board = char_board(&[".#."]);
    let template = Board::<char>::opt_from_strs(&vec!["#"]);
    let replacement = Board::<char>::opt_from_strs(&vec!["X"]);
    let result = board.transform(&template, &replacement);
    assert_eq!(result.to_strings(), lines(&[".X."]));
}

#[test]
fn transform_without_match_is_stable() {
    let board = char_board(&[".#.", "..."]);
    let template = Board::<char>::opt_from_strs(&vec!["#"]);
    let replacement = Board::<char>::opt_from_strs(&vec!["X"]);
    let once = board.transform(&template, &replacement);
    let twice = once.transform(&template, &replacement);
    assert_eq!(once.to_strings(), lines(&[".X.", "..."]));
    assert!(twice.same_as(&once));
    assert_eq!(twice.to_strings(), once.to_strings());
}

#[test]
fn neighbors8_at_corner_has_three() {
    let board = char_board(&["ab", "cd"]);
    assert_eq!(board.neighbors8(Xy::new(0, 0)), vec!['b', 'd', 'c']);
    let wide = char_board(&["abc", "def", "ghi"]);
    assert_eq!(wide.neighbors8(Xy::new(0, 0)), vec!['b', 'e', 'd']);
}

#[test]
fn neighbors8_in_the_middle_goes_clockwise_from_east() {
    let board = char_board(&["abc", "def", "ghi"]);
    assert_eq!(
        board.neighbors8(Xy::new(1, 1)),
        vec!['f', 'i', 'h', 'g', 'd', 'a', 'b', 'c']
    );
    assert_eq!(board.neighbors8(Xy::new(2, 2)), vec!['h', 'e', 'f']);
    assert_eq!(board.neighbors8(Xy::new(5, 5)), Vec::<char>::new());
    assert_eq!(board.neighbors8(Xy::new(i64::MAX, i64::MIN)), Vec::<char>::new());
}

#[test]
fn neighbors_looks_around_the_origin() {
    let board = char_board(&["abc", "def", "ghi"]);
    assert_eq!(board.neighbors(), vec!['b', 'd']);
    let single = char_board(&["a"]);
    assert_eq!(single.neighbors(), Vec::<char>::new());
}

#[test]
fn count_on_uniform_board() {
    let board = Board::new(5, 5, '.');
    assert_eq!(board.count('.'), 25);
    assert_eq!(board.count('#'), 0);
    assert_eq!(board.count('X'), 0);
}

#[test]
fn fill_rect_sets_half_open_rectangle() {
    let mut board = Board::new(3, 3, '.');
    board.fill_rect(Xy::new(0, 0), Xy::new(2, 2), 'X');
    assert_eq!(board.to_strings(), lines(&["XX.", "XX.", "..."]));
}

#[test]
fn fill_rect_with_empty_rectangle_changes_nothing() {
    let mut board = Board::new(2, 3, '.');
    board.fill_rect(Xy::new(1, 1), Xy::new(1, 2), 'X');
    board.fill_rect(Xy::new(2, 2), Xy::new(3, 1), 'X');
    assert_eq!(board.to_strings(), lines(&["...", "..."]));
}

#[test]
fn update_rect_applies_function_inside_only() {
    let mut board = char_board(&["abc", "def"]);
    board.update_rect(Xy::new(1, 0), Xy::new(3, 1), |c: char| c.to_ascii_uppercase());
    assert_eq!(board.to_strings(), lines(&["aBC", "def"]));
}

#[test]
fn round_trip_through_text() {
    let text = lines(&["#..#", ".##.", "...."]);
    let board = Board::<bool>::from_strings(&text);
    assert_eq!(board.to_strings(), text);
    assert_eq!(board.height(), 3);
    assert_eq!(board.width(), 4);
    assert_eq!(board.dimensions(), Xy::new(4, 3));
    let arrows = lines(&["^>v<"]);
    assert_eq!(Board::<Direction>::from_strings(&arrows).to_strings(), arrows);
}

#[test]
fn try_from_strings_rejects_bad_input() {
    assert!(Board::<bool>::try_from_strings(&lines(&["#.", "#"])).is_none());
    assert!(Board::<bool>::try_from_strings(&lines(&["#.", "#x"])).is_none());
    assert!(Board::<bool>::try_from_strings(&lines(&[])).is_none());
    assert!(Board::<bool>::try_from_strings(&lines(&["#.", ".#"])).is_some());
    assert!(Board::<bool>::try_from_strings(&lines(&[""])).is_some());
}

#[test]
fn opt_from_strs_turns_unknown_characters_into_wildcards() {
    let pattern = Board::<bool>::opt_from_strs(&vec!["_#_", "._."]);
    assert_eq!(pattern.at(Xy::new(0, 0)), None);
    assert_eq!(pattern.at(Xy::new(1, 0)), Some(true));
    assert_eq!(pattern.at(Xy::new(0, 1)), Some(false));
    assert_eq!(pattern.at(Xy::new(1, 1)), None);
    assert_eq!(pattern.width(), 3);
    assert_eq!(pattern.height(), 2);
}

#[test]
fn maybe_at_is_some_exactly_on_the_board() {
    let board = char_board(&["abc", "def"]);
    for y in -2..4 {
        for x in -2..5 {
            let on = 0 <= x && x < 3 && 0 <= y && y < 2;
            let got = board.maybe_at(Xy::new(x, y));
            assert_eq!(got.is_some(), on);
            if on {
                assert_eq!(got, Some(board.at(Xy::new(x, y))));
            }
        }
    }
    assert_eq!(board.maybe_at(Xy::new(2, 1)), Some('f'));
    assert_eq!(board.maybe_at(Xy::new(i64::MAX, 0)), None);
    assert_eq!(board.maybe_at(Xy::new(0, i64::MIN)), None);
}

#[test]
fn set_at_and_maybe_set_at() {
    let mut board = Board::new(2, 2, 0usize);
    board.set_at(Xy::new(1, 0), 7);
    board.maybe_set_at(Xy::new(0, 1), 9);
    board.maybe_set_at(Xy::new(2, 1), 5);
    board.maybe_set_at(Xy::new(-1, 0), 5);
    *board.mut_at(Xy::new(1, 1)) += 3;
    assert_eq!(board.row(0), vec![0, 7]);
    assert_eq!(board.row(1), vec![9, 3]);
}

#[test]
fn scan_marks_every_match() {
    let board = char_board(&["ab.ab", "cd.cd", "abab."]);
    let needle = Board::<char>::opt_from_strs(&vec!["ab"]);
    let found = board.scan(&needle);
    assert_eq!(found.width(), 4);
    assert_eq!(found.height(), 3);
    assert_eq!(found.to_strings(), lines(&["#..#", "....", "#.#."]));
    assert_eq!(found.render(), "#..#\n....\n#.#.\n");
    assert_eq!(found.count(true), 4);
}

#[test]
fn scan_treats_wildcards_as_matching_anything() {
    let board = Board::<bool>::from_strings(&lines(&["#.#", "###", "..#"]));
    let needle = Board::<bool>::opt_from_strs(&vec!["#_", "_#"]);
    let found = board.scan(&needle);
    assert_eq!(found.to_strings(), lines(&["#.", ".#"]));
    let whole = Board::<bool>::opt_from_strs(&vec!["___", "___", "__#"]);
    assert_eq!(board.scan(&whole).to_strings(), lines(&["#"]));
}

#[test]
fn replace_many_keeps_cells_under_wildcards() {
    let board = Board::<bool>::from_strings(&lines(&["....", "....", "...."]));
    let replacement = Board::<bool>::opt_from_strs(&vec!["#_", "_#"]);
    let locs = Board::<bool>::from_strings(&lines(&["#..", "..#"]));
    let result = board.replace_many(&replacement, &locs);
    assert_eq!(result.to_strings(), lines(&["#...", ".##.", "...#"]));
    assert_eq!(board.to_strings(), lines(&["....", "....", "...."]));
}

#[test]
fn replace_many_overlap_holds_one_of_the_written_values() {
    let board = char_board(&["..."]);
    let replacement = Board::<char>::opt_from_strs(&vec!["ab"]);
    let locs = Board::<bool>::from_strings(&lines(&["##"]));
    let result = board.replace_many(&replacement, &locs);
    let row = result.row(0);
    assert_eq!(row[0], 'a');
    assert!(row[1] == 'a' || row[1] == 'b');
    assert_eq!(row[2], 'b');
}

#[test]
fn coords_of_lists_matches_row_by_row() {
    let board = char_board(&["a.a", ".a."]);
    assert_eq!(
        board.coords_of('a'),
        vec![Xy::new(0, 0), Xy::new(2, 0), Xy::new(1, 1)]
    );
    assert_eq!(board.coords_of('z'), Vec::<Xy>::new());
    assert_eq!(board.coords_of('a').len(), board.count('a'));
}

#[test]
fn all_coords_and_xy_range_are_row_major() {
    let board = Board::new(2, 3, 0u8);
    assert_eq!(
        board.all_coords(),
        vec![
            Xy::new(0, 0),
            Xy::new(1, 0),
            Xy::new(2, 0),
            Xy::new(0, 1),
            Xy::new(1, 1),
            Xy::new(2, 1)
        ]
    );
    assert_eq!(
        xy_range(Xy::new(-1, 4), Xy::new(1, 6)),
        vec![Xy::new(-1, 4), Xy::new(0, 4), Xy::new(-1, 5), Xy::new(0, 5)]
    );
    assert_eq!(xy_range(Xy::new(3, 0), Xy::new(1, 2)), Vec::<Xy>::new());
    assert_eq!(xy_range(Xy::new(0, 2), Xy::new(2, 2)), Vec::<Xy>::new());
}

#[test]
fn iterator_yields_every_cell_once_in_row_major_order() {
    let board = char_board(&["ab", "cd", "ef"]);
    let mut it = board.iter();
    let mut seen = Vec::new();
    while let Some(item) = it.next() {
        seen.push(item);
    }
    assert_eq!(
        seen,
        vec![
            (Xy::new(0, 0), 'a'),
            (Xy::new(1, 0), 'b'),
            (Xy::new(0, 1), 'c'),
            (Xy::new(1, 1), 'd'),
            (Xy::new(0, 2), 'e'),
            (Xy::new(1, 2), 'f')
        ]
    );
    assert_eq!(it.next(), None);
    assert_eq!(board.iter().next(), Some((Xy::new(0, 0), 'a')));
    let empty = Board::new(2, 0, 'x');
    assert_eq!(empty.iter().next(), None);
}

#[test]
fn clone_is_independent() {
    let board = char_board(&["ab"]);
    let mut copy = board.clone();
    copy.set_at(Xy::new(0, 0), 'z');
    assert_eq!(board.to_strings(), lines(&["ab"]));
    assert_eq!(copy.to_strings(), lines(&["zb"]));
    assert!(!board.same_as(&copy));
    assert!(board.same_as(&board.clone()));
}

#[test]
fn direction_rotations_form_a_cycle() {
    for d in Direction::ALL {
        assert_eq!(d.ccw().cw(), d);
        assert_eq!(d.cw().ccw(), d);
        assert_eq!(d.cw().cw().cw().cw(), d);
        assert_ne!(d.cw(), d);
        assert_ne!(d.cw().cw(), d);
    }
    assert_eq!(Direction::North.cw(), Direction::East);
    assert_eq!(Direction::East.cw(), Direction::South);
    assert_eq!(Direction::South.cw(), Direction::West);
    assert_eq!(Direction::West.cw(), Direction::North);
    assert_eq!(Direction::North.ccw(), Direction::West);
}

#[test]
fn direction_glyphs_and_offsets() {
    let glyphs = ['^', '>', 'v', '<'];
    let offsets = [Xy::new(0, -1), Xy::new(1, 0), Xy::new(0, 1), Xy::new(-1, 0)];
    for (i, d) in Direction::ALL.iter().enumerate() {
        assert_eq!(d.to_char(), glyphs[i]);
        assert_eq!(Direction::from_char(glyphs[i]), *d);
        assert_eq!(Direction::try_from_char(glyphs[i]), Some(*d));
        assert_eq!(d.to_offset(), offsets[i]);
        assert_eq!(Direction::from_glyph(d.to_glyph()), Some(*d));
    }
    assert_eq!(Direction::try_from_char('x'), None);
}

#[test]
fn xy_arithmetic() {
    let a = Xy::new(3, -4);
    let b = Xy::new(-1, 6);
    assert_eq!(a.add(b), Xy::new(2, 2));
    assert_eq!(a.sub(b), Xy::new(4, -10));
    assert_eq!(a.checked_add(b), Some(Xy::new(2, 2)));
    assert_eq!(Xy::new(i64::MAX, 0).checked_add(Xy::new(1, 0)), None);
    assert_eq!(Xy::new(0, i64::MIN).checked_sub(Xy::new(0, 1)), None);
    assert_eq!(a.checked_sub(b), Some(Xy::new(4, -10)));
}
