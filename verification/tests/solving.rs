use sudoku::board::World;
use sudoku::solver::Unsolvable;

fn board_of(rows: [&str; 9]) -> World {
    let mut v: Vec<String> = Vec::new();
    for r in rows.iter() {
        v.push(r.to_string());
    }
    World::construct(&v).unwrap()
}

fn empty_rows() -> [&'static str; 9] {
    ["         "; 9]
}

#[test]
fn empty_board_has_no_conflict() {
    assert!(!board_of(empty_rows()).has_conflict());
}

#[test]
fn solved_grid_has_no_conflict() {
    let w = board_of([
        "534678912",
        "672195348",
        "198342567",
        "859761423",
        "426853791",
        "713924856",
        "961537284",
        "287419635",
        "345286179",
    ]);
    assert!(!w.has_conflict());
}

#[test]
fn conflict_in_a_row_is_found() {
    let mut rows = empty_rows();
    rows[3] = " 2     2 ";
    assert!(board_of(rows).has_conflict());
}

#[test]
fn conflict_in_a_column_is_found() {
    let mut rows = empty_rows();
    rows[0] = "   6     ";
    rows[8] = "   6     ";
    assert!(board_of(rows).has_conflict());
}

#[test]
fn conflict_in_a_box_is_found() {
    let mut rows = empty_rows();
    rows[6] = "1        ";
    rows[8] = "  1      ";
    assert!(board_of(rows).has_conflict());
}

#[test]
fn equal_digits_in_different_units_do_not_conflict() {
    let mut rows = empty_rows();
    rows[0] = "4        ";
    rows[1] = "    4    ";
    assert!(!board_of(rows).has_conflict());
}

#[test]
fn cell_has_conflict_names_the_cells() {
    let mut rows = empty_rows();
    rows[2] = "  3   3  ";
    let w = board_of(rows);
    assert!(w.cell_has_conflict(2, 2));
    assert!(w.cell_has_conflict(2, 6));
    assert!(!w.cell_has_conflict(0, 0));
}

#[test]
fn conflict_h_v_b_direct() {
    let mut rows = empty_rows();
    rows[4] = "    5    ";
    let w = board_of(rows);
    // Another 5 in row 4, column 4's column, and the middle box.
    assert!(w.conflict_h(4, 0, 5));
    assert!(w.conflict_v(0, 4, 5));
    assert!(w.conflict_b(3, 3, 5));
    // The cell never clashes with itself.
    assert!(!w.conflict_h(4, 4, 5));
    assert!(!w.conflict_v(4, 4, 5));
    assert!(!w.conflict_b(4, 4, 5));
    assert!(!w.conflict_h(4, 0, 6));
}

#[test]
fn empty_board_solves_to_a_full_valid_grid() {
    let solved = board_of(empty_rows()).solve().unwrap();
    assert!(!solved.has_conflict());
    for i in 0..9 {
        for j in 0..9 {
            let c = solved.get(i, j);
            assert!(c.is_some());
            let d = c.unwrap();
            assert!((1..=9).contains(&d));
        }
    }
    // Digits are tried in ascending order, so the first row comes out 1-9.
    assert_eq!(solved.render()[0], "123456789");
}

#[test]
fn single_clue_is_kept_in_the_solution() {
    let mut rows = empty_rows();
    rows[0] = "5        ";
    let solved = board_of(rows).solve().unwrap();
    assert_eq!(solved.get(0, 0), Some(5));
    assert!(!solved.has_conflict());
}

#[test]
fn duplicate_clues_in_a_row_are_unsolvable() {
    let mut rows = empty_rows();
    rows[5] = " 7   7   ";
    let w = board_of(rows);
    assert_eq!(w.solve().err(), Some(Unsolvable));
}

#[test]
fn duplicate_clues_in_a_column_are_unsolvable() {
    let mut rows = empty_rows();
    rows[1] = "  4      ";
    rows[7] = "  4      ";
    assert_eq!(board_of(rows).solve().err(), Some(Unsolvable));
}

#[test]
fn duplicate_clues_in_a_box_are_unsolvable() {
    let mut rows = empty_rows();
    rows[0] = "8        ";
    rows[2] = " 8       ";
    assert_eq!(board_of(rows).solve().err(), Some(Unsolvable));
}

#[test]
fn full_conflicting_board_is_unsolvable() {
    // Every cell filled, but row 0 holds two 1s: no valid completion exists.
    let w = board_of([
        "111111111",
        "222222222",
        "333333333",
        "444444444",
        "555555555",
        "666666666",
        "777777777",
        "888888888",
        "999999999",
    ]);
    assert_eq!(w.solve().err(), Some(Unsolvable));
}

#[test]
fn dead_end_without_a_direct_clash_is_unsolvable() {
    // Row 0 lacks only a 9 at its last cell, but column 8 already holds a 9.
    let mut rows = empty_rows();
    rows[0] = "12345678 ";
    rows[4] = "        9";
    assert_eq!(board_of(rows).solve().err(), Some(Unsolvable));
}

#[test]
fn classic_puzzle_finds_the_published_solution() {
    let solved = board_of([
        "53  7    ",
        "6  195   ",
        " 98    6 ",
        "8   6   3",
        "4  8 3  1",
        "7   2   6",
        " 6    28 ",
        "   419  5",
        "    8  79",
    ])
    .solve()
    .unwrap();
    let expected = [
        "534678912",
        "672195348",
        "198342567",
        "859761423",
        "426853791",
        "713924856",
        "961537284",
        "287419635",
        "345286179",
    ];
    assert_eq!(solved.render(), expected);
}

#[test]
fn clues_are_kept_in_the_solution() {
    let rows = [
        "53  7    ",
        "6  195   ",
        " 98    6 ",
        "8   6   3",
        "4  8 3  1",
        "7   2   6",
        " 6    28 ",
        "   419  5",
        "    8  79",
    ];
    let w = board_of(rows);
    let solved = board_of(rows).solve().unwrap();
    for i in 0..9 {
        for j in 0..9 {
            if let Some(d) = w.get(i, j) {
                assert_eq!(solved.get(i, j), Some(d));
            }
        }
    }
}

#[test]
fn solving_twice_gives_identical_boards() {
    let mut rows = empty_rows();
    rows[0] = "    3    ";
    rows[4] = "  6      ";
    let first = board_of(rows).solve().unwrap().render();
    let second = board_of(rows).solve().unwrap().render();
    assert_eq!(first, second);
}
