use sudoku::board::World;
use sudoku::text::FormatError;

fn rows_of(rows: [&str; 9]) -> Vec<String> {
    let mut v: Vec<String> = Vec::new();
    for r in rows.iter() {
        v.push(r.to_string());
    }
    v
}

#[test]
fn construct_cell_space_is_empty() {
    assert_eq!(World::construct_cell(' '), None);
}

#[test]
fn construct_cell_digits() {
    assert_eq!(World::construct_cell('1'), Some(1));
    assert_eq!(World::construct_cell('5'), Some(5));
    assert_eq!(World::construct_cell('9'), Some(9));
}

#[test]
fn render_construct_round_trip() {
    let rows = rows_of([
        "53  7    ",
        "6  195   ",
        " 98    6 ",
        "8   6   3",
        "4  8 3  1",
        "7   2   6",
        " 6    28 ",
        "   419  5",
        "    8  79",
    ]);
    let w = World::construct(&rows).unwrap();
    assert_eq!(w.render(), rows);
}

#[test]
fn round_trip_all_digits_and_spaces() {
    let rows = rows_of([
        "123456789",
        "         ",
        "9 8 7 6 5",
        " 1 2 3 4 ",
        "         ",
        "55555    ",
        "    99999",
        "1        ",
        "        9",
    ]);
    let w = World::construct(&rows).unwrap();
    assert_eq!(w.render(), rows);
}

#[test]
fn construct_rejects_wrong_row_count() {
    let mut v: Vec<String> = Vec::new();
    for _ in 0..8 {
        v.push("         ".to_string());
    }
    assert_eq!(World::construct(&v).err(), Some(FormatError));
}

#[test]
fn construct_rejects_ten_rows() {
    let mut v: Vec<String> = Vec::new();
    for _ in 0..10 {
        v.push("         ".to_string());
    }
    assert_eq!(World::construct(&v).err(), Some(FormatError));
}

#[test]
fn construct_rejects_wrong_row_length() {
    let rows = rows_of([
        "         ",
        "         ",
        "        ",
        "         ",
        "         ",
        "         ",
        "         ",
        "         ",
        "         ",
    ]);
    assert_eq!(World::construct(&rows).err(), Some(FormatError));
}

#[test]
fn construct_rejects_bad_character() {
    let rows = rows_of([
        "         ",
        "         ",
        "         ",
        "    0    ",
        "         ",
        "         ",
        "         ",
        "         ",
        "         ",
    ]);
    assert_eq!(World::construct(&rows).err(), Some(FormatError));
}

#[test]
fn get_reads_clues_and_empty_cells() {
    let rows = rows_of([
        "53  7    ",
        "6  195   ",
        " 98    6 ",
        "8   6   3",
        "4  8 3  1",
        "7   2   6",
        " 6    28 ",
        "   419  5",
        "    8  79",
    ]);
    let w = World::construct(&rows).unwrap();
    assert_eq!(w.get(0, 0), Some(5));
    assert_eq!(w.get(0, 1), Some(3));
    assert_eq!(w.get(0, 2), None);
    assert_eq!(w.get(8, 8), Some(9));
    assert_eq!(w.get(4, 3), Some(8));
}

#[test]
fn put_cell_sets_one_cell_and_keeps_the_rest() {
    let rows = rows_of([
        "53  7    ",
        "6  195   ",
        " 98    6 ",
        "8   6   3",
        "4  8 3  1",
        "7   2   6",
        " 6    28 ",
        "   419  5",
        "    8  79",
    ]);
    let w = World::construct(&rows).unwrap();
    let w2 = w.put_cell(0, 2, 4);
    assert_eq!(w2.get(0, 2), Some(4));
    assert_eq!(w2.get(0, 0), Some(5));
    assert_eq!(w2.get(8, 8), Some(9));
    // The receiver is a value: it is left unchanged.
    assert_eq!(w.get(0, 2), None);
}
