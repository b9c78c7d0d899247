use sudoku::bits::{BitSet, Sudoku};

const PUZZLE: [[u8; 9]; 9] = [
    [0, 0, 8, 0, 0, 9, 0, 6, 2],
    [0, 0, 0, 0, 0, 0, 0, 0, 5],
    [1, 0, 2, 5, 0, 0, 0, 0, 0],
    [0, 0, 0, 2, 1, 0, 0, 9, 0],
    [0, 5, 0, 0, 0, 0, 6, 0, 0],
    [6, 0, 0, 0, 0, 0, 0, 2, 8],
    [4, 1, 0, 6, 0, 8, 0, 0, 0],
    [8, 6, 0, 0, 3, 0, 1, 0, 0],
    [0, 0, 0, 0, 0, 0, 4, 0, 0],
];

fn entries_of_bits(sudoku: &Sudoku) -> [[u8; 9]; 9] {
    let mut entries = [[0u8; 9]; 9];
    for r in 0..9 {
        for c in 0..9 {
            entries[r][c] = sudoku.get(r, c).unwrap();
        }
    }
    entries
}

fn bits_board_is_solution(entries: &[[u8; 9]; 9]) -> bool {
    for i in 0..9 {
        let mut row = 0u16;
        let mut col = 0u16;
        let mut zone = 0u16;
        for j in 0..9 {
            row |= 1 << entries[i][j];
            col |= 1 << entries[j][i];
            zone |= 1 << entries[3 * (i / 3) + j / 3][3 * (i % 3) + j % 3];
        }
        if row != 1022 || col != 1022 || zone != 1022 {
            return false;
        }
    }
    true
}

#[test]
fn bitset_holds_digits_only() {
    let mut set = BitSet::new();
    for v in [0u8, 10, 16, 255] {
        assert!(!set.insert(v));
        assert!(!set.contains(v));
        assert!(!set.remove(v));
    }
    assert_eq!(set.debug_text(), "BitSet(0)");
    assert!(set.insert(3));
    assert!(set.contains(3));
    assert!(!set.contains(4));
    assert!(set.insert(3));
    assert_eq!(set.debug_text(), "BitSet(8)");
    assert!(set.remove(3));
    assert!(!set.contains(3));
    assert!(set.remove(3));
    assert_eq!(set.debug_text(), "BitSet(0)");
    let mut full = BitSet::full();
    assert_eq!(full.debug_text(), "BitSet(1022)");
    for v in 1..=9u8 {
        assert!(full.contains(v));
    }
    for v in [0u8, 10, 16, 255] {
        assert!(!full.contains(v));
        assert!(!full.insert(v));
        assert!(!full.remove(v));
    }
    assert_eq!(full.debug_text(), "BitSet(1022)");
    assert!(full.remove(9));
    assert_eq!(full.debug_text(), "BitSet(510)");
    assert_eq!(Sudoku::init_set().debug_text(), "BitSet(1022)");
}

#[test]
fn bits_set_get_and_clear() {
    let mut sudoku = Sudoku::new();
    assert_eq!(sudoku.get(0, 0), Ok(0));
    assert_eq!(sudoku.set(0, 0, 5), Ok(true));
    assert_eq!(sudoku.get(0, 0), Ok(5));
    assert_eq!(sudoku.is_valid(0, 8, 5), Ok(false));
    assert_eq!(sudoku.is_valid(8, 0, 5), Ok(false));
    assert_eq!(sudoku.is_valid(2, 2, 5), Ok(false));
    assert_eq!(sudoku.is_valid(3, 3, 5), Ok(true));
    assert_eq!(sudoku.is_valid(0, 8, 6), Ok(true));
    assert_eq!(sudoku.set(0, 8, 5), Ok(false));
    assert_eq!(sudoku.get(0, 8), Ok(0));
    assert_eq!(sudoku.set(1, 1, 5), Ok(false));
    assert_eq!(sudoku.set(4, 4, 5), Ok(true));
    assert_eq!(sudoku.clear(0, 0), Ok(()));
    assert_eq!(sudoku.get(0, 0), Ok(0));
    assert_eq!(sudoku.set(0, 8, 5), Ok(true));
    assert_eq!(sudoku.set(0, 8, 0), Ok(true));
    assert_eq!(sudoku.get(0, 8), Ok(0));
    assert_eq!(sudoku.clear(0, 8), Ok(()));
    assert_eq!(sudoku.is_valid(0, 0, 5), Ok(true));
    sudoku.clear_all();
    assert_eq!(entries_of_bits(&sudoku), [[0u8; 9]; 9]);
    assert_eq!(sudoku.is_valid(4, 4, 5), Ok(true));
}

#[test]
fn bits_errors() {
    let mut sudoku = Sudoku::new();
    assert_eq!(Sudoku::restrain_index(8, 8), Ok(()));
    assert_eq!(Sudoku::restrain_index(9, 0), Err("Index greater than 9"));
    assert_eq!(Sudoku::restrain_index(0, 9), Err("Index greater than 9"));
    assert_eq!(sudoku.get(9, 0), Err("Index greater than 9"));
    assert_eq!(sudoku.clear(0, 9), Err("Index greater than 9"));
    assert_eq!(sudoku.is_valid(9, 9, 1), Err("Index greater than 9"));
    assert_eq!(sudoku.set(9, 0, 1), Err("Index greater than 9"));
    assert_eq!(sudoku.set(9, 0, 0), Err("Index greater than 9"));
    assert_eq!(sudoku.set(0, 0, 10), Err("Value is not in range 1..=9, was {n}"));
    assert_eq!(sudoku.set(9, 9, 10), Err("Value is not in range 1..=9, was {n}"));
    assert_eq!(entries_of_bits(&sudoku), [[0u8; 9]; 9]);
}

#[test]
fn bits_set_grid_stops_at_the_first_entry_not_accepted() {
    let mut sudoku = Sudoku::new();
    assert_eq!(sudoku.set_grid(PUZZLE), Ok(true));
    assert_eq!(entries_of_bits(&sudoku), PUZZLE);

    let mut clash = [[0u8; 9]; 9];
    clash[0][0] = 3;
    clash[1][1] = 4;
    clash[1][5] = 4;
    clash[2][0] = 12;
    assert_eq!(sudoku.set_grid(clash), Ok(false));
    let mut entered = [[0u8; 9]; 9];
    entered[0][0] = 3;
    entered[1][1] = 4;
    assert_eq!(entries_of_bits(&sudoku), entered);

    let mut bad = [[0u8; 9]; 9];
    bad[0][0] = 3;
    bad[0][4] = 10;
    bad[0][5] = 3;
    assert_eq!(sudoku.set_grid(bad), Err("Value is not in range 1..=9, was {n}"));
    let mut entered = [[0u8; 9]; 9];
    entered[0][0] = 3;
    assert_eq!(entries_of_bits(&sudoku), entered);
}

#[test]
fn bits_from_keeps_what_was_entered() {
    assert_eq!(entries_of_bits(&Sudoku::from(PUZZLE).unwrap()), PUZZLE);
    let mut clash = [[0u8; 9]; 9];
    clash[0][0] = 3;
    clash[0][8] = 3;
    clash[4][4] = 1;
    let partial = Sudoku::from(clash).unwrap();
    let mut entered = [[0u8; 9]; 9];
    entered[0][0] = 3;
    assert_eq!(entries_of_bits(&partial), entered);
    let mut bad = [[0u8; 9]; 9];
    bad[8][8] = 10;
    assert_eq!(Sudoku::from(bad).err(), Some("Value is not in range 1..=9, was {n}"));
}

#[test]
fn bits_solves_the_puzzle() {
    let mut sudoku = Sudoku::from(PUZZLE).unwrap();
    assert!(sudoku.solve());
    let entries = entries_of_bits(&sudoku);
    assert!(bits_board_is_solution(&entries));
    for r in 0..9 {
        for c in 0..9 {
            if PUZZLE[r][c] != 0 {
                assert_eq!(entries[r][c], PUZZLE[r][c]);
            }
        }
    }
    assert!(sudoku.solve_at(0, 0));
    assert_eq!(entries_of_bits(&sudoku), entries);
}

#[test]
fn bits_solves_the_empty_board_with_the_lowest_digits() {
    let mut sudoku = Sudoku::new();
    assert!(sudoku.solve());
    let entries = entries_of_bits(&sudoku);
    assert!(bits_board_is_solution(&entries));
    assert_eq!(entries[0], [1, 2, 3, 4, 5, 6, 7, 8, 9]);
    assert_eq!(entries[1], [4, 5, 6, 7, 8, 9, 1, 2, 3]);
}

#[test]
fn bits_leaves_a_board_without_solution_as_it_was() {
    let mut entries = [[0u8; 9]; 9];
    for c in 0..7 {
        entries[0][c] = c as u8 + 1;
    }
    entries[1][7] = 8;
    let mut sudoku = Sudoku::from(entries).unwrap();
    let sets = sudoku.sets_text();
    assert!(!sudoku.solve());
    assert_eq!(entries_of_bits(&sudoku), entries);
    assert_eq!(sudoku.sets_text(), sets);
    assert!(sudoku.solve_at(9, 0));
    assert!(sudoku.solve_at(0, 9));
    assert_eq!(entries_of_bits(&sudoku), entries);
}

#[test]
fn bits_text() {
    let mut sudoku = Sudoku::new();
    sudoku.set(0, 0, 5).unwrap();
    sudoku.set(8, 8, 9).unwrap();
    let blank = "0 0 0  0 0 0  0 0 0  \n";
    let mut expected = String::from("5 0 0  0 0 0  0 0 0  \n");
    expected.push_str(blank);
    expected.push_str(blank);
    expected.push('\n');
    for _ in 0..3 {
        expected.push_str(blank);
    }
    expected.push('\n');
    expected.push_str(blank);
    expected.push_str(blank);
    expected.push_str("0 0 0  0 0 0  0 0 9  \n");
    expected.push('\n');
    assert_eq!(sudoku.to_string(), expected);

    let mut sets = String::from("Row vacant: \nBitSet(990)\n");
    sets.push_str(&"BitSet(1022)\n".repeat(7));
    sets.push_str("BitSet(510)\nCol vacant: \nBitSet(990)\n");
    sets.push_str(&"BitSet(1022)\n".repeat(7));
    sets.push_str("BitSet(510)\nZone vacant: \nBitSet(990)\n");
    sets.push_str(&"BitSet(1022)\n".repeat(7));
    sets.push_str("BitSet(510)\n");
    assert_eq!(sudoku.sets_text(), sets);
}
