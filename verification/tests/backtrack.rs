use sudoku::backtrack::Sudoku;

const EASY: [[u8; 9]; 9] = [
    [5, 3, 0, 0, 7, 0, 0, 0, 0],
    [6, 0, 0, 1, 9, 5, 0, 0, 0],
    [0, 9, 8, 0, 0, 0, 0, 6, 0],
    [8, 0, 0, 0, 6, 0, 0, 0, 3],
    [4, 0, 0, 8, 0, 3, 0, 0, 1],
    [7, 0, 0, 0, 2, 0, 0, 0, 6],
    [0, 6, 0, 0, 0, 0, 2, 8, 0],
    [0, 0, 0, 4, 1, 9, 0, 0, 5],
    [0, 0, 0, 0, 8, 0, 0, 7, 9],
];

const EASY_SOLVED: [[u8; 9]; 9] = [
    [5, 3, 4, 6, 7, 8, 9, 1, 2],
    [6, 7, 2, 1, 9, 5, 3, 4, 8],
    [1, 9, 8, 3, 4, 2, 5, 6, 7],
    [8, 5, 9, 7, 6, 1, 4, 2, 3],
    [4, 2, 6, 8, 5, 3, 7, 9, 1],
    [7, 1, 3, 9, 2, 4, 8, 5, 6],
    [9, 6, 1, 5, 3, 7, 2, 8, 4],
    [2, 8, 7, 4, 1, 9, 6, 3, 5],
    [3, 4, 5, 2, 8, 6, 1, 7, 9],
];

#[test]
fn backtrack_set_get_and_clear() {
    let mut sudoku = Sudoku::new();
    assert_eq!(sudoku.grid(), &[[0u8; 9]; 9]);
    assert_eq!(sudoku.set(2, 3, 7), Ok(()));
    assert_eq!(sudoku.get(2, 3), Ok(7));
    assert_eq!(sudoku.set(2, 4, 7), Ok(()));
    assert_eq!(sudoku.get(2, 4), Ok(7));
    assert_eq!(sudoku.is_valid(2, 3), Ok(false));
    assert_eq!(sudoku.is_valid(2, 4), Ok(false));
    assert_eq!(sudoku.is_valid(0, 0), Ok(true));
    assert!(!sudoku.is_all_valid());
    assert_eq!(sudoku.clear(2, 4), Ok(()));
    assert_eq!(sudoku.get(2, 4), Ok(0));
    assert_eq!(sudoku.is_valid(2, 3), Ok(true));
    assert!(sudoku.is_all_valid());
    sudoku.clear_all();
    assert_eq!(sudoku.grid(), &[[0u8; 9]; 9]);
}

#[test]
fn backtrack_is_valid_looks_at_row_column_and_zone() {
    let mut sudoku = Sudoku::new();
    sudoku.set(4, 4, 3).unwrap();
    assert_eq!(sudoku.is_valid(4, 4), Ok(true));
    sudoku.set(4, 8, 3).unwrap();
    assert_eq!(sudoku.is_valid(4, 4), Ok(false));
    sudoku.clear(4, 8).unwrap();
    sudoku.set(0, 4, 3).unwrap();
    assert_eq!(sudoku.is_valid(4, 4), Ok(false));
    sudoku.clear(0, 4).unwrap();
    sudoku.set(5, 3, 3).unwrap();
    assert_eq!(sudoku.is_valid(4, 4), Ok(false));
    sudoku.clear(5, 3).unwrap();
    sudoku.set(6, 6, 3).unwrap();
    assert_eq!(sudoku.is_valid(4, 4), Ok(true));
    assert!(sudoku.is_all_valid());
}

#[test]
fn backtrack_errors() {
    let mut sudoku = Sudoku::new();
    assert_eq!(Sudoku::restrain_index(8, 8), Ok(()));
    assert_eq!(Sudoku::restrain_index(9, 8), Err("Index greater than 9"));
    assert_eq!(sudoku.set(9, 0, 1), Err("Index greater than 9"));
    assert_eq!(sudoku.set(9, 0, 0), Err("Index greater than 9"));
    assert_eq!(sudoku.set(0, 0, 0), Err("Value is not in range [1..=9]"));
    assert_eq!(sudoku.set(0, 0, 10), Err("Value is not in range [1..=9]"));
    assert_eq!(sudoku.get(0, 9), Err("Index greater than 9"));
    assert_eq!(sudoku.clear(9, 9), Err("Index greater than 9"));
    assert_eq!(sudoku.is_valid(0, 9), Err("Index greater than 9"));
    let mut bad = EASY;
    bad[8][8] = 10;
    assert_eq!(sudoku.set_grid(bad), Err("grid contains value outside [0..=9]"));
    assert_eq!(sudoku.grid(), &[[0u8; 9]; 9]);
    assert_eq!(Sudoku::from(bad).err(), Some("grid contains value outside [0..=9]"));
    assert_eq!(sudoku.set_grid(EASY), Ok(()));
    assert_eq!(sudoku.grid(), &EASY);
}

#[test]
fn backtrack_solves_the_puzzle() {
    let mut sudoku = Sudoku::from(EASY).unwrap();
    assert!(sudoku.is_all_valid());
    assert!(sudoku.solve());
    assert_eq!(sudoku.grid(), &EASY_SOLVED);
    assert!(sudoku.is_all_valid());
    assert!(sudoku.solve_at(0, 0));
    assert_eq!(sudoku.grid(), &EASY_SOLVED);
}

#[test]
fn backtrack_leaves_a_board_without_solution_as_it_was() {
    let mut entries = [[0u8; 9]; 9];
    for c in 0..7 {
        entries[8][c] = c as u8 + 1;
    }
    entries[7][7] = 8;
    let mut sudoku = Sudoku::from(entries).unwrap();
    assert!(sudoku.is_all_valid());
    assert!(!sudoku.solve_at(8, 7));
    assert_eq!(sudoku.grid(), &entries);
    let mut clash = [[0u8; 9]; 9];
    clash[0][0] = 5;
    clash[0][5] = 5;
    let mut sudoku = Sudoku::from(clash).unwrap();
    assert!(!sudoku.is_all_valid());
    assert!(!sudoku.solve());
    assert_eq!(sudoku.grid(), &clash);
    assert!(sudoku.solve_at(9, 0));
    assert_eq!(sudoku.grid(), &clash);
}

#[test]
fn backtrack_text() {
    let sudoku = Sudoku::from(EASY_SOLVED).unwrap();
    let expected = "5 3 4  6 7 8  9 1 2  \n\
                    6 7 2  1 9 5  3 4 8  \n\
                    1 9 8  3 4 2  5 6 7  \n\
                    \n\
                    8 5 9  7 6 1  4 2 3  \n\
                    4 2 6  8 5 3  7 9 1  \n\
                    7 1 3  9 2 4  8 5 6  \n\
                    \n\
                    9 6 1  5 3 7  2 8 4  \n\
                    2 8 7  4 1 9  6 3 5  \n\
                    3 4 5  2 8 6  1 7 9  \n\
                    \n";
    assert_eq!(sudoku.to_string(), expected);
}
