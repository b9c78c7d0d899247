use sudoku::wavefunc::{BitSet, Cell, GridError, Sudoku};

const CLASSIC: [[u8; 9]; 9] = [
    [0, 0, 8, 0, 0, 9, 0, 6, 2],
    [0, 0, 0, 0, 0, 0, 0, 0, 5],
    [1, 0, 2, 5, 0, 0, 0, 0, 0],
    [0, 0, 0, 2, 1, 0, 0, 9, 0],
    [0, 5, 0, 0, 0, 0, 6, 0, 0],
    [6, 0, 0, 0, 0, 0, 0, 2, 8],
    [4, 1, 0, 6, 0, 8, 0, 0, 0],
    [8, 6, 0, 0, 3, 0, 1, 0, 0],
    [0, 0, 0, 0, 0, 0, 4, 0, 0],
];

const SOLUTION: [[u8; 9]; 9] = [
    [5, 3, 4, 6, 7, 8, 9, 1, 2],
    [6, 7, 2, 1, 9, 5, 3, 4, 8],
    [1, 9, 8, 3, 4, 2, 5, 6, 7],
    [8, 5, 9, 7, 6, 1, 4, 2, 3],
    [4, 2, 6, 8, 5, 3, 7, 9, 1],
    [7, 1, 3, 9, 2, 4, 8, 5, 6],
    [9, 6, 1, 5, 3, 7, 2, 8, 4],
    [2, 8, 7, 4, 1, 9, 6, 3, 5],
    [3, 4, 5, 2, 8, 6, 1, 7, 9],
];

fn digits_of_solved(sudoku: &Sudoku) -> [[u8; 9]; 9] {
    let mut digits = [[0u8; 9]; 9];
    for row in 0..9 {
        for col in 0..9 {
            match sudoku.get(row, col) {
                Cell::Known(v) => digits[row][col] = v,
                other => panic!("cell ({row}, {col}) is {other:?}"),
            }
        }
    }
    digits
}

fn is_complete_and_consistent(digits: &[[u8; 9]; 9]) -> bool {
    for i in 0..9 {
        let mut row = [false; 10];
        let mut col = [false; 10];
        let mut zone = [false; 10];
        for j in 0..9 {
            let a = digits[i][j] as usize;
            let b = digits[j][i] as usize;
            let c = digits[3 * (i / 3) + j / 3][3 * (i % 3) + j % 3] as usize;
            if !(1..=9).contains(&a) || !(1..=9).contains(&b) || !(1..=9).contains(&c) {
                return false;
            }
            if row[a] || col[b] || zone[c] {
                return false;
            }
            row[a] = true;
            col[b] = true;
            zone[c] = true;
        }
    }
    true
}

#[test]
fn initial_set() {
    assert_eq!(0b1111111110, 1022);
    assert_eq!(BitSet::full().mask(), 1022);
}

#[test]
fn full_cell() {
    assert_eq!(Cell::new().possible_values(), BitSet::full());
}

#[test]
fn cell_with_missing_values() {
    let mut cell = Cell::new();
    assert!(!cell.without(1).possible_values().contains(1));
    for i in 1..=9 {
        cell = cell.without(i);
    }
    assert!(cell.possible_values().is_empty());
    let cell = cell.to_string();
    println!("{cell}");
}

#[test]
fn cell_invalid_set() {
    let cell = Cell::new().without(1);
    assert_eq!(cell.set(1), Cell::Invalid(Some(1)));

    let mut cell = Cell::new();
    for i in 1..=9 {
        cell = cell.without(i);
    }
    assert_eq!(cell, Cell::Invalid(None));
}

#[test]
fn domain_ignores_what_is_no_digit() {
    for v in [0u8, 10, 15, 16, 17, 100, 255] {
        for set in [BitSet::new(), BitSet::full(), BitSet::from_single(4)] {
            assert!(!set.contains(v));
            assert_eq!(set.insert(v), set);
            assert_eq!(set.insert(v).size(), set.size());
            assert_eq!(set.remove(v), set);
            assert_eq!(set.remove(v).size(), set.size());
        }
    }
}

#[test]
fn domain_sizes() {
    assert_eq!(BitSet::full().size(), 9);
    assert_eq!(BitSet::new().size(), 0);
    assert!(BitSet::new().is_empty());
    assert!(!BitSet::full().is_empty());
    for v in 1..=9u8 {
        let rest = BitSet::full().remove(v);
        assert_eq!(rest.size(), 8);
        assert!(!rest.contains(v));
        assert_eq!(rest.mask(), 1022 & !(1u16 << v));
        assert_eq!(rest.insert(v), BitSet::full());
    }
}

#[test]
fn domain_changes_size_only_with_membership() {
    let set = BitSet::from_single(3);
    assert_eq!(set.size(), 1);
    assert_eq!(set.mask(), 8);
    assert!(set.contains(3));
    assert_eq!(set.insert(3), set);
    assert_eq!(set.insert(7).size(), 2);
    assert_eq!(set.insert(7).mask(), 8 + 128);
    assert_eq!(set.remove(7), set);
    assert_eq!(set.remove(3), BitSet::new());
    assert_eq!(set.remove(3).size(), 0);
}

#[test]
fn known_and_invalid_cells_absorb() {
    for v in 1..=9u8 {
        for x in [0u8, 1, 5, 9, 10, 200] {
            for y in [0u8, 2, 9, 77] {
                assert_eq!(Cell::Known(v).set(x).set(y), Cell::Known(v));
                assert_eq!(Cell::Known(v).without(x), Cell::Known(v));
                assert_eq!(Cell::Invalid(Some(v)).without(x), Cell::Invalid(Some(v)));
                assert_eq!(Cell::Invalid(None).without(x), Cell::Invalid(None));
                assert_eq!(Cell::Invalid(None).set(x), Cell::Invalid(None));
            }
        }
    }
    assert!(Cell::Known(3).is_valid());
    assert!(Cell::new().is_valid());
    assert!(!Cell::Invalid(None).is_valid());
    assert!(!Cell::Invalid(Some(3)).is_valid());
}

#[test]
fn cell_transitions() {
    assert_eq!(Cell::new(), Cell::Unknown(BitSet::full()));
    assert_eq!(Cell::default_values(), BitSet::full());
    assert_eq!(Cell::new().set(4), Cell::Known(4));
    assert_eq!(Cell::new().without(4).set(4), Cell::Invalid(Some(4)));
    assert_eq!(Cell::new().without(4), Cell::Unknown(BitSet::full().remove(4)));
    assert_eq!(Cell::Known(6).possible_values(), BitSet::from_single(6));
    assert_eq!(Cell::Invalid(Some(6)).possible_values(), BitSet::new());
    assert_eq!(Cell::Invalid(None).possible_values(), BitSet::new());
}

#[test]
fn narrowing_in_any_order_ends_invalid() {
    for order in [
        [1u8, 2, 3, 4, 5, 6, 7, 8, 9],
        [9, 8, 7, 6, 5, 4, 3, 2, 1],
        [5, 3, 9, 1, 7, 2, 8, 4, 6],
    ] {
        let mut cell = Cell::new();
        for (k, v) in order.iter().enumerate() {
            assert!(cell.is_valid());
            assert_eq!(cell.possible_values().size() as usize, 9 - k);
            assert!(cell.possible_values().contains(*v));
            if k == 8 {
                assert_eq!(cell, Cell::Unknown(BitSet::from_single(*v)));
            }
            cell = cell.without(*v);
        }
        assert_eq!(cell, Cell::Invalid(None));
        assert!(cell.possible_values().is_empty());
    }
}

#[test]
fn empty_grid_has_fresh_cells() {
    let grid = Sudoku::empty();
    assert!(grid.is_valid());
    for row in 0..9 {
        for col in 0..9 {
            assert_eq!(grid.get(row, col), Cell::new());
        }
    }
    let cells = grid.cells_with_indexes();
    assert_eq!(cells.len(), 81);
    assert_eq!(cells[0], (Cell::new(), 0, 0));
    assert_eq!(cells[10], (Cell::new(), 1, 1));
    assert_eq!(cells[80], (Cell::new(), 8, 8));
}

#[test]
fn set_narrows_the_peers_once() {
    let before = Sudoku::empty();
    let after = before.set(4, 4, 5);
    assert_eq!(before.get(4, 4), Cell::new());
    assert_eq!(after.get(4, 4), Cell::Known(5));
    let narrowed = Cell::Unknown(BitSet::full().remove(5));
    for row in 0..9 {
        for col in 0..9 {
            if row == 4 && col == 4 {
                continue;
            }
            let linked = row == 4 || col == 4 || (row / 3 == 1 && col / 3 == 1);
            let expected = if linked { narrowed } else { Cell::new() };
            assert_eq!(after.get(row, col), expected, "cell ({row}, {col})");
        }
    }
    assert_eq!(after.get(4, 0).possible_values().mask(), 990);
    assert_eq!(after.get(4, 0).possible_values().size(), 8);
}

#[test]
fn set_on_a_cell_without_the_digit_invalidates_it() {
    let grid = Sudoku::empty().set(0, 0, 5).set(0, 1, 5);
    assert_eq!(grid.get(0, 0), Cell::Known(5));
    assert_eq!(grid.get(0, 1), Cell::Invalid(Some(5)));
    assert!(!grid.is_valid());
    assert_eq!(grid.set(0, 1, 3).get(0, 1), Cell::Invalid(Some(5)));
    assert_eq!(grid.set(0, 0, 3).get(0, 0), Cell::Known(5));
}

#[test]
fn affected_cells_are_row_column_and_block() {
    let grid = Sudoku::empty();
    let cells = grid.affected_cells(4, 7);
    assert_eq!(cells.len(), 21);
    let places: Vec<(usize, usize)> = cells.iter().map(|(_, r, c)| (*r, *c)).collect();
    for row in 0..9 {
        for col in 0..9 {
            let linked = row == 4 || col == 7 || (row / 3 == 1 && col / 3 == 2);
            assert_eq!(places.contains(&(row, col)), linked);
        }
    }
    let mut sorted = places.clone();
    sorted.sort();
    assert_eq!(places, sorted);
    assert_eq!(places[0], (0, 7));
    assert!(places.contains(&(4, 7)));
}

#[test]
fn lowest_entropy_takes_the_first_of_the_smallest() {
    assert_eq!(Sudoku::empty().lowest_entropy(), Some((Cell::new(), 0, 0)));
    let grid = Sudoku::empty().set(8, 8, 1);
    let narrowed = Cell::Unknown(BitSet::full().remove(1));
    assert_eq!(grid.lowest_entropy(), Some((narrowed, 0, 8)));
    let grid = grid.set(7, 7, 2);
    let twice = Cell::Unknown(BitSet::full().remove(1).remove(2));
    assert_eq!(grid.lowest_entropy(), Some((twice, 6, 6)));
    let solved = Sudoku::from(SOLUTION);
    assert_eq!(solved.lowest_entropy(), None);
}

#[test]
fn solution_round_trip() {
    let grid = Sudoku::from(SOLUTION);
    assert!(grid.is_valid());
    for row in 0..9 {
        for col in 0..9 {
            assert_eq!(grid.get(row, col), Cell::Known(SOLUTION[row][col]));
        }
    }
    let solved = grid.solved().expect("a solution is its own completion");
    assert_eq!(digits_of_solved(&solved), SOLUTION);
}

#[test]
fn classic_grid_is_solved() {
    let grid = Sudoku::from(CLASSIC);
    assert!(grid.is_valid());
    let solved = grid.solved().expect("the classic grid has a solution");
    assert!(solved.is_valid());
    let digits = digits_of_solved(&solved);
    assert!(is_complete_and_consistent(&digits));
    for row in 0..9 {
        for col in 0..9 {
            if CLASSIC[row][col] != 0 {
                assert_eq!(digits[row][col], CLASSIC[row][col]);
            }
        }
    }
    assert_eq!(Sudoku::from(digits).solved().map(|s| digits_of_solved(&s)), Some(digits));
}

#[test]
fn solving_leaves_the_input_untouched() {
    let grid = Sudoku::from(CLASSIC);
    let before: Vec<Cell> = grid.cells_with_indexes().iter().map(|t| t.0).collect();
    let _ = grid.solved();
    let after: Vec<Cell> = grid.cells_with_indexes().iter().map(|t| t.0).collect();
    assert_eq!(before, after);
}

#[test]
fn repeated_digit_in_a_row_is_invalid() {
    let mut digits = [[0u8; 9]; 9];
    digits[0][1] = 5;
    digits[0][6] = 5;
    let grid = Sudoku::from(digits);
    assert!(!grid.is_valid());
    assert_eq!(grid.get(0, 1), Cell::Known(5));
    assert_eq!(grid.get(0, 6), Cell::Invalid(Some(5)));
    assert!(grid.solved().is_none());
}

#[test]
fn repeated_digit_in_a_column_or_block_is_invalid() {
    let mut digits = [[0u8; 9]; 9];
    digits[2][3] = 7;
    digits[8][3] = 7;
    assert!(!Sudoku::from(digits).is_valid());
    assert!(Sudoku::from(digits).solved().is_none());
    let mut digits = [[0u8; 9]; 9];
    digits[3][3] = 2;
    digits[5][4] = 2;
    assert!(!Sudoku::from(digits).is_valid());
    assert!(Sudoku::from(digits).solved().is_none());
}

#[test]
fn empty_grid_is_solvable() {
    let solved = Sudoku::from([[0u8; 9]; 9]).solved().expect("the empty grid has completions");
    assert!(solved.is_valid());
    assert!(is_complete_and_consistent(&digits_of_solved(&solved)));
    let again = Sudoku::empty().solved().expect("the empty grid has completions");
    assert_eq!(digits_of_solved(&again), digits_of_solved(&solved));
}

#[test]
fn depleted_cell_means_no_solution() {
    let mut digits = [[0u8; 9]; 9];
    for col in 0..8 {
        digits[0][col] = col as u8 + 1;
    }
    digits[5][8] = 9;
    let grid = Sudoku::from(digits);
    assert_eq!(grid.get(0, 8), Cell::Invalid(None));
    assert!(!grid.is_valid());
    assert!(grid.solved().is_none());
}

#[test]
fn valid_grid_without_completion_has_no_solution() {
    // The last two cells of the first row can both take 9 only.
    let mut digits = [[0u8; 9]; 9];
    for col in 0..7 {
        digits[0][col] = col as u8 + 1;
    }
    digits[1][7] = 8;
    let grid = Sudoku::from(digits);
    assert!(grid.is_valid());
    assert_eq!(grid.get(0, 7), Cell::Unknown(BitSet::from_single(9)));
    assert_eq!(grid.get(0, 8), Cell::Unknown(BitSet::from_single(9)));
    assert_eq!(grid.lowest_entropy(), Some((Cell::Unknown(BitSet::from_single(9)), 0, 7)));
    assert!(grid.solved().is_none());
}

#[test]
fn cell_text_without_colours() {
    colored::control::set_override(false);
    assert_eq!(Cell::Known(5).to_string(), "5");
    assert_eq!(Cell::new().to_string(), "-");
    assert_eq!(Cell::Invalid(Some(7)).to_string(), "7");
    assert_eq!(Cell::Invalid(Some(200)).to_string(), "200");
    assert_eq!(Cell::Invalid(None).to_string(), "X");
}

#[test]
fn cell_text_with_colours() {
    colored::control::set_override(true);
    assert_eq!(Cell::Known(5).to_string(), "\x1b[32m5\x1b[0m");
    assert_eq!(Cell::new().to_string(), "-");
    assert_eq!(Cell::Invalid(Some(7)).to_string(), "\x1b[31m7\x1b[0m");
    assert_eq!(Cell::Invalid(None).to_string(), "\x1b[31mX\x1b[0m");
}

#[test]
fn grid_text_is_laid_out_three_by_three() {
    colored::control::set_override(false);
    let grid = Sudoku::empty().set(0, 0, 5).set(0, 1, 5);
    let block = "- - -  - - -  - - -  \n";
    let mut expected = String::new();
    expected.push_str("5 5 -  - - -  - - -  \n");
    expected.push_str(block);
    expected.push_str(block);
    expected.push('\n');
    for _ in 0..2 {
        for _ in 0..3 {
            expected.push_str(block);
        }
        expected.push('\n');
    }
    assert_eq!(grid.to_string(), expected);
    assert_eq!(grid.affected_text(4, 4), expected);
}

#[test]
fn affected_text_swaps_the_colours_of_linked_cells() {
    colored::control::set_override(true);
    let text = Sudoku::empty().affected_text(0, 0);
    let marked = "\x1b[7m-\x1b[0m";
    let first = format!(
        "{marked} {marked} {marked}  {marked} {marked} {marked}  {marked} {marked} {marked}  \n"
    );
    let second = format!("{marked} {marked} {marked}  - - -  - - -  \n");
    let fourth = format!("{marked} - -  - - -  - - -  \n");
    let lines: Vec<&str> = text.split_inclusive('\n').collect();
    assert_eq!(lines.len(), 12);
    assert_eq!(lines[0], first);
    assert_eq!(lines[1], second);
    assert_eq!(lines[2], second);
    assert_eq!(lines[3], "\n");
    assert_eq!(lines[4], fourth);
    assert_eq!(lines[11], "\n");
}

#[test]
fn checked_entry_points_turn_bad_input_away() {
    let grid = Sudoku::empty();
    assert_eq!(grid.checked_set(9, 0, 1).err(), Some(GridError::PlaceOutOfRange));
    assert_eq!(grid.checked_set(0, 9, 1).err(), Some(GridError::PlaceOutOfRange));
    assert_eq!(grid.checked_set(9, 9, 0).err(), Some(GridError::PlaceOutOfRange));
    assert_eq!(grid.checked_set(0, 0, 0).err(), Some(GridError::ValueOutOfRange));
    assert_eq!(grid.checked_set(8, 8, 10).err(), Some(GridError::ValueOutOfRange));
    let set = grid.checked_set(8, 8, 9).unwrap();
    assert_eq!(set.get(8, 8), Cell::Known(9));
    assert_eq!(set.get(8, 0), grid.set(8, 8, 9).get(8, 0));
    let mut digits = CLASSIC;
    assert_eq!(
        digits_of_solved(&Sudoku::checked_from(SOLUTION).unwrap()),
        SOLUTION
    );
    assert!(Sudoku::checked_from(digits).is_ok());
    digits[8][8] = 10;
    assert_eq!(Sudoku::checked_from(digits).err(), Some(GridError::ValueOutOfRange));
    digits[8][8] = 255;
    assert_eq!(Sudoku::checked_from(digits).err(), Some(GridError::ValueOutOfRange));
}

#[test]
fn solvers_agree_on_the_classic_grid() {
    let solved = Sudoku::from(CLASSIC).solved().unwrap();
    let mut other = sudoku::bits::Sudoku::from(CLASSIC).unwrap();
    assert!(other.solve());
    let digits = digits_of_solved(&solved);
    for row in 0..9 {
        for col in 0..9 {
            assert_eq!(other.get(row, col), Ok(digits[row][col]));
        }
    }
}

#[test]
fn affected_text_leaves_cells_that_are_not_linked_as_they_are() {
    colored::control::set_override(true);
    let grid = Sudoku::empty().set(8, 8, 4);
    let text = grid.affected_text(0, 0);
    let lines: Vec<&str> = text.split_inclusive('\n').collect();
    assert_eq!(lines[10], "\x1b[7m-\x1b[0m - -  - - -  - - \x1b[32m4\x1b[0m  \n");
    assert_eq!(grid.to_string().lines().nth(10), Some("- - -  - - -  - - \x1b[32m4\x1b[0m  "));
}

#[test]
fn a_grid_is_solved_when_every_cell_is_known() {
    assert!(!Sudoku::empty().is_solved());
    assert!(!Sudoku::from(CLASSIC).is_solved());
    assert!(Sudoku::from(SOLUTION).is_solved());
    assert!(Sudoku::from(CLASSIC).solved().unwrap().is_solved());
    let mut clash = SOLUTION;
    clash[8][8] = clash[8][7];
    assert!(!Sudoku::from(clash).is_solved());
}
