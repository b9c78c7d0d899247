use sudoku::parse::{parse_grid, parse_grids, parse_number, split_blocks, split_fields};

fn as_texts(parts: Vec<Vec<u8>>) -> Vec<String> {
    parts.into_iter().map(|p| String::from_utf8(p).unwrap()).collect()
}

#[test]
fn numbers_are_read_as_std_reads_them() {
    assert_eq!(parse_number(b"0"), Some(0));
    assert_eq!(parse_number(b"7"), Some(7));
    assert_eq!(parse_number(b"+7"), Some(7));
    assert_eq!(parse_number(b"007"), Some(7));
    assert_eq!(parse_number(b"255"), Some(255));
    assert_eq!(parse_number(b"0000000000000000000000255"), Some(255));
    assert_eq!(parse_number(b"256"), None);
    assert_eq!(parse_number(b"99999999999999999999999999"), None);
    assert_eq!(parse_number(b""), None);
    assert_eq!(parse_number(b"+"), None);
    assert_eq!(parse_number(b"++1"), None);
    assert_eq!(parse_number(b"-1"), None);
    assert_eq!(parse_number(b"-0"), None);
    assert_eq!(parse_number(b"1 "), None);
    assert_eq!(parse_number(b" 1"), None);
    assert_eq!(parse_number(b"12a"), None);
    assert_eq!(parse_number(b"1\r"), None);
    assert_eq!(parse_number(b"2567"), None);
    for text in ["", "+", "-", "0", "9", "10", "+0", "-7", "+255", "+256", "300", "1000", "25 5", "٣", "1e1", "0x1"] {
        assert_eq!(parse_number(text.as_bytes()), text.parse::<u8>().ok(), "{text:?}");
    }
    for n in 0..=1000u32 {
        let text = n.to_string();
        assert_eq!(parse_number(text.as_bytes()), text.parse::<u8>().ok());
    }
}

#[test]
fn fields_are_split_as_std_splits_them() {
    assert_eq!(as_texts(split_fields(b"1 2 3", b' ')), vec!["1", "2", "3"]);
    assert_eq!(as_texts(split_fields(b"", b' ')), vec![""]);
    assert_eq!(as_texts(split_fields(b" ", b' ')), vec!["", ""]);
    assert_eq!(as_texts(split_fields(b"1  2 ", b' ')), vec!["1", "", "2", ""]);
    for text in ["", "a", "\n", "a\nb", "a\n\nb\n", "\n\n\n", "1 2\n3 4"] {
        let expected: Vec<String> = text.split('\n').map(String::from).collect();
        assert_eq!(as_texts(split_fields(text.as_bytes(), b'\n')), expected, "{text:?}");
    }
}

#[test]
fn blocks_are_split_at_pairs_of_line_breaks() {
    assert_eq!(as_texts(split_blocks(b"x\n\ny")), vec!["x", "y"]);
    assert_eq!(as_texts(split_blocks(b"x\n\n\ny")), vec!["x", "\ny"]);
    assert_eq!(as_texts(split_blocks(b"x\ny")), vec!["x\ny"]);
    for text in ["", "\n", "\n\n", "\n\n\n", "\n\n\n\n", "a\n\n", "a\nb\n\nc\nd", "a\n\n\n\nb", "\n\na\n"] {
        let expected: Vec<String> = text.split("\n\n").map(String::from).collect();
        assert_eq!(as_texts(split_blocks(text.as_bytes())), expected, "{text:?}");
    }
}

#[test]
fn a_board_is_read_line_by_line() {
    let text = "0 0 8 0 0 9 0 6 2\n\
                0 0 0 0 0 0 0 0 5\n\
                1 0 2 5 0 0 0 0 0\n\
                0 0 0 2 1 0 0 9 0\n\
                0 5 0 0 0 0 6 0 0\n\
                6 0 0 0 0 0 0 2 8\n\
                4 1 0 6 0 8 0 0 0\n\
                8 6 0 0 3 0 1 0 0\n\
                0 0 0 0 0 0 4 0 0";
    let expected = [
        [0, 0, 8, 0, 0, 9, 0, 6, 2],
        [0, 0, 0, 0, 0, 0, 0, 0, 5],
        [1, 0, 2, 5, 0, 0, 0, 0, 0],
        [0, 0, 0, 2, 1, 0, 0, 9, 0],
        [0, 5, 0, 0, 0, 0, 6, 0, 0],
        [6, 0, 0, 0, 0, 0, 0, 2, 8],
        [4, 1, 0, 6, 0, 8, 0, 0, 0],
        [8, 6, 0, 0, 3, 0, 1, 0, 0],
        [0, 0, 0, 0, 0, 0, 4, 0, 0],
    ];
    assert_eq!(parse_grid(text.as_bytes()), Some(expected));
    let mut short = [[0u8; 9]; 9];
    short[0][0] = 1;
    short[0][1] = 200;
    short[1][0] = 3;
    assert_eq!(parse_grid(b"1 200\n3"), Some(short));
    assert_eq!(parse_grid(b""), None);
    assert_eq!(parse_grid(b"1 2\n"), None);
    assert_eq!(parse_grid(b"1  2"), None);
    assert_eq!(parse_grid(b"1 x"), None);
    assert_eq!(parse_grid(b"1 256"), None);
    assert_eq!(parse_grid(b"1 2 3 4 5 6 7 8 9 1"), None);
    assert_eq!(parse_grid(b"1\n2\n3\n4\n5\n6\n7\n8\n9\n1"), None);
    let mut column = [[0u8; 9]; 9];
    for r in 0..9 {
        column[r][0] = r as u8 + 1;
    }
    assert_eq!(parse_grid(b"1\n2\n3\n4\n5\n6\n7\n8\n9"), Some(column));
}

#[test]
fn boards_are_read_in_their_order() {
    let mut first = [[0u8; 9]; 9];
    first[0] = [1, 2, 3, 0, 0, 0, 0, 0, 0];
    first[1][0] = 4;
    let mut second = [[0u8; 9]; 9];
    second[0][0] = 9;
    assert_eq!(parse_grids(b"1 2 3\n4\n\n9"), Some(vec![first, second]));
    assert_eq!(parse_grids(b"9"), Some(vec![second]));
    assert_eq!(parse_grids(b""), None);
    assert_eq!(parse_grids(b"9\n"), None);
    assert_eq!(parse_grids(b"9\n\n"), None);
    assert_eq!(parse_grids(b"1 2 3\n4\n\n\n9"), None);
    assert_eq!(parse_grids(b"1 2 3\n4\n\n9 a"), None);
}
