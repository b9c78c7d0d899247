use sudoku::text::{board_text, decimal_text, digit_text, lay_out};

#[test]
fn numbers_in_decimal() {
    assert_eq!(decimal_text(0), "0");
    assert_eq!(decimal_text(7), "7");
    assert_eq!(decimal_text(10), "10");
    assert_eq!(decimal_text(255), "255");
    assert_eq!(decimal_text(1022), "1022");
    assert_eq!(decimal_text(65535), "65535");
    for n in 0..=2000u16 {
        assert_eq!(decimal_text(n), format!("{n}"));
    }
    for d in 0..=9u16 {
        assert_eq!(digit_text(d), format!("{d}"));
    }
}

#[test]
fn layout_of_cell_texts() {
    assert_eq!(lay_out(&vec![]), "");
    let three: Vec<String> = vec!["a".to_string(), "bc".to_string(), "".to_string()];
    assert_eq!(lay_out(&three), "a bc   ");
    let cells: Vec<String> = (0..81).map(|k| format!("{}", k % 10)).collect();
    let text = lay_out(&cells);
    let lines: Vec<&str> = text.split('\n').collect();
    assert_eq!(lines.len(), 13);
    assert_eq!(lines[0], "0 1 2  3 4 5  6 7 8  ");
    assert_eq!(lines[1], "9 0 1  2 3 4  5 6 7  ");
    assert_eq!(lines[3], "");
    assert_eq!(lines[4], "7 8 9  0 1 2  3 4 5  ");
    assert_eq!(lines[11], "");
    assert_eq!(lines[12], "");
    assert_eq!(board_text(&[[0u8; 9]; 9]), lay_out(&vec!["0".to_string(); 81]));
}
