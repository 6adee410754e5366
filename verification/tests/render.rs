use sudoku::Board;

const EMPTY_ROW: &str = "      |       |      \n";
const DIVIDER: &str = "------+-------+------\n";

#[test]
fn empty_grid_layout() {
    let board = Board::new();
    let mut expected = String::from("\n");
    for r in 0..9 {
        expected.push_str(EMPTY_ROW);
        if r == 2 || r == 5 {
            expected.push_str(DIVIDER);
        }
    }
    assert_eq!(board.render(), expected);
}

#[test]
fn digits_and_blanks_in_place() {
    let mut board = Board::new();
    board.set(0, 0, 1);
    board.set(0, 3, 4);
    board.set(0, 8, 9);
    board.set(3, 4, 5);
    board.set(8, 8, 7);
    let text = board.render();
    let lines: Vec<&str> = text.split('\n').collect();
    // Leading newline, nine rows, two dividers, trailing newline.
    assert_eq!(lines.len(), 13);
    assert_eq!(lines[0], "");
    assert_eq!(lines[1], "1     | 4     |     9");
    assert_eq!(lines[4], DIVIDER.trim_end());
    assert_eq!(lines[5], "      |   5   |      ");
    assert_eq!(lines[8], DIVIDER.trim_end());
    assert_eq!(lines[11], "      |       |     7");
    assert_eq!(lines[12], "");
}

#[test]
fn full_grid_layout() {
    let mut board = Board::new();
    for r in 0..9 {
        for c in 0..9 {
            board.set(r, c, ((r + c) % 9 + 1) as u8);
        }
    }
    let text = board.render();
    let lines: Vec<&str> = text.split('\n').collect();
    assert_eq!(lines[1], "1 2 3 | 4 5 6 | 7 8 9");
    assert_eq!(lines[2], "2 3 4 | 5 6 7 | 8 9 1");
    assert_eq!(lines[11], "9 1 2 | 3 4 5 | 6 7 8");
}
