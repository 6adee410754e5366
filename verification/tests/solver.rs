use sudoku::Board;

const PUZZLE: [[u8; 9]; 9] = [
    [8, 0, 9, 3, 0, 0, 0, 0, 0],
    [7, 0, 0, 0, 5, 0, 0, 0, 0],
    [0, 1, 3, 7, 0, 8, 0, 9, 0],
    [2, 0, 0, 0, 0, 0, 0, 3, 0],
    [0, 0, 1, 0, 0, 0, 2, 0, 0],
    [0, 4, 0, 0, 0, 0, 0, 0, 8],
    [0, 5, 0, 8, 0, 9, 7, 6, 0],
    [0, 0, 0, 0, 1, 0, 0, 0, 3],
    [0, 0, 0, 0, 0, 6, 8, 0, 1],
];

const SOLUTION: [[u8; 9]; 9] = [
    [8, 6, 9, 3, 4, 2, 5, 1, 7],
    [7, 2, 4, 9, 5, 1, 3, 8, 6],
    [5, 1, 3, 7, 6, 8, 4, 9, 2],
    [2, 9, 8, 1, 7, 4, 6, 3, 5],
    [3, 7, 1, 6, 8, 5, 2, 4, 9],
    [6, 4, 5, 2, 9, 3, 1, 7, 8],
    [1, 5, 2, 8, 3, 9, 7, 6, 4],
    [4, 8, 6, 5, 1, 7, 9, 2, 3],
    [9, 3, 7, 4, 2, 6, 8, 5, 1],
];

fn board_of(cells: &[[u8; 9]; 9]) -> Board {
    let mut b = Board::new();
    for r in 0..9 {
        for c in 0..9 {
            b.set(r, c, cells[r][c]);
        }
    }
    b
}

fn cells_of(b: &Board) -> [[u8; 9]; 9] {
    let mut out = [[0u8; 9]; 9];
    for r in 0..9 {
        for c in 0..9 {
            out[r][c] = b.get(r, c);
        }
    }
    out
}

#[test]
fn test_solve() {
    let mut board = board_of(&PUZZLE);
    board.solve().unwrap();
    assert_eq!(cells_of(&board), SOLUTION);
}

#[test]
fn solve_from_parsed_input() {
    let mut text = String::new();
    for row in PUZZLE.iter() {
        for &v in row.iter() {
            text.push((b'0' + v) as char);
            text.push(' ');
        }
        text.push('\n');
    }
    let mut board = Board::from_bytes(text.as_bytes());
    assert_eq!(cells_of(&board), PUZZLE);
    board.solve().unwrap();
    assert_eq!(cells_of(&board), SOLUTION);
}

#[test]
fn solved_grid_is_left_unchanged() {
    let mut board = board_of(&SOLUTION);
    assert!(!board.has_error());
    board.solve().unwrap();
    assert_eq!(cells_of(&board), SOLUTION);
}

#[test]
fn row_conflict_fails_without_change() {
    let mut board = Board::new();
    board.set(0, 0, 5);
    board.set(0, 4, 5);
    assert!(board.has_error());
    let before = cells_of(&board);
    assert!(board.solve().is_err());
    assert_eq!(cells_of(&board), before);
}

#[test]
fn column_conflict_is_detected() {
    let mut board = Board::new();
    board.set(1, 3, 7);
    board.set(8, 3, 7);
    assert!(board.has_error());
    assert!(board.solve().is_err());
}

#[test]
fn box_conflict_is_detected() {
    let mut board = Board::new();
    board.set(0, 0, 2);
    board.set(2, 2, 2);
    assert!(board.has_error());
    assert!(board.solve().is_err());
}

#[test]
fn consistent_partial_grid_has_no_error() {
    let board = board_of(&PUZZLE);
    assert!(!board.has_error());
}

#[test]
fn empty_grid_solves() {
    let mut board = Board::new();
    board.solve().unwrap();
    assert!(!board.has_error());
    for r in 0..9 {
        for c in 0..9 {
            let v = board.get(r, c);
            assert!((1..=9).contains(&v));
        }
    }
}

#[test]
fn full_grid_with_conflict_is_rejected() {
    let mut board = board_of(&SOLUTION);
    // Two 8s in row 0 and in column 0.
    board.set(0, 0, board.get(1, 0));
    assert!(board.has_error());
    let before = cells_of(&board);
    assert!(board.solve().is_err());
    assert_eq!(cells_of(&board), before);
}

#[test]
fn unsolvable_partial_grid_is_restored() {
    // Consistent as placed, but cell (0, 0) has no digit left: its row holds
    // 1..=7, its column 8, and its box 9.
    let mut board = Board::new();
    for (c, v) in (2..9).zip(1..=7u8) {
        board.set(0, c, v);
    }
    board.set(8, 0, 8);
    board.set(1, 1, 9);
    assert!(!board.has_error());
    let before = cells_of(&board);
    assert!(board.solve().is_err());
    assert_eq!(cells_of(&board), before);
}
