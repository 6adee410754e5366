use sudoku::Board;

fn flat_cells(b: &Board) -> Vec<u8> {
    let mut out = Vec::new();
    for r in 0..9 {
        for c in 0..9 {
            out.push(b.get(r, c));
        }
    }
    out
}

#[test]
fn short_input_leaves_rest_empty() {
    let board = Board::from_bytes(b"123");
    let cells = flat_cells(&board);
    assert_eq!(&cells[..3], &[1, 2, 3]);
    assert!(cells[3..].iter().all(|&v| v == 0));
}

#[test]
fn non_digit_bytes_are_skipped() {
    let board = Board::from_bytes(b" 1,x\n2\t!3 ");
    let cells = flat_cells(&board);
    assert_eq!(&cells[..3], &[1, 2, 3]);
    assert!(cells[3..].iter().all(|&v| v == 0));
}

#[test]
fn zero_digit_means_empty() {
    let board = Board::from_bytes(b"907");
    let cells = flat_cells(&board);
    assert_eq!(&cells[..3], &[9, 0, 7]);
    assert_eq!(board.get(0, 1), 0);
}

#[test]
fn digits_beyond_the_81st_are_ignored() {
    let mut input = Vec::new();
    for i in 0..81u32 {
        input.push(b'0' + (i % 9 + 1) as u8);
    }
    input.extend_from_slice(b"55555");
    let board = Board::from_bytes(&input);
    let cells = flat_cells(&board);
    for i in 0..81 {
        assert_eq!(cells[i], (i % 9 + 1) as u8);
    }
}

#[test]
fn empty_input_gives_empty_grid() {
    let board = Board::from_bytes(b"");
    assert!(flat_cells(&board).iter().all(|&v| v == 0));
}

#[test]
fn row_major_order() {
    let board = Board::from_bytes(b"123456789 456");
    assert_eq!(board.get(0, 8), 9);
    assert_eq!(board.get(1, 0), 4);
    assert_eq!(board.get(1, 2), 6);
    assert_eq!(board.get(1, 3), 0);
}
