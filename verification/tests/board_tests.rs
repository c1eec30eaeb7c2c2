use mcts_tic_tac_toe::board::{Board, Cell};

#[test]
fn test_initialize_board() {
    let b = Board::new();
    for row_index in 0..=2 {
        for col_index in 0..=2 {
            assert_eq!(b.get_cell(row_index, col_index).unwrap(), Cell::Empty);
        }
    }
}

#[test]
fn test_mark_board() {
    let mut b = Board::new();
    b.mark(Cell::X, 0, 0).unwrap();
    assert_eq!(b.get_cell(0, 0).unwrap(), Cell::X);
}

#[test]
fn test_mark_board_fails_oob() {
    let mut b = Board::new();
    let result = b.mark(Cell::X, 5, 1);
    assert_eq!(result, Err("Index out-of-bound."));
}

#[test]
fn test_mark_board_fails_non_empty_cell() {
    let mut b = Board::new();
    b.mark(Cell::X, 0, 0).unwrap();
    let result = b.mark(Cell::O, 0, 0);
    assert_eq!(result, Err("Cannot mark a non-empty cell."));
}

#[test]
fn test_board_equality_differs_after_mark() {
    let mut a = Board::new();
    let b = Board::new();
    assert_eq!(a == b, true);
    a.mark(Cell::O, 1, 2).unwrap();
    assert_eq!(a == b, false);
    assert_eq!(a.get_cell(1, 2).unwrap(), Cell::O);
}

#[test]
fn test_board_clone_is_equal() {
    let mut a = Board::new();
    a.mark(Cell::X, 2, 1).unwrap();
    let b = a.clone();
    assert_eq!(a == b, true);
    assert_eq!(b.get_cell(2, 1).unwrap(), Cell::X);
}
