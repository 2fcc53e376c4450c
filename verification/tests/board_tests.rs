use connect_four::board::{Board, Cell, Side};

fn snapshot(b: &Board) -> Vec<Vec<Cell>> {
    let mut grid = Vec::new();
    for c in 0..b.columns() {
        let mut col = Vec::new();
        for r in 0..b.row_count() {
            col.push(b.cell(c, r));
        }
        grid.push(col);
    }
    grid
}

#[test]
fn new_board_is_empty() {
    let b = Board::new(7, 6);
    assert_eq!(b.columns(), 7);
    assert_eq!(b.row_count(), 6);
    for c in 0..7 {
        for r in 0..6 {
            assert_eq!(b.cell(c, r), Cell::Empty);
        }
    }
    assert!(!b.is_full());
    assert_eq!(b.legal_columns(), vec![0, 1, 2, 3, 4, 5, 6]);
}

#[test]
fn tokens_stack_from_the_bottom() {
    let mut b = Board::new(7, 6);
    assert!(b.place(2, Side::Human));
    assert!(b.place(2, Side::Computer));
    assert!(b.place(2, Side::Human));
    assert_eq!(b.cell(2, 0), Cell::Owned(Side::Human));
    assert_eq!(b.cell(2, 1), Cell::Owned(Side::Computer));
    assert_eq!(b.cell(2, 2), Cell::Owned(Side::Human));
    assert_eq!(b.cell(2, 3), Cell::Empty);
}

#[test]
fn gravity_leaves_no_gap() {
    let mut b = Board::new(7, 6);
    let moves = [3, 3, 0, 6, 3, 0, 5, 3, 3, 3, 1, 1];
    for (i, &c) in moves.iter().enumerate() {
        let side = if i % 2 == 0 { Side::Human } else { Side::Computer };
        assert!(b.place(c, side));
    }
    for c in 0..7 {
        let mut seen_empty = false;
        for r in 0..6 {
            match b.cell(c, r) {
                Cell::Empty => seen_empty = true,
                Cell::Owned(_) => assert!(!seen_empty, "gap in column {}", c),
            }
        }
    }
}

#[test]
fn place_rejects_out_of_range_column() {
    let mut b = Board::new(7, 6);
    let before = snapshot(&b);
    assert!(!b.place(7, Side::Human));
    assert!(!b.place(usize::MAX, Side::Computer));
    assert_eq!(snapshot(&b), before);
}

#[test]
fn place_rejects_full_column() {
    let mut b = Board::new(7, 6);
    for i in 0..6 {
        let side = if i % 2 == 0 { Side::Human } else { Side::Computer };
        assert!(b.place(4, side));
    }
    let before = snapshot(&b);
    assert!(!b.place(4, Side::Human));
    assert_eq!(snapshot(&b), before);
}

#[test]
fn place_then_undo_restores_the_board() {
    let mut b = Board::new(7, 6);
    assert!(b.place(1, Side::Human));
    assert!(b.place(2, Side::Computer));
    assert!(b.place(1, Side::Human));
    let before = snapshot(&b);
    for _ in 0..3 {
        assert!(b.place(1, Side::Computer));
        b.undo(1);
        assert_eq!(snapshot(&b), before);
    }
    assert!(b.place(5, Side::Human));
    b.undo(5);
    assert_eq!(snapshot(&b), before);
}

#[test]
fn undo_on_empty_column_is_a_no_op() {
    let mut b = Board::new(7, 6);
    assert!(b.place(0, Side::Human));
    let before = snapshot(&b);
    b.undo(3);
    b.undo(9);
    assert_eq!(snapshot(&b), before);
}

#[test]
fn undo_removes_only_the_top_token() {
    let mut b = Board::new(7, 6);
    assert!(b.place(0, Side::Human));
    assert!(b.place(0, Side::Computer));
    b.undo(0);
    assert_eq!(b.cell(0, 0), Cell::Owned(Side::Human));
    assert_eq!(b.cell(0, 1), Cell::Empty);
}

#[test]
fn horizontal_line_is_detected() {
    let mut b = Board::new(7, 6);
    for c in 2..6 {
        assert!(b.place(c, Side::Computer));
    }
    assert!(b.has_line(Side::Computer));
    assert!(!b.has_line(Side::Human));
    let run = b.winning_cells(Side::Computer);
    assert_eq!(run, vec![(2, 0), (3, 0), (4, 0), (5, 0)]);
}

#[test]
fn vertical_line_is_detected() {
    let mut b = Board::new(7, 6);
    for _ in 0..4 {
        assert!(b.place(6, Side::Human));
    }
    assert!(b.has_line(Side::Human));
    assert_eq!(b.winning_cells(Side::Human), vec![(6, 0), (6, 1), (6, 2), (6, 3)]);
}

#[test]
fn rising_diagonal_line_is_detected() {
    let mut b = Board::new(7, 6);
    // Human on the rising diagonal (0,0)-(3,3), Computer as filler below.
    assert!(b.place(0, Side::Human));
    assert!(b.place(1, Side::Computer));
    assert!(b.place(1, Side::Human));
    assert!(b.place(2, Side::Computer));
    assert!(b.place(2, Side::Computer));
    assert!(b.place(2, Side::Human));
    assert!(b.place(3, Side::Computer));
    assert!(b.place(3, Side::Computer));
    assert!(b.place(3, Side::Computer));
    assert!(b.place(3, Side::Human));
    assert!(b.has_line(Side::Human));
    assert_eq!(b.winning_cells(Side::Human), vec![(0, 0), (1, 1), (2, 2), (3, 3)]);
}

#[test]
fn falling_diagonal_line_is_detected() {
    let mut b = Board::new(7, 6);
    // Computer on the falling diagonal (0,3)-(3,0), Human as filler below.
    assert!(b.place(0, Side::Human));
    assert!(b.place(0, Side::Human));
    assert!(b.place(0, Side::Human));
    assert!(b.place(0, Side::Computer));
    assert!(b.place(1, Side::Human));
    assert!(b.place(1, Side::Human));
    assert!(b.place(1, Side::Computer));
    assert!(b.place(2, Side::Human));
    assert!(b.place(2, Side::Computer));
    assert!(b.place(3, Side::Computer));
    assert!(b.has_line(Side::Computer));
    assert_eq!(b.winning_cells(Side::Computer), vec![(0, 3), (1, 2), (2, 1), (3, 0)]);
}

#[test]
fn no_line_on_three_in_a_row() {
    let mut b = Board::new(7, 6);
    for c in 0..3 {
        assert!(b.place(c, Side::Human));
    }
    assert!(!b.has_line(Side::Human));
    assert!(b.winning_cells(Side::Human).is_empty());
}

#[test]
fn mirrored_board_keeps_its_line() {
    let mut b = Board::new(7, 6);
    for c in 1..5 {
        assert!(b.place(c, Side::Human));
    }
    // The same position reflected across the vertical axis: columns 1..5
    // become columns 2..6.
    let mut m = Board::new(7, 6);
    for c in 2..6 {
        assert!(m.place(c, Side::Human));
    }
    assert!(b.has_line(Side::Human));
    assert!(m.has_line(Side::Human));
}

#[test]
fn legal_columns_skips_full_columns() {
    let mut b = Board::new(7, 6);
    for i in 0..6 {
        let side = if i % 2 == 0 { Side::Human } else { Side::Computer };
        assert!(b.place(0, side));
        assert!(b.place(5, side));
    }
    assert_eq!(b.legal_columns(), vec![1, 2, 3, 4, 6]);
    assert!(!b.is_full());
}

#[test]
fn small_board_fills_up() {
    let mut b = Board::new(2, 1);
    assert!(b.place(0, Side::Human));
    assert!(!b.is_full());
    assert!(b.place(1, Side::Computer));
    assert!(b.is_full());
    assert!(b.legal_columns().is_empty());
}
