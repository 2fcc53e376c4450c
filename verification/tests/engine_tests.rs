use connect_four::board::{Board, Side};
use connect_four::engine::{best_move, compute_ai_move, eval, minmax};

/// Reference search: plain minimax over the same exploration order, with no
/// pruning at all.
fn plain_minimax(b: &mut Board, depth: usize, ai_turn: bool) -> i32 {
    let d = depth as i32;
    if b.has_line(Side::Computer) {
        return 100 + d;
    }
    if b.has_line(Side::Human) {
        return -100 - d;
    }
    if b.is_full() {
        return 50 - d;
    }
    if depth == 0 {
        return 0;
    }
    let side = if ai_turn { Side::Computer } else { Side::Human };
    let mut best = if ai_turn { i32::MIN } else { i32::MAX };
    for col in b.legal_columns() {
        assert!(b.place(col, side));
        let v = plain_minimax(b, depth - 1, !ai_turn);
        b.undo(col);
        if ai_turn {
            if v > best {
                best = v;
            }
        } else if v < best {
            best = v;
        }
    }
    best
}

/// Reference move choice: first legal column with the strictly greatest
/// unpruned score.
fn plain_best(b: &mut Board, depth: usize) -> usize {
    let mut best_score = i32::MIN;
    let mut best_col = 0;
    for col in b.legal_columns() {
        assert!(b.place(col, Side::Computer));
        let v = plain_minimax(b, depth, false);
        b.undo(col);
        if v > best_score {
            best_score = v;
            best_col = col;
        }
    }
    best_col
}

#[test]
fn eval_scores_an_open_position_neutral() {
    let b = Board::new(7, 6);
    assert_eq!(eval(&b, 5), 70);
}

#[test]
fn eval_scores_a_computer_line_high() {
    let mut b = Board::new(7, 6);
    for c in 0..4 {
        assert!(b.place(c, Side::Computer));
    }
    assert_eq!(eval(&b, 5), 105);
    assert_eq!(eval(&b, 0), 100);
}

#[test]
fn eval_scores_a_human_line_low() {
    let mut b = Board::new(7, 6);
    for c in 3..7 {
        assert!(b.place(c, Side::Human));
    }
    assert_eq!(eval(&b, 5), -105);
    assert_eq!(eval(&b, 2), -102);
}

#[test]
fn eval_scores_a_drawn_board_between_loss_and_neutral() {
    let mut b = Board::new(7, 6);
    let human_first = [true, true, false, false, true, true, false];
    for c in 0..7 {
        for r in 0..6 {
            let human = human_first[c] == (r % 2 == 0);
            assert!(b.place(c, if human { Side::Human } else { Side::Computer }));
        }
    }
    assert!(b.is_full());
    assert_eq!(eval(&b, 5), 45);
}

#[test]
fn minmax_sees_an_immediate_human_win() {
    let mut b = Board::new(7, 6);
    for c in 0..3 {
        assert!(b.place(c, Side::Human));
    }
    // Human to move with three in a row: one ply suffices to see the loss.
    let v = minmax(&mut b, 1, i32::MIN, i32::MAX, false);
    assert_eq!(v, -100);
}

#[test]
fn engine_blocks_a_single_open_threat() {
    // Human threatens to complete 0,1,2 at column 3; at every depth from 1
    // to the fixed budget the engine must answer there.
    for depth in 1..=5 {
        let mut b = Board::new(7, 6);
        for c in 0..3 {
            assert!(b.place(c, Side::Human));
        }
        let col = best_move(&mut b, depth);
        assert_eq!(col, 3, "depth {} failed to block", depth);
        // The search left the board exactly as it was.
        for c in 0..3 {
            assert_eq!(b.cell(c, 0), connect_four::board::Cell::Owned(Side::Human));
        }
        assert_eq!(b.cell(3, 0), connect_four::board::Cell::Empty);
    }
}

#[test]
fn engine_prefers_its_own_win_over_blocking() {
    // Human threatens at column 3 (0,1,2 on the bottom row); the computer
    // has three vertically in column 6 and wins there at once.
    for depth in 1..=5 {
        let mut b = Board::new(7, 6);
        for c in 0..3 {
            assert!(b.place(c, Side::Human));
        }
        for _ in 0..3 {
            assert!(b.place(6, Side::Computer));
        }
        let col = best_move(&mut b, depth);
        assert_eq!(col, 6, "depth {} failed to take the win", depth);
    }
}

#[test]
fn compute_ai_move_answers_at_the_fixed_depth() {
    let mut b = Board::new(7, 6);
    for c in 0..3 {
        assert!(b.place(c, Side::Human));
    }
    for _ in 0..3 {
        assert!(b.place(6, Side::Computer));
    }
    assert_eq!(compute_ai_move(&mut b), 6);
}

#[test]
fn pruned_search_picks_the_same_column_as_plain_minimax() {
    // An empty board and a scattered middle game, at several depths.
    for depth in 0..=3 {
        let mut b = Board::new(7, 6);
        let pruned = best_move(&mut b, depth);
        let plain = plain_best(&mut b, depth);
        assert_eq!(pruned, plain, "empty board, depth {}", depth);
    }
    for depth in 0..=3 {
        let mut b = Board::new(7, 6);
        let moves = [3, 3, 2, 4, 4, 2, 5, 0];
        for (i, &c) in moves.iter().enumerate() {
            let side = if i % 2 == 0 { Side::Human } else { Side::Computer };
            assert!(b.place(c, side));
        }
        let pruned = best_move(&mut b, depth);
        let plain = plain_best(&mut b, depth);
        assert_eq!(pruned, plain, "middle game, depth {}", depth);
    }
}

#[test]
fn pruned_search_matches_plain_minimax_values_inside_the_window() {
    let mut b = Board::new(7, 6);
    let moves = [3, 3, 2, 4];
    for (i, &c) in moves.iter().enumerate() {
        let side = if i % 2 == 0 { Side::Human } else { Side::Computer };
        assert!(b.place(c, side));
    }
    for depth in 0..=3 {
        let pruned = minmax(&mut b, depth, i32::MIN, i32::MAX, true);
        let plain = plain_minimax(&mut b, depth, true);
        assert_eq!(pruned, plain, "depth {}", depth);
    }
}
