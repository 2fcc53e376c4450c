//! The game controller: outcome queries, the human-move entry point, and a
//! session that sequences human move, win check, engine reply and win/draw
//! check, with cumulative win counters and an ended flag gating further
//! moves until reset.

use vstd::prelude::*;
use crate::board::{
    Board,
    Cell,
    Side,
    legal_spec,
    place_spec,
    has_line_spec,
    is_full_spec,
    lemma_empty_no_line,
    lemma_place_no_line_other,
    lemma_place_wf,
};
use crate::engine::{AI_DEPTH, compute_ai_move, is_best_col, terminal_spec};

verus! {

/// What a board currently shows: still open, won by a side, or drawn.
#[derive(Clone, Copy, PartialEq, Eq, Structural, Debug)]
pub enum Outcome {
    InProgress,
    Win(Side),
    Draw,
}

/// Result of a human move request at the boundary.
#[derive(Clone, Copy, PartialEq, Eq, Structural, Debug)]
pub enum MoveResult {
    Accepted,
    ColumnFull,
}

/// The outcome a board shows: a computer line first, then a human line,
/// then a draw when full, else still in progress. Derived on demand, never
/// stored.
pub open spec fn outcome_spec(g: Seq<Seq<Cell>>) -> Outcome {
    if has_line_spec(g, Side::Computer) {
        Outcome::Win(Side::Computer)
    } else if has_line_spec(g, Side::Human) {
        Outcome::Win(Side::Human)
    } else if is_full_spec(g) {
        Outcome::Draw
    } else {
        Outcome::InProgress
    }
}

/// A fresh empty board of the given dimensions.
pub fn new_game(columns: usize, rows: usize) -> (b: Board)
    ensures
        b.wf(),
        b@.len() == columns,
        b.spec_rows() == rows,
        forall|c: int, r: int| 0 <= c < columns && 0 <= r < rows ==> b@[c][r] is Empty,
{
    Board::new(columns, rows)
}

/// Apply a human move at the boundary: accepted exactly when the column is
/// in range with room left; a full or out-of-range column is reported and
/// the board is untouched.
pub fn apply_human_move(b: &mut Board, column: usize) -> (result: MoveResult)
    requires
        old(b).wf(),
    ensures
        final(b).wf(),
        final(b).spec_rows() == old(b).spec_rows(),
        legal_spec(old(b)@, column as int) ==> result == MoveResult::Accepted && final(b)@
            == place_spec(old(b)@, column as int, Side::Human),
        !legal_spec(old(b)@, column as int) ==> result == MoveResult::ColumnFull && final(b)@
            == old(b)@,
{
    if b.place(column, Side::Human) {
        MoveResult::Accepted
    } else {
        MoveResult::ColumnFull
    }
}

/// Compute the outcome a board shows. A full board with no four-in-a-row
/// for either side is a draw, never in progress and never a win.
pub fn outcome(b: &Board) -> (result: Outcome)
    requires
        b.wf(),
    ensures
        result == outcome_spec(b@),
        result is InProgress <==> !terminal_spec(b@),
{
    if b.has_line(Side::Computer) {
        Outcome::Win(Side::Computer)
    } else if b.has_line(Side::Human) {
        Outcome::Win(Side::Human)
    } else if b.is_full() {
        Outcome::Draw
    } else {
        Outcome::InProgress
    }
}

/// What one call of `Session::play_turn` reported.
#[derive(Clone, Copy, PartialEq, Eq, Structural, Debug)]
pub enum TurnResult {
    /// The game had already ended; nothing happened.
    Ignored,
    /// The chosen column is full; nothing changed.
    Rejected,
    HumanWin,
    ComputerWin,
    Drawn,
    Continuing,
}

/// A win counter bumped by one, capped at its type's maximum.
pub open spec fn win_bump(w: u32) -> u32 {
    if w < u32::MAX {
        (w + 1) as u32
    } else {
        w
    }
}

/// One sitting at the table: the board, cumulative win counters, the ended
/// flag gating moves until reset, and the human's currently selected drop
/// column (a wrapping cursor).
pub struct Session {
    pub board: Board,
    pub human_wins: u32,
    pub computer_wins: u32,
    pub ended: bool,
    pub cursor: usize,
}

impl Session {
    /// The session invariant: a well-formed board with at least one column,
    /// a cursor in range, and — while the game is still running — no line
    /// for either side on the board.
    pub open spec fn wf(&self) -> bool {
        &&& self.board.wf()
        &&& self.board@.len() >= 1
        &&& self.cursor < self.board@.len()
        &&& !self.ended ==> !has_line_spec(self.board@, Side::Human) && !has_line_spec(
            self.board@,
            Side::Computer,
        )
    }

    /// A fresh session: empty board, zero tallies, cursor on the middle
    /// column, game running.
    pub fn new(columns: usize, rows: usize) -> (s: Session)
        requires
            columns >= 1,
        ensures
            s.wf(),
            s.board@.len() == columns,
            s.board.spec_rows() == rows,
            forall|c: int, r: int| 0 <= c < columns && 0 <= r < rows ==> s.board@[c][r] is Empty,
            s.human_wins == 0,
            s.computer_wins == 0,
            !s.ended,
            s.cursor == columns / 2,
    {
        let board = Board::new(columns, rows);
        proof {
            lemma_empty_no_line(board@, Side::Human);
            lemma_empty_no_line(board@, Side::Computer);
        }
        Session { board, human_wins: 0, computer_wins: 0, ended: false, cursor: columns / 2 }
    }

    /// Start a new game: the board is reinitialised empty, the ended flag
    /// cleared; tallies and cursor carry over.
    pub fn reset(&mut self)
        requires
            old(self).wf(),
        ensures
            final(self).wf(),
            final(self).board@.len() == old(self).board@.len(),
            final(self).board.spec_rows() == old(self).board.spec_rows(),
            forall|c: int, r: int|
                0 <= c < final(self).board@.len() && 0 <= r < final(self).board.spec_rows()
                    ==> final(self).board@[c][r] is Empty,
            !final(self).ended,
            final(self).human_wins == old(self).human_wins,
            final(self).computer_wins == old(self).computer_wins,
            final(self).cursor == old(self).cursor,
    {
        let columns = self.board.columns();
        let rows = self.board.row_count();
        let board = Board::new(columns, rows);
        proof {
            lemma_empty_no_line(board@, Side::Human);
            lemma_empty_no_line(board@, Side::Computer);
        }
        self.board = board;
        self.ended = false;
    }

    /// Move the drop cursor one column left, wrapping at the edge.
    pub fn move_left(&mut self)
        requires
            old(self).wf(),
        ensures
            final(self).wf(),
            final(self).board == old(self).board,
            final(self).ended == old(self).ended,
            final(self).human_wins == old(self).human_wins,
            final(self).computer_wins == old(self).computer_wins,
            final(self).cursor == if old(self).cursor == 0 {
                old(self).board@.len() - 1
            } else {
                old(self).cursor - 1
            },
    {
        if self.cursor == 0 {
            self.cursor = self.board.columns() - 1;
        } else {
            self.cursor = self.cursor - 1;
        }
    }

    /// Move the drop cursor one column right, wrapping at the edge.
    pub fn move_right(&mut self)
        requires
            old(self).wf(),
        ensures
            final(self).wf(),
            final(self).board == old(self).board,
            final(self).ended == old(self).ended,
            final(self).human_wins == old(self).human_wins,
            final(self).computer_wins == old(self).computer_wins,
            final(self).cursor == if old(self).cursor + 1 == old(self).board@.len() {
                0int
            } else {
                old(self).cursor + 1
            },
    {
        let columns = self.board.columns();
        if self.cursor + 1 == columns {
            self.cursor = 0;
        } else {
            self.cursor = self.cursor + 1;
        }
    }

    /// Play one full turn at the cursor column: drop the human token, check
    /// for a human win or a full board, otherwise let the engine reply and
    /// check again. A request while ended is ignored; a full cursor column
    /// is rejected with no state change.
    pub fn play_turn(&mut self) -> (result: TurnResult)
        requires
            old(self).wf(),
        ensures
            final(self).wf(),
            final(self).board@.len() == old(self).board@.len(),
            final(self).board.spec_rows() == old(self).board.spec_rows(),
            final(self).cursor == old(self).cursor,
            old(self).ended ==> result == TurnResult::Ignored && *final(self) == *old(self),
            !old(self).ended && !legal_spec(old(self).board@, old(self).cursor as int) ==> ({
                &&& result == TurnResult::Rejected
                &&& final(self).board@ == old(self).board@
                &&& final(self).ended == old(self).ended
                &&& final(self).human_wins == old(self).human_wins
                &&& final(self).computer_wins == old(self).computer_wins
            }),
            !old(self).ended && legal_spec(old(self).board@, old(self).cursor as int) ==> ({
                let g1 = place_spec(old(self).board@, old(self).cursor as int, Side::Human);
                if has_line_spec(g1, Side::Human) {
                    &&& result == TurnResult::HumanWin
                    &&& final(self).board@ == g1
                    &&& final(self).ended
                    &&& final(self).human_wins == win_bump(old(self).human_wins)
                    &&& final(self).computer_wins == old(self).computer_wins
                } else if is_full_spec(g1) {
                    &&& result == TurnResult::Drawn
                    &&& final(self).board@ == g1
                    &&& final(self).ended
                    &&& final(self).human_wins == old(self).human_wins
                    &&& final(self).computer_wins == old(self).computer_wins
                } else {
                    exists|c: int|
                        is_best_col(g1, c, AI_DEPTH as nat) && ({
                            let g2 = place_spec(g1, c, Side::Computer);
                            &&& final(self).board@ == g2
                            &&& if has_line_spec(g2, Side::Computer) {
                                &&& result == TurnResult::ComputerWin
                                &&& final(self).ended
                                &&& final(self).computer_wins == win_bump(
                                    old(self).computer_wins,
                                )
                                &&& final(self).human_wins == old(self).human_wins
                            } else if is_full_spec(g2) {
                                &&& result == TurnResult::Drawn
                                &&& final(self).ended
                                &&& final(self).human_wins == old(self).human_wins
                                &&& final(self).computer_wins == old(self).computer_wins
                            } else {
                                &&& result == TurnResult::Continuing
                                &&& !final(self).ended
                                &&& final(self).human_wins == old(self).human_wins
                                &&& final(self).computer_wins == old(self).computer_wins
                            }
                        })
                }
            }),
    {
        if self.ended {
            return TurnResult::Ignored;
        }
        let ghost g0 = self.board@;
        let ghost rows0 = self.board.spec_rows();
        let col = self.cursor;
        let ok = self.board.place(col, Side::Human);
        if !ok {
            return TurnResult::Rejected;
        }
        let ghost g1 = self.board@;
        proof {
            lemma_place_wf(g0, rows0, col as int, Side::Human);
            lemma_place_no_line_other(g0, rows0, col as int, Side::Human, Side::Computer);
        }
        if self.board.has_line(Side::Human) {
            self.ended = true;
            if self.human_wins < u32::MAX {
                self.human_wins = self.human_wins + 1;
            }
            return TurnResult::HumanWin;
        }
        if self.board.is_full() {
            self.ended = true;
            return TurnResult::Drawn;
        }
        let ai_col = compute_ai_move(&mut self.board);
        let ghost best = ai_col as int;
        self.board.place(ai_col, Side::Computer);
        let ghost g2 = self.board@;
        proof {
            lemma_place_no_line_other(g1, rows0, best, Side::Computer, Side::Human);
        }
        if self.board.has_line(Side::Computer) {
            self.ended = true;
            if self.computer_wins < u32::MAX {
                self.computer_wins = self.computer_wins + 1;
            }
            return TurnResult::ComputerWin;
        }
        if self.board.is_full() {
            self.ended = true;
            return TurnResult::Drawn;
        }
        TurnResult::Continuing
    }
}

} // verus!
