//! The search engine: depth-bounded minimax with alpha-beta pruning over the
//! board's own place/undo operations. The pruned search is proved to agree
//! with the plain minimax value `mm`, so pruning never changes the chosen
//! column.

use vstd::prelude::*;
use crate::board::{
    Board,
    Cell,
    Side,
    legal_spec,
    place_spec,
    grid_wf,
    has_line_spec,
    is_full_spec,
    lemma_place_wf,
    lemma_place_undo,
};

verus! {

/// Fixed search depth used for the computer's move.
pub const AI_DEPTH: usize = 5;

/// Largest accepted depth budget: keeps every score far from `i32` limits.
pub const MAX_DEPTH: usize = 1000;

/// The position is decided: somebody has four in a row, or no move is left.
pub open spec fn terminal_spec(g: Seq<Seq<Cell>>) -> bool {
    ||| has_line_spec(g, Side::Computer)
    ||| has_line_spec(g, Side::Human)
    ||| is_full_spec(g)
}

/// Leaf score seen from the computer: a computer line scores high (higher
/// when found nearer the root, i.e. with more depth budget left), a human
/// line low, a draw slightly below neutral, and an undecided position a
/// neutral marker.
pub open spec fn eval_spec(g: Seq<Seq<Cell>>, depth: int) -> int {
    if has_line_spec(g, Side::Computer) {
        100 + depth
    } else if has_line_spec(g, Side::Human) {
        -100 - depth
    } else if is_full_spec(g) {
        50 - depth
    } else {
        70
    }
}

/// Plain minimax value of a position, with no pruning: terminal positions
/// score by `eval_spec`, an exhausted budget scores neutral, and otherwise
/// the side to move picks the best child (the computer maximises, the human
/// minimises).
pub open spec fn mm(g: Seq<Seq<Cell>>, depth: nat, ai_turn: bool) -> int
    decreases depth, g.len() + 1,
{
    if terminal_spec(g) {
        eval_spec(g, depth as int)
    } else if depth == 0 {
        0
    } else {
        mm_scan(g, depth, ai_turn, 0)
    }
}

/// Best minimax value over the legal columns at or after `c`, explored in
/// ascending order; the sentinel for an empty range is the worst value for
/// the side to move.
pub open spec fn mm_scan(g: Seq<Seq<Cell>>, depth: nat, ai_turn: bool, c: int) -> int
    decreases depth, g.len() - c,
{
    if 0 <= c < g.len() {
        let rest = mm_scan(g, depth, ai_turn, c + 1);
        if legal_spec(g, c) && depth > 0 {
            let child = mm(
                place_spec(g, c, if ai_turn { Side::Computer } else { Side::Human }),
                (depth - 1) as nat,
                !ai_turn,
            );
            if ai_turn {
                if child > rest { child } else { rest }
            } else {
                if child < rest { child } else { rest }
            }
        } else {
            rest
        }
    } else {
        if ai_turn { i32::MIN as int } else { i32::MAX as int }
    }
}

/// The minimax value of any well-formed position stays within the window
/// `[-100 - depth, 100 + depth]`.
pub proof fn lemma_mm_bound(g: Seq<Seq<Cell>>, rows: int, depth: nat, ai_turn: bool)
    requires
        grid_wf(g, rows),
        depth <= MAX_DEPTH,
    ensures
        -100 - depth <= mm(g, depth, ai_turn) <= 100 + depth,
    decreases depth, g.len() + 1,
{
    if !terminal_spec(g) && depth > 0 {
        lemma_scan_bound(g, rows, depth, ai_turn, 0);
    }
}

/// Bounds for the column scan: with a legal column in range the value is a
/// child value and bounded; with none it is the sentinel.
proof fn lemma_scan_bound(g: Seq<Seq<Cell>>, rows: int, depth: nat, ai_turn: bool, c: int)
    requires
        grid_wf(g, rows),
        1 <= depth <= MAX_DEPTH,
        0 <= c <= g.len(),
    ensures
        (exists|cc: int| c <= cc < g.len() && legal_spec(g, cc)) ==> -100 - (depth - 1)
            <= mm_scan(g, depth, ai_turn, c) <= 100 + (depth - 1),
        !(exists|cc: int| c <= cc < g.len() && legal_spec(g, cc)) ==> mm_scan(g, depth, ai_turn, c)
            == if ai_turn { i32::MIN as int } else { i32::MAX as int },
    decreases depth, g.len() - c,
{
    if c < g.len() {
        lemma_scan_bound(g, rows, depth, ai_turn, c + 1);
        if legal_spec(g, c) {
            let side = if ai_turn { Side::Computer } else { Side::Human };
            lemma_place_wf(g, rows, c, side);
            lemma_mm_bound(place_spec(g, c, side), rows, (depth - 1) as nat, !ai_turn);
        }
    }
}

/// For the maximising side the scan dominates every legal child at or after
/// `c`; for the minimising side it is dominated by every such child.
proof fn lemma_scan_vs_child(
    g: Seq<Seq<Cell>>,
    rows: int,
    depth: nat,
    ai_turn: bool,
    c: int,
    cc: int,
)
    requires
        grid_wf(g, rows),
        1 <= depth <= MAX_DEPTH,
        0 <= c <= cc < g.len(),
        legal_spec(g, cc),
    ensures
        ai_turn ==> mm_scan(g, depth, true, c) >= mm(
            place_spec(g, cc, Side::Computer),
            (depth - 1) as nat,
            false,
        ),
        !ai_turn ==> mm_scan(g, depth, false, c) <= mm(
            place_spec(g, cc, Side::Human),
            (depth - 1) as nat,
            true,
        ),
    decreases cc - c,
{
    if c < cc {
        lemma_scan_vs_child(g, rows, depth, ai_turn, c + 1, cc);
    }
}

/// The scan value is the sentinel or the value of some legal child at or
/// after `c`.
proof fn lemma_scan_witness(g: Seq<Seq<Cell>>, rows: int, depth: nat, ai_turn: bool, c: int)
    requires
        grid_wf(g, rows),
        1 <= depth <= MAX_DEPTH,
        0 <= c <= g.len(),
    ensures
        mm_scan(g, depth, ai_turn, c) == (if ai_turn { i32::MIN as int } else { i32::MAX as int })
            || exists|cc: int|
            c <= cc < g.len() && legal_spec(g, cc) && mm_scan(g, depth, ai_turn, c) == mm(
                place_spec(g, cc, if ai_turn { Side::Computer } else { Side::Human }),
                (depth - 1) as nat,
                !ai_turn,
            ),
    decreases g.len() - c,
{
    if c < g.len() {
        lemma_scan_witness(g, rows, depth, ai_turn, c + 1);
        let rest = mm_scan(g, depth, ai_turn, c + 1);
        let v = mm_scan(g, depth, ai_turn, c);
        if legal_spec(g, c) {
            let side = if ai_turn { Side::Computer } else { Side::Human };
            let child = mm(place_spec(g, c, side), (depth - 1) as nat, !ai_turn);
            if v == child {
                assert(c <= c < g.len() && legal_spec(g, c) && mm_scan(g, depth, ai_turn, c) == mm(
                    place_spec(g, c, side),
                    (depth - 1) as nat,
                    !ai_turn,
                ));
            } else {
                assert(v == rest);
            }
        } else {
            assert(v == rest);
        }
    }
}

/// Leaf evaluation, scored from the computer's standpoint with the current
/// depth budget as tie-bias.
pub fn eval(b: &Board, depth: usize) -> (score: i32)
    requires
        b.wf(),
        depth <= MAX_DEPTH,
    ensures
        score as int == eval_spec(b@, depth as int),
{
    let d = depth as i32;
    if b.has_line(Side::Computer) {
        100 + d
    } else if b.has_line(Side::Human) {
        -100 - d
    } else if b.is_full() {
        50 - d
    } else {
        70
    }
}

/// Depth-bounded minimax with alpha-beta pruning, mutating and restoring the
/// board in place. The returned score agrees with the plain minimax value
/// `mm` in the fail-soft sense: strictly inside the window it is exact, at or
/// below `alpha` it bounds `mm` from above, at or above `beta` from below —
/// so with a full window the pruned search computes `mm` exactly.
#[verifier::loop_isolation(false)]
pub fn minmax(b: &mut Board, depth: usize, alpha: i32, beta: i32, ai_turn: bool) -> (score: i32)
    requires
        old(b).wf(),
        depth <= MAX_DEPTH,
        alpha < beta,
    ensures
        final(b).wf(),
        final(b)@ == old(b)@,
        final(b).spec_rows() == old(b).spec_rows(),
        alpha < score < beta ==> score as int == mm(old(b)@, depth as nat, ai_turn),
        score <= alpha ==> mm(old(b)@, depth as nat, ai_turn) <= score as int,
        score >= beta ==> mm(old(b)@, depth as nat, ai_turn) >= score as int,
    decreases depth,
{
    let ghost g = b@;
    let ghost rows0 = b.spec_rows();
    let score0 = eval(b, depth);
    if score0 >= 100 || score0 <= -100 || score0 <= 50 {
        proof {
            assert(terminal_spec(g));
        }
        return score0;
    }
    proof {
        assert(!terminal_spec(g));
    }
    if depth == 0 {
        return 0;
    }
    let ghost dn = (depth - 1) as nat;
    let drops = b.legal_columns();
    if ai_turn {
        let mut best = i32::MIN;
        let mut alpha_cur = alpha;
        let mut pruned = false;
        let mut i: usize = 0;
        while i < drops.len() && !pruned
            invariant
                b.wf(),
                b@ == g,
                b.spec_rows() == rows0,
                i <= drops@.len(),
                !pruned ==> alpha_cur == (if best > alpha { best } else { alpha }),
                !pruned ==> best < beta,
                !pruned ==> forall|k: int|
                    0 <= k < i ==> mm(
                        place_spec(g, (#[trigger] drops@[k]) as int, Side::Computer),
                        dn,
                        false,
                    ) <= best as int,
                best > alpha ==> exists|k: int|
                    0 <= k < i && mm(
                        place_spec(g, (#[trigger] drops@[k]) as int, Side::Computer),
                        dn,
                        false,
                    ) >= best as int,
                pruned ==> best >= beta,
            decreases drops@.len() - i,
        {
            let col = drops[i];
            b.place(col, Side::Computer);
            let val = minmax(b, depth - 1, alpha_cur, beta, false);
            b.undo(col);
            proof {
                lemma_place_undo(g, rows0, col as int, Side::Computer);
            }
            let ghost child = mm(place_spec(g, col as int, Side::Computer), dn, false);
            let ghost best_pre = best;
            let ghost alpha_pre = alpha_cur;
            if val > best {
                best = val;
            }
            if val > alpha_cur {
                alpha_cur = val;
            }
            i += 1;
            if beta <= alpha_cur {
                pruned = true;
            }
            proof {
                if val >= beta {
                    assert(child >= val as int);
                    assert(best == val);
                    assert(pruned);
                } else if val <= alpha_pre {
                    assert(child <= val as int);
                } else {
                    assert(child == val as int);
                }
            }
        }
        proof {
            assert(mm(g, depth as nat, true) == mm_scan(g, depth as nat, true, 0));
            if pruned {
                let k = choose|k: int|
                    0 <= k < i && mm(place_spec(g, drops@[k] as int, Side::Computer), dn, false)
                        >= best as int;
                lemma_scan_vs_child(g, rows0, depth as nat, true, 0, drops@[k] as int);
            } else {
                if best > alpha {
                    let k = choose|k: int|
                        0 <= k < i && mm(place_spec(g, drops@[k] as int, Side::Computer), dn, false)
                            >= best as int;
                    lemma_scan_vs_child(g, rows0, depth as nat, true, 0, drops@[k] as int);
                }
                lemma_scan_witness(g, rows0, depth as nat, true, 0);
                let m = mm_scan(g, depth as nat, true, 0);
                if m != i32::MIN as int {
                    let cc = choose|cc: int|
                        0 <= cc < g.len() && legal_spec(g, cc) && mm_scan(g, depth as nat, true, 0)
                            == mm(place_spec(g, cc, Side::Computer), dn, false);
                    let k = choose|k: int| 0 <= k < drops@.len() && drops@[k] == cc;
                    assert(m <= best as int);
                }
            }
        }
        best
    } else {
        let mut best = i32::MAX;
        let mut beta_cur = beta;
        let mut pruned = false;
        let mut i: usize = 0;
        while i < drops.len() && !pruned
            invariant
                b.wf(),
                b@ == g,
                b.spec_rows() == rows0,
                i <= drops@.len(),
                !pruned ==> beta_cur == (if best < beta { best } else { beta }),
                !pruned ==> best > alpha,
                !pruned ==> forall|k: int|
                    0 <= k < i ==> mm(
                        place_spec(g, (#[trigger] drops@[k]) as int, Side::Human),
                        dn,
                        true,
                    ) >= best as int,
                best < beta ==> exists|k: int|
                    0 <= k < i && mm(
                        place_spec(g, (#[trigger] drops@[k]) as int, Side::Human),
                        dn,
                        true,
                    ) <= best as int,
                pruned ==> best <= alpha,
            decreases drops@.len() - i,
        {
            let col = drops[i];
            b.place(col, Side::Human);
            let val = minmax(b, depth - 1, alpha, beta_cur, true);
            b.undo(col);
            proof {
                lemma_place_undo(g, rows0, col as int, Side::Human);
            }
            let ghost child = mm(place_spec(g, col as int, Side::Human), dn, true);
            let ghost best_pre = best;
            let ghost beta_pre = beta_cur;
            if val < best {
                best = val;
            }
            if val < beta_cur {
                beta_cur = val;
            }
            i += 1;
            if beta_cur <= alpha {
                pruned = true;
            }
            proof {
                if val <= alpha {
                    assert(child <= val as int);
                    assert(best == val);
                    assert(pruned);
                } else if val >= beta_pre {
                    assert(child >= val as int);
                } else {
                    assert(child == val as int);
                }
            }
        }
        proof {
            assert(mm(g, depth as nat, false) == mm_scan(g, depth as nat, false, 0));
            if pruned {
                let k = choose|k: int|
                    0 <= k < i && mm(place_spec(g, drops@[k] as int, Side::Human), dn, true)
                        <= best as int;
                lemma_scan_vs_child(g, rows0, depth as nat, false, 0, drops@[k] as int);
            } else {
                if best < beta {
                    let k = choose|k: int|
                        0 <= k < i && mm(place_spec(g, drops@[k] as int, Side::Human), dn, true)
                            <= best as int;
                    lemma_scan_vs_child(g, rows0, depth as nat, false, 0, drops@[k] as int);
                }
                lemma_scan_witness(g, rows0, depth as nat, false, 0);
                let m = mm_scan(g, depth as nat, false, 0);
                if m != i32::MAX as int {
                    let cc = choose|cc: int|
                        0 <= cc < g.len() && legal_spec(g, cc) && mm_scan(g, depth as nat, false, 0)
                            == mm(place_spec(g, cc, Side::Human), dn, true);
                    let k = choose|k: int| 0 <= k < drops@.len() && drops@[k] == cc;
                    assert(m >= best as int);
                }
            }
        }
        best
    }
}

/// The score the engine assigns to answering with column `c`: the minimax
/// value of the position after the computer drops there, searched to
/// `depth` with the human to move.
pub open spec fn move_score(g: Seq<Seq<Cell>>, c: int, depth: nat) -> int {
    mm(place_spec(g, c, Side::Computer), depth, false)
}

/// Column `c` is the engine's choice: legal, no legal column scores higher,
/// and no earlier legal column scores as high — the first maximiser in
/// ascending column order.
pub open spec fn is_best_col(g: Seq<Seq<Cell>>, c: int, depth: nat) -> bool {
    &&& legal_spec(g, c)
    &&& forall|c2: int| legal_spec(g, c2) ==> move_score(g, c2, depth) <= move_score(g, c, depth)
    &&& forall|c2: int|
        legal_spec(g, c2) && c2 < c ==> move_score(g, c2, depth) < move_score(g, c, depth)
}

/// Choose the computer's column: try each legal column in ascending order,
/// search the resulting position to `depth`, and keep the first column with
/// the strictly greatest score. The board is restored exactly. Must not be
/// called on a decided or full position.
#[verifier::loop_isolation(false)]
pub fn best_move(b: &mut Board, depth: usize) -> (col: usize)
    requires
        old(b).wf(),
        depth <= MAX_DEPTH,
        !terminal_spec(old(b)@),
    ensures
        final(b).wf(),
        final(b)@ == old(b)@,
        final(b).spec_rows() == old(b).spec_rows(),
        is_best_col(old(b)@, col as int, depth as nat),
{
    let ghost g = b@;
    let ghost rows0 = b.spec_rows();
    let drops = b.legal_columns();
    let mut best_score = i32::MIN;
    let mut best_col: usize = 0;
    let mut i: usize = 0;
    while i < drops.len()
        invariant
            b.wf(),
            b@ == g,
            b.spec_rows() == rows0,
            i <= drops@.len(),
            i == 0 ==> best_score == i32::MIN,
            i >= 1 ==> legal_spec(g, best_col as int) && best_score as int == move_score(
                g,
                best_col as int,
                depth as nat,
            ),
            i >= 1 ==> exists|k: int| 0 <= k < i && (#[trigger] drops@[k]) == best_col,
            forall|k: int|
                0 <= k < i ==> move_score(g, (#[trigger] drops@[k]) as int, depth as nat)
                    <= best_score as int,
            forall|k: int|
                0 <= k < i && (#[trigger] drops@[k]) < best_col ==> move_score(
                    g,
                    drops@[k] as int,
                    depth as nat,
                ) < best_score as int,
        decreases drops@.len() - i,
    {
        let col = drops[i];
        b.place(col, Side::Computer);
        let score = minmax(b, depth, i32::MIN, i32::MAX, false);
        b.undo(col);
        proof {
            lemma_place_undo(g, rows0, col as int, Side::Computer);
            lemma_place_wf(g, rows0, col as int, Side::Computer);
            lemma_mm_bound(place_spec(g, col as int, Side::Computer), rows0, depth as nat, false);
            assert(score as int == move_score(g, col as int, depth as nat));
            assert(score > i32::MIN);
        }
        if score > best_score {
            best_score = score;
            best_col = col;
        }
        i += 1;
    }
    proof {
        assert(!is_full_spec(g));
        let cw = choose|cw: int| 0 <= cw < g.len() && legal_spec(g, cw);
        let kw = choose|k: int| 0 <= k < drops@.len() && drops@[k] == cw;
        assert(drops@.len() >= 1);
        assert forall|c2: int| legal_spec(g, c2) implies move_score(g, c2, depth as nat)
            <= best_score as int by {
            let k = choose|k: int| 0 <= k < drops@.len() && drops@[k] == c2;
            assert(move_score(g, drops@[k] as int, depth as nat) <= best_score as int);
        }
        assert forall|c2: int|
            legal_spec(g, c2) && c2 < best_col as int implies move_score(g, c2, depth as nat)
            < best_score as int by {
            let k = choose|k: int| 0 <= k < drops@.len() && drops@[k] == c2;
            assert(move_score(g, drops@[k] as int, depth as nat) < best_score as int);
        }
    }
    best_col
}

/// The computer's move at the fixed depth budget.
pub fn compute_ai_move(b: &mut Board) -> (col: usize)
    requires
        old(b).wf(),
        !terminal_spec(old(b)@),
    ensures
        final(b).wf(),
        final(b)@ == old(b)@,
        final(b).spec_rows() == old(b).spec_rows(),
        is_best_col(old(b)@, col as int, AI_DEPTH as nat),
{
    best_move(b, AI_DEPTH)
}

} // verus!
