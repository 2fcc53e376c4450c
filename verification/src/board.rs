//! The board: a grid of cells filled from the bottom by gravity, with
//! place/undo at a column, legal-move queries and four-in-a-row detection.

use vstd::prelude::*;

verus! {

/// The two players. A cell that holds a token is owned by one of them.
#[derive(Clone, Copy, PartialEq, Eq, Structural, Debug)]
pub enum Side {
    Human,
    Computer,
}

/// One cell of the grid: empty, or holding a token of one side.
#[derive(Clone, Copy, PartialEq, Eq, Structural, Debug)]
pub enum Cell {
    Empty,
    Owned(Side),
}

/// Number of occupied cells at the bottom of a column, counted upward from
/// row `r`: the length of the contiguous `Owned` run that starts there.
pub open spec fn stack_above(col: Seq<Cell>, r: int) -> int
    decreases col.len() - r,
{
    if 0 <= r < col.len() {
        if col[r] is Owned {
            1 + stack_above(col, r + 1)
        } else {
            0
        }
    } else {
        0
    }
}

/// Height of a column: how many tokens it holds, stacked from row 0.
pub open spec fn col_height(col: Seq<Cell>) -> int {
    stack_above(col, 0)
}

/// A single column is well formed when its occupied cells are exactly the
/// rows below its height: tokens stack from row 0 with no gap.
pub open spec fn column_wf(col: Seq<Cell>) -> bool {
    forall|r: int| 0 <= r < col.len() ==> (col[r] is Owned <==> r < col_height(col))
}

/// A grid (indexed `g[column][row]`, row 0 at the bottom) is well formed when
/// every column has `rows` cells and satisfies the gravity invariant.
pub open spec fn grid_wf(g: Seq<Seq<Cell>>, rows: int) -> bool {
    &&& forall|c: int| 0 <= c < g.len() ==> (#[trigger] g[c]).len() == rows
    &&& forall|c: int| 0 <= c < g.len() ==> column_wf(#[trigger] g[c])
}

/// If the occupied rows of a column are exactly those below `h`, then the
/// column's height is `h`.
proof fn lemma_stack_above_char(col: Seq<Cell>, h: int, r: int)
    requires
        0 <= r <= col.len(),
        0 <= h <= col.len(),
        forall|i: int| 0 <= i < col.len() ==> (col[i] is Owned <==> i < h),
    ensures
        stack_above(col, r) == if r < h {
            h - r
        } else {
            0
        },
    decreases col.len() - r,
{
    if r < col.len() {
        lemma_stack_above_char(col, h, r + 1);
    }
}

/// Height of a column whose occupied rows are exactly those below `h`.
pub proof fn lemma_col_height_char(col: Seq<Cell>, h: int)
    requires
        0 <= h <= col.len(),
        forall|i: int| 0 <= i < col.len() ==> (col[i] is Owned <==> i < h),
    ensures
        col_height(col) == h,
{
    lemma_stack_above_char(col, h, 0);
}

/// A well-formed column's height lies between 0 and its length.
pub proof fn lemma_col_height_bounds(col: Seq<Cell>)
    requires
        column_wf(col),
    ensures
        0 <= col_height(col) <= col.len(),
{
    if col_height(col) < 0 {
        assert(stack_above(col, 0) >= 0) by {
            lemma_stack_above_nonneg(col, 0);
        }
    }
    if col_height(col) > col.len() {
        if col.len() > 0 {
            assert(col[col.len() - 1] is Owned);
            lemma_stack_above_le(col, 0);
        } else {
            lemma_stack_above_le(col, 0);
        }
    }
}

/// A token may be dropped in column `c` when the column exists and its top
/// cell is still empty.
pub open spec fn legal_spec(g: Seq<Seq<Cell>>, c: int) -> bool {
    &&& 0 <= c < g.len()
    &&& g[c].len() > 0
    &&& g[c][g[c].len() - 1] is Empty
}

/// The grid after dropping a token of `s` in column `c`: the lowest empty
/// cell of that column becomes `Owned(s)`.
pub open spec fn place_spec(g: Seq<Seq<Cell>>, c: int, s: Side) -> Seq<Seq<Cell>> {
    g.update(c, g[c].update(col_height(g[c]), Cell::Owned(s)))
}

/// The grid after removing the most recently dropped token of column `c`
/// (the topmost occupied cell); the grid is unchanged when the column is
/// empty or out of range.
pub open spec fn undo_spec(g: Seq<Seq<Cell>>, c: int) -> Seq<Seq<Cell>> {
    if 0 <= c < g.len() && col_height(g[c]) > 0 {
        g.update(c, g[c].update(col_height(g[c]) - 1, Cell::Empty))
    } else {
        g
    }
}

/// Cell `(c, r)` is on the grid and holds a token of `s`.
pub open spec fn cell_is(g: Seq<Seq<Cell>>, c: int, r: int, s: Side) -> bool {
    &&& 0 <= c < g.len()
    &&& 0 <= r < g[c].len()
    &&& g[c][r] == Cell::Owned(s)
}

/// Four in a row of `s` extending east (increasing column) from `(c, r)`.
pub open spec fn run_east(g: Seq<Seq<Cell>>, s: Side, c: int, r: int) -> bool {
    &&& cell_is(g, c, r, s)
    &&& cell_is(g, c + 1, r, s)
    &&& cell_is(g, c + 2, r, s)
    &&& cell_is(g, c + 3, r, s)
}

/// Four in a row of `s` extending north (increasing row) from `(c, r)`.
pub open spec fn run_north(g: Seq<Seq<Cell>>, s: Side, c: int, r: int) -> bool {
    &&& cell_is(g, c, r, s)
    &&& cell_is(g, c, r + 1, s)
    &&& cell_is(g, c, r + 2, s)
    &&& cell_is(g, c, r + 3, s)
}

/// Four in a row of `s` on the rising diagonal from `(c, r)`.
pub open spec fn run_ne(g: Seq<Seq<Cell>>, s: Side, c: int, r: int) -> bool {
    &&& cell_is(g, c, r, s)
    &&& cell_is(g, c + 1, r + 1, s)
    &&& cell_is(g, c + 2, r + 2, s)
    &&& cell_is(g, c + 3, r + 3, s)
}

/// Four in a row of `s` on the falling diagonal from `(c, r)`.
pub open spec fn run_se(g: Seq<Seq<Cell>>, s: Side, c: int, r: int) -> bool {
    &&& cell_is(g, c, r, s)
    &&& cell_is(g, c + 1, r - 1, s)
    &&& cell_is(g, c + 2, r - 2, s)
    &&& cell_is(g, c + 3, r - 3, s)
}

/// Some run of four starts at `(c, r)` in one of the four scan directions.
pub open spec fn any_run_at(g: Seq<Seq<Cell>>, s: Side, c: int, r: int) -> bool {
    ||| run_east(g, s, c, r)
    ||| run_north(g, s, c, r)
    ||| run_ne(g, s, c, r)
    ||| run_se(g, s, c, r)
}

/// `s` has four in a row somewhere on the grid: horizontally, vertically or
/// on either diagonal.
pub open spec fn has_line_spec(g: Seq<Seq<Cell>>, s: Side) -> bool {
    exists|c: int, r: int| any_run_at(g, s, c, r)
}

/// Four coordinates heading east from the first.
pub open spec fn coords_east(run: Seq<(usize, usize)>) -> bool {
    &&& run.len() == 4
    &&& run[1].0 == run[0].0 + 1 && run[1].1 == run[0].1
    &&& run[2].0 == run[0].0 + 2 && run[2].1 == run[0].1
    &&& run[3].0 == run[0].0 + 3 && run[3].1 == run[0].1
}

/// Four coordinates heading north from the first.
pub open spec fn coords_north(run: Seq<(usize, usize)>) -> bool {
    &&& run.len() == 4
    &&& run[1].0 == run[0].0 && run[1].1 == run[0].1 + 1
    &&& run[2].0 == run[0].0 && run[2].1 == run[0].1 + 2
    &&& run[3].0 == run[0].0 && run[3].1 == run[0].1 + 3
}

/// Four coordinates on the rising diagonal from the first.
pub open spec fn coords_ne(run: Seq<(usize, usize)>) -> bool {
    &&& run.len() == 4
    &&& run[1].0 == run[0].0 + 1 && run[1].1 == run[0].1 + 1
    &&& run[2].0 == run[0].0 + 2 && run[2].1 == run[0].1 + 2
    &&& run[3].0 == run[0].0 + 3 && run[3].1 == run[0].1 + 3
}

/// Four coordinates on the falling diagonal from the first.
pub open spec fn coords_se(run: Seq<(usize, usize)>) -> bool {
    &&& run.len() == 4
    &&& run[1].0 == run[0].0 + 1 && run[1].1 as int == run[0].1 - 1
    &&& run[2].0 == run[0].0 + 2 && run[2].1 as int == run[0].1 - 2
    &&& run[3].0 == run[0].0 + 3 && run[3].1 as int == run[0].1 - 3
}

/// `run` is a genuine winning run for `s`: four cells of the grid, all owned
/// by `s`, consecutive along one of the four directions.
pub open spec fn is_win_run(g: Seq<Seq<Cell>>, s: Side, run: Seq<(usize, usize)>) -> bool {
    &&& run.len() == 4
    &&& cell_is(g, run[0].0 as int, run[0].1 as int, s)
    &&& cell_is(g, run[1].0 as int, run[1].1 as int, s)
    &&& cell_is(g, run[2].0 as int, run[2].1 as int, s)
    &&& cell_is(g, run[3].0 as int, run[3].1 as int, s)
    &&& (coords_east(run) || coords_north(run) || coords_ne(run) || coords_se(run))
}

/// The board accepts no further tokens: no column is legal.
pub open spec fn is_full_spec(g: Seq<Seq<Cell>>) -> bool {
    forall|c: int| 0 <= c < g.len() ==> !legal_spec(g, c)
}

proof fn lemma_stack_above_nonneg(col: Seq<Cell>, r: int)
    ensures
        stack_above(col, r) >= 0,
    decreases col.len() - r,
{
    if 0 <= r < col.len() && col[r] is Owned {
        lemma_stack_above_nonneg(col, r + 1);
    }
}

proof fn lemma_stack_above_le(col: Seq<Cell>, r: int)
    requires
        0 <= r <= col.len(),
    ensures
        stack_above(col, r) <= col.len() - r,
    decreases col.len() - r,
{
    if r < col.len() && col[r] is Owned {
        lemma_stack_above_le(col, r + 1);
    }
}

/// Gravity: on a well-formed grid an occupied cell above the bottom row
/// always rests on an occupied cell, so no placement sequence leaves a gap.
pub proof fn lemma_gravity(g: Seq<Seq<Cell>>, rows: int, c: int, r: int)
    requires
        grid_wf(g, rows),
        0 <= c < g.len(),
        0 < r < g[c].len(),
        g[c][r] is Owned,
    ensures
        g[c][r - 1] is Owned,
{
}

/// On a well-formed grid, a column's top cell is empty exactly when the
/// column still has room.
pub proof fn lemma_legal_height(g: Seq<Seq<Cell>>, rows: int, c: int)
    requires
        grid_wf(g, rows),
        0 <= c < g.len(),
    ensures
        legal_spec(g, c) <==> col_height(g[c]) < rows,
        rows > 0 ==> 0 <= col_height(g[c]) <= rows,
{
    lemma_col_height_bounds(g[c]);
    if rows > 0 {
        assert(g[c][rows - 1] is Owned <==> rows - 1 < col_height(g[c]));
    }
}

/// Placing a legal token preserves well-formedness, raises the column's
/// height by one and changes no other cell.
pub proof fn lemma_place_wf(g: Seq<Seq<Cell>>, rows: int, c: int, s: Side)
    requires
        grid_wf(g, rows),
        legal_spec(g, c),
    ensures
        grid_wf(place_spec(g, c, s), rows),
        place_spec(g, c, s).len() == g.len(),
        col_height(place_spec(g, c, s)[c]) == col_height(g[c]) + 1,
        forall|cc: int| 0 <= cc < g.len() && cc != c ==> place_spec(g, c, s)[cc] == g[cc],
{
    lemma_legal_height(g, rows, c);
    let h = col_height(g[c]);
    let newcol = g[c].update(h, Cell::Owned(s));
    assert forall|i: int| 0 <= i < newcol.len() implies (newcol[i] is Owned <==> i < h + 1) by {
        if i != h {
            assert(g[c][i] is Owned <==> i < h);
        }
    }
    lemma_col_height_char(newcol, h + 1);
}

/// Place followed by undo at the same column restores the grid exactly:
/// undoing the drop is the inverse of the drop, bit for bit, however often
/// the pair is repeated.
pub proof fn lemma_place_undo(g: Seq<Seq<Cell>>, rows: int, c: int, s: Side)
    requires
        grid_wf(g, rows),
        legal_spec(g, c),
    ensures
        undo_spec(place_spec(g, c, s), c) == g,
{
    lemma_legal_height(g, rows, c);
    lemma_place_wf(g, rows, c, s);
    let h = col_height(g[c]);
    let g2 = place_spec(g, c, s);
    assert(g[c][h] is Empty);
    assert(g2[c].update(h, Cell::Empty) =~= g[c]);
    assert(undo_spec(g2, c) =~= g);
}

/// Undoing on a well-formed grid preserves well-formedness and lowers the
/// undone column's height by one when the column was nonempty.
pub proof fn lemma_undo_wf(g: Seq<Seq<Cell>>, rows: int, c: int)
    requires
        grid_wf(g, rows),
    ensures
        grid_wf(undo_spec(g, c), rows),
        undo_spec(g, c).len() == g.len(),
        0 <= c < g.len() && col_height(g[c]) > 0 ==> col_height(undo_spec(g, c)[c]) == col_height(
            g[c],
        ) - 1,
{
    if 0 <= c < g.len() && col_height(g[c]) > 0 {
        lemma_col_height_bounds(g[c]);
        let h = col_height(g[c]);
        let newcol = g[c].update(h - 1, Cell::Empty);
        assert forall|i: int| 0 <= i < newcol.len() implies (newcol[i] is Owned <==> i < h - 1) by {
            if i != h - 1 {
                assert(g[c][i] is Owned <==> i < h);
            }
        }
        lemma_col_height_char(newcol, h - 1);
    }
}

/// The grid reflected across its vertical axis: column `c` becomes column
/// `len - 1 - c`.
pub open spec fn mirror_spec(g: Seq<Seq<Cell>>) -> Seq<Seq<Cell>> {
    Seq::new(g.len(), |c: int| g[g.len() - 1 - c])
}

proof fn lemma_mirror_involution(g: Seq<Seq<Cell>>)
    ensures
        mirror_spec(mirror_spec(g)) == g,
{
    assert(mirror_spec(mirror_spec(g)) =~= g);
}

proof fn lemma_mirror_line_fwd(g: Seq<Seq<Cell>>, s: Side)
    requires
        has_line_spec(g, s),
    ensures
        has_line_spec(mirror_spec(g), s),
{
    let n = g.len() as int;
    let m = mirror_spec(g);
    let (c, r) = choose|c: int, r: int| any_run_at(g, s, c, r);
    assert forall|x: int, y: int| cell_is(g, x, y, s) implies cell_is(m, n - 1 - x, y, s) by {
        assert(m[n - 1 - x] == g[x]);
    }
    if run_east(g, s, c, r) {
        assert(run_east(m, s, n - 4 - c, r));
        assert(any_run_at(m, s, n - 4 - c, r));
    } else if run_north(g, s, c, r) {
        assert(run_north(m, s, n - 1 - c, r));
        assert(any_run_at(m, s, n - 1 - c, r));
    } else if run_ne(g, s, c, r) {
        assert(run_se(m, s, n - 4 - c, r + 3));
        assert(any_run_at(m, s, n - 4 - c, r + 3));
    } else {
        assert(run_ne(m, s, n - 4 - c, r - 3));
        assert(any_run_at(m, s, n - 4 - c, r - 3));
    }
}

/// Win detection is symmetric under reflection: a side has four in a row on
/// a grid exactly when it has four in a row on the mirrored grid.
pub proof fn lemma_mirror_preserves_line(g: Seq<Seq<Cell>>, s: Side)
    ensures
        has_line_spec(g, s) <==> has_line_spec(mirror_spec(g), s),
{
    if has_line_spec(g, s) {
        lemma_mirror_line_fwd(g, s);
    }
    if has_line_spec(mirror_spec(g), s) {
        lemma_mirror_line_fwd(mirror_spec(g), s);
        lemma_mirror_involution(g);
    }
}

/// The grid reflected across its horizontal axis: within every column, row
/// `r` becomes row `rows - 1 - r`.
pub open spec fn flip_spec(g: Seq<Seq<Cell>>) -> Seq<Seq<Cell>> {
    Seq::new(g.len(), |c: int| Seq::new(g[c].len(), |r: int| g[c][g[c].len() - 1 - r]))
}

/// The grid turned by a half turn: both reflections composed.
pub open spec fn rotate_spec(g: Seq<Seq<Cell>>) -> Seq<Seq<Cell>> {
    mirror_spec(flip_spec(g))
}

proof fn lemma_flip_involution(g: Seq<Seq<Cell>>)
    ensures
        flip_spec(flip_spec(g)) == g,
{
    let f = flip_spec(g);
    assert forall|c: int| 0 <= c < g.len() implies flip_spec(f)[c] == g[c] by {
        assert(flip_spec(f)[c] =~= g[c]);
    }
    assert(flip_spec(flip_spec(g)) =~= g);
}

proof fn lemma_flip_line_fwd(g: Seq<Seq<Cell>>, rows: int, s: Side)
    requires
        forall|c: int| 0 <= c < g.len() ==> (#[trigger] g[c]).len() == rows,
        has_line_spec(g, s),
    ensures
        has_line_spec(flip_spec(g), s),
{
    let f = flip_spec(g);
    let (c, r) = choose|c: int, r: int| any_run_at(g, s, c, r);
    assert forall|x: int, y: int| cell_is(g, x, y, s) implies cell_is(f, x, rows - 1 - y, s) by {
        assert(f[x][rows - 1 - y] == g[x][y]);
    }
    if run_east(g, s, c, r) {
        assert(run_east(f, s, c, rows - 1 - r));
        assert(any_run_at(f, s, c, rows - 1 - r));
    } else if run_north(g, s, c, r) {
        assert(run_north(f, s, c, rows - 4 - r));
        assert(any_run_at(f, s, c, rows - 4 - r));
    } else if run_ne(g, s, c, r) {
        assert(run_se(f, s, c, rows - 1 - r));
        assert(any_run_at(f, s, c, rows - 1 - r));
    } else {
        assert(run_ne(f, s, c, rows - 1 - r));
        assert(any_run_at(f, s, c, rows - 1 - r));
    }
}

/// Win detection is symmetric under the horizontal reflection as well, on
/// any grid whose columns share one row count.
pub proof fn lemma_flip_preserves_line(g: Seq<Seq<Cell>>, rows: int, s: Side)
    requires
        forall|c: int| 0 <= c < g.len() ==> (#[trigger] g[c]).len() == rows,
    ensures
        has_line_spec(g, s) <==> has_line_spec(flip_spec(g), s),
{
    if has_line_spec(g, s) {
        lemma_flip_line_fwd(g, rows, s);
    }
    if has_line_spec(flip_spec(g), s) {
        assert forall|c: int| 0 <= c < flip_spec(g).len() implies (#[trigger] flip_spec(
            g,
        )[c]).len() == rows by {
            assert(g[c].len() == rows);
        }
        lemma_flip_line_fwd(flip_spec(g), rows, s);
        lemma_flip_involution(g);
    }
}

/// Win detection is symmetric under a half-turn rotation of the grid.
pub proof fn lemma_rotation_preserves_line(g: Seq<Seq<Cell>>, rows: int, s: Side)
    requires
        forall|c: int| 0 <= c < g.len() ==> (#[trigger] g[c]).len() == rows,
    ensures
        has_line_spec(g, s) <==> has_line_spec(rotate_spec(g), s),
{
    lemma_flip_preserves_line(g, rows, s);
    lemma_mirror_preserves_line(flip_spec(g), s);
}

/// Four horizontally consecutive cells of `s`, wherever the run starts,
/// mean `s` has a line: detection does not depend on the scan's starting
/// cell.
pub proof fn lemma_horizontal_run_found(g: Seq<Seq<Cell>>, s: Side, c: int, r: int)
    requires
        cell_is(g, c, r, s),
        cell_is(g, c + 1, r, s),
        cell_is(g, c + 2, r, s),
        cell_is(g, c + 3, r, s),
    ensures
        has_line_spec(g, s),
{
    assert(any_run_at(g, s, c, r));
}

/// A grid of empty cells holds no line for anybody.
pub proof fn lemma_empty_no_line(g: Seq<Seq<Cell>>, s: Side)
    requires
        forall|c: int, r: int| 0 <= c < g.len() && 0 <= r < g[c].len() ==> g[c][r] is Empty,
    ensures
        !has_line_spec(g, s),
{
    if has_line_spec(g, s) {
        let (cc, rr) = choose|cc: int, rr: int| any_run_at(g, s, cc, rr);
        assert(cell_is(g, cc, rr, s));
        assert(false);
    }
}

/// Dropping a token of `s` never creates a line for the other side: every
/// cell of such a line is untouched by the drop, so the line was already
/// there.
pub proof fn lemma_place_no_line_other(g: Seq<Seq<Cell>>, rows: int, c: int, s: Side, s2: Side)
    requires
        grid_wf(g, rows),
        legal_spec(g, c),
        s != s2,
        !has_line_spec(g, s2),
    ensures
        !has_line_spec(place_spec(g, c, s), s2),
{
    let g1 = place_spec(g, c, s);
    lemma_legal_height(g, rows, c);
    let h = col_height(g[c]);
    assert forall|x: int, y: int| cell_is(g1, x, y, s2) implies cell_is(g, x, y, s2) by {
        if x == c && y == h {
            assert(g1[c][h] == Cell::Owned(s));
            assert(false);
        } else if x == c {
            assert(g1[c][y] == g[c][y]);
        } else {
            assert(g1[x] == g[x]);
        }
    }
    if has_line_spec(g1, s2) {
        let (cc, rr) = choose|cc: int, rr: int| any_run_at(g1, s2, cc, rr);
        assert(any_run_at(g, s2, cc, rr));
        assert(false);
    }
}

/// A Connect-Four board. The grid is indexed `[column][row]` with row 0 at
/// the bottom; tokens stack upward under gravity.
pub struct Board {
    cells: Vec<Vec<Cell>>,
    rows: usize,
}

impl View for Board {
    type V = Seq<Seq<Cell>>;

    closed spec fn view(&self) -> Seq<Seq<Cell>> {
        Seq::new(self.cells@.len(), |c: int| self.cells@[c]@)
    }
}

impl Board {
    /// Row count the board was created with.
    pub closed spec fn spec_rows(&self) -> int {
        self.rows as int
    }

    /// The board invariant: every column has `spec_rows` cells and its
    /// tokens stack from row 0 without gaps.
    pub open spec fn wf(&self) -> bool {
        grid_wf(self@, self.spec_rows())
    }

    /// A fresh empty board of the given dimensions.
    pub fn new(columns: usize, rows: usize) -> (b: Board)
        ensures
            b.wf(),
            b@.len() == columns,
            b.spec_rows() == rows,
            forall|c: int, r: int| 0 <= c < columns && 0 <= r < rows ==> b@[c][r] is Empty,
    {
        let mut cells: Vec<Vec<Cell>> = Vec::new();
        let mut c: usize = 0;
        while c < columns
            invariant
                c <= columns,
                cells@.len() == c,
                forall|i: int| 0 <= i < c ==> (#[trigger] cells@[i])@.len() == rows,
                forall|i: int, r: int|
                    0 <= i < c && 0 <= r < rows ==> #[trigger] cells@[i]@[r] is Empty,
            decreases columns - c,
        {
            let mut col: Vec<Cell> = Vec::new();
            let mut r: usize = 0;
            while r < rows
                invariant
                    r <= rows,
                    col@.len() == r,
                    forall|i: int| 0 <= i < r ==> col@[i] is Empty,
                decreases rows - r,
            {
                col.push(Cell::Empty);
                r += 1;
            }
            cells.push(col);
            c += 1;
        }
        let b = Board { cells, rows };
        proof {
            assert forall|i: int| 0 <= i < b@.len() implies column_wf(#[trigger] b@[i]) by {
                lemma_col_height_char(b@[i], 0);
            }
        }
        b
    }

    /// Number of columns.
    pub fn columns(&self) -> (n: usize)
        ensures
            n == self@.len(),
    {
        self.cells.len()
    }

    /// Number of rows.
    pub fn row_count(&self) -> (n: usize)
        ensures
            n == self.spec_rows(),
    {
        self.rows
    }

    /// The cell at `(col, row)`, row 0 at the bottom.
    pub fn cell(&self, col: usize, row: usize) -> (cell: Cell)
        requires
            col < self@.len(),
            row < self@[col as int].len(),
        ensures
            cell == self@[col as int][row as int],
    {
        self.cells[col][row]
    }

    /// Drop a token of `side` in `col`. Fails (returning `false`, with the
    /// board unchanged) when the column is out of range or full; otherwise
    /// the lowest empty cell of the column receives the token.
    pub fn place(&mut self, col: usize, side: Side) -> (ok: bool)
        requires
            old(self).wf(),
        ensures
            final(self).wf(),
            final(self).spec_rows() == old(self).spec_rows(),
            legal_spec(old(self)@, col as int) ==> ok && final(self)@ == place_spec(
                old(self)@,
                col as int,
                side,
            ),
            !legal_spec(old(self)@, col as int) ==> !ok && final(self)@ == old(self)@,
    {
        let ghost g = self@;
        if col >= self.cells.len() {
            return false;
        }
        let rows = self.rows;
        if rows == 0 {
            return false;
        }
        if self.cells[col][rows - 1] != Cell::Empty {
            return false;
        }
        proof {
            lemma_legal_height(g, rows as int, col as int);
        }
        let mut r: usize = 0;
        while self.cells[col][r] != Cell::Empty
            invariant
                self.wf(),
                self@ == g,
                self.rows == rows,
                col < self@.len(),
                r < rows,
                g[col as int][rows - 1] is Empty,
                forall|i: int| 0 <= i < r ==> g[col as int][i] is Owned,
            decreases rows - r,
        {
            r += 1;
            proof {
                assert(g[col as int][r - 1] is Owned);
                assert(r - 1 < col_height(g[col as int]));
                lemma_legal_height(g, rows as int, col as int);
            }
        }
        proof {
            assert(g[col as int][r as int] is Empty);
            assert(col_height(g[col as int]) <= r);
            if r > 0 {
                assert(g[col as int][r - 1] is Owned);
            }
            assert(col_height(g[col as int]) == r);
        }
        self.cells[col][r] = Cell::Owned(side);
        proof {
            assert(self@ =~= place_spec(g, col as int, side));
            lemma_place_wf(g, rows as int, col as int, side);
        }
        true
    }

    /// Remove the most recently dropped token of `col` (its topmost occupied
    /// cell). A no-op when the column is empty or out of range.
    pub fn undo(&mut self, col: usize)
        requires
            old(self).wf(),
        ensures
            final(self).wf(),
            final(self).spec_rows() == old(self).spec_rows(),
            final(self)@ == undo_spec(old(self)@, col as int),
    {
        let ghost g = self@;
        if col >= self.cells.len() {
            return ;
        }
        let rows = self.rows;
        proof {
            lemma_col_height_bounds(g[col as int]);
        }
        let mut r: usize = 0;
        while r < rows && self.cells[col][r] != Cell::Empty
            invariant
                self.wf(),
                self@ == g,
                self.rows == rows,
                col < self@.len(),
                r <= rows,
                forall|i: int| 0 <= i < r ==> g[col as int][i] is Owned,
            decreases rows - r,
        {
            r += 1;
        }
        proof {
            if r < rows {
                assert(g[col as int][r as int] is Empty);
                assert(col_height(g[col as int]) <= r);
            } else {
                assert(col_height(g[col as int]) <= rows);
            }
            if r > 0 {
                assert(g[col as int][r - 1] is Owned);
            }
            assert(col_height(g[col as int]) == r);
        }
        if r == 0 {
            return ;
        }
        self.cells[col][r - 1] = Cell::Empty;
        proof {
            lemma_undo_wf(g, rows as int, col as int);
            assert(self@ =~= undo_spec(g, col as int));
        }
    }

    /// Coordinates of the first winning run of `side` found under a fixed
    /// scan order: columns from the left, rows from the bottom, directions
    /// east, north, rising diagonal, falling diagonal. Returns four
    /// coordinates exactly when `side` has a line, else an empty vector.
    pub fn winning_cells(&self, side: Side) -> (run: Vec<(usize, usize)>)
        requires
            self.wf(),
        ensures
            has_line_spec(self@, side) ==> is_win_run(self@, side, run@),
            !has_line_spec(self@, side) ==> run@.len() == 0,
    {
        let ghost g = self@;
        let cols = self.cells.len();
        let rows = self.rows;
        let target = Cell::Owned(side);
        proof {
            assert forall|i: int| 0 <= i < cols implies (#[trigger] self.cells@[i])@.len()
                == rows by {
                assert(g[i].len() == rows);
            }
        }
        let mut c: usize = 0;
        while c < cols
            invariant
                self.wf(),
                self@ == g,
                cols == g.len(),
                rows == self.spec_rows(),
                target == Cell::Owned(side),
                forall|i: int| 0 <= i < cols ==> (#[trigger] self.cells@[i])@.len() == rows,
                c <= cols,
                forall|cc: int, rr: int| 0 <= cc < c && 0 <= rr < rows ==> !any_run_at(g, side, cc, rr),
            decreases cols - c,
        {
            let mut r: usize = 0;
            while r < rows
                invariant
                    self.wf(),
                    self@ == g,
                    cols == g.len(),
                    rows == self.spec_rows(),
                    target == Cell::Owned(side),
                    forall|i: int| 0 <= i < cols ==> (#[trigger] self.cells@[i])@.len() == rows,
                    c < cols,
                    r <= rows,
                    forall|cc: int, rr: int|
                        0 <= cc < c && 0 <= rr < rows ==> !any_run_at(g, side, cc, rr),
                    forall|rr: int| 0 <= rr < r ==> !any_run_at(g, side, c as int, rr),
                decreases rows - r,
            {
                proof {
                    assert(g[c as int] == self.cells@[c as int]@);
                    assert(g[c as int].len() == rows);
                }
                let cur = self.cells[c][r];
                proof {
                    assert(cur == g[c as int][r as int]);
                }
                if cur == target {
                    if cols >= 4 && c < cols - 3 && self.cells[c + 1][r] == target && self.cells[c
                        + 2][r] == target && self.cells[c + 3][r] == target {
                        let run = vec![(c, r), (c + 1, r), (c + 2, r), (c + 3, r)];
                        proof {
                            assert(any_run_at(g, side, c as int, r as int));
                        }
                        return run;
                    }
                    if rows >= 4 && r < rows - 3 && self.cells[c][r + 1] == target && self.cells[c][r
                        + 2] == target && self.cells[c][r + 3] == target {
                        let run = vec![(c, r), (c, r + 1), (c, r + 2), (c, r + 3)];
                        proof {
                            assert(any_run_at(g, side, c as int, r as int));
                        }
                        return run;
                    }
                    if cols >= 4 && c < cols - 3 && rows >= 4 && r < rows - 3 && self.cells[c + 1][r
                        + 1] == target && self.cells[c + 2][r + 2] == target && self.cells[c + 3][r
                        + 3] == target {
                        let run = vec![(c, r), (c + 1, r + 1), (c + 2, r + 2), (c + 3, r + 3)];
                        proof {
                            assert(any_run_at(g, side, c as int, r as int));
                        }
                        return run;
                    }
                    if cols >= 4 && c < cols - 3 && r >= 3 && self.cells[c + 1][r - 1] == target
                        && self.cells[c + 2][r - 2] == target && self.cells[c + 3][r - 3] == target {
                        let run = vec![(c, r), (c + 1, r - 1), (c + 2, r - 2), (c + 3, r - 3)];
                        proof {
                            assert(any_run_at(g, side, c as int, r as int));
                        }
                        return run;
                    }
                }
                proof {
                    assert(!any_run_at(g, side, c as int, r as int));
                }
                r += 1;
            }
            c += 1;
        }
        proof {
            assert forall|cc: int, rr: int| !any_run_at(g, side, cc, rr) by {
                if !(0 <= cc < cols && 0 <= rr < rows) {
                    assert(!cell_is(g, cc, rr, side));
                }
            }
            assert(!has_line_spec(g, side));
        }
        Vec::new()
    }

    /// Does `side` have four in a row anywhere on the board?
    pub fn has_line(&self, side: Side) -> (found: bool)
        requires
            self.wf(),
        ensures
            found == has_line_spec(self@, side),
    {
        let run = self.winning_cells(side);
        run.len() > 0
    }

    /// All columns that can still take a token, in ascending order. The
    /// order fixes the move-exploration order of the search and with it the
    /// engine's tie-breaking.
    pub fn legal_columns(&self) -> (list: Vec<usize>)
        requires
            self.wf(),
        ensures
            forall|i: int|
                0 <= i < list@.len() ==> legal_spec(self@, (#[trigger] list@[i]) as int),
            forall|c: int|
                0 <= c < self@.len() && legal_spec(self@, c) ==> exists|i: int|
                    0 <= i < list@.len() && list@[i] == c,
            forall|i: int, j: int| 0 <= i < j < list@.len() ==> list@[i] < list@[j],
    {
        let ghost g = self@;
        let cols = self.cells.len();
        let rows = self.rows;
        proof {
            assert forall|i: int| 0 <= i < cols implies (#[trigger] self.cells@[i])@.len()
                == rows by {
                assert(g[i].len() == rows);
            }
        }
        let mut list: Vec<usize> = Vec::new();
        let mut c: usize = 0;
        while c < cols
            invariant
                self.wf(),
                self@ == g,
                cols == g.len(),
                rows == self.spec_rows(),
                forall|i: int| 0 <= i < cols ==> (#[trigger] self.cells@[i])@.len() == rows,
                c <= cols,
                forall|i: int| 0 <= i < list@.len() ==> legal_spec(g, (#[trigger] list@[i]) as int),
                forall|cc: int|
                    0 <= cc < c && legal_spec(g, cc) ==> exists|i: int|
                        0 <= i < list@.len() && list@[i] == cc,
                forall|i: int, j: int| 0 <= i < j < list@.len() ==> list@[i] < list@[j],
                forall|i: int| 0 <= i < list@.len() ==> (#[trigger] list@[i]) < c,
            decreases cols - c,
        {
            proof {
                assert(g[c as int] == self.cells@[c as int]@);
                assert(g[c as int].len() == rows);
            }
            let ghost old_list = list@;
            if rows > 0 && self.cells[c][rows - 1] == Cell::Empty {
                list.push(c);
            }
            proof {
                assert forall|cc: int| 0 <= cc < c + 1 && legal_spec(g, cc) implies exists|i: int|
                    0 <= i < list@.len() && list@[i] == cc by {
                    if cc < c {
                        let i = choose|i: int| 0 <= i < old_list.len() && old_list[i] == cc;
                        assert(list@[i] == cc);
                    } else {
                        assert(list@[list@.len() - 1] == cc);
                    }
                }
            }
            c += 1;
        }
        list
    }

    /// The board is full exactly when no legal column remains.
    pub fn is_full(&self) -> (full: bool)
        requires
            self.wf(),
        ensures
            full == is_full_spec(self@),
    {
        let list = self.legal_columns();
        let empty = list.len() == 0;
        proof {
            if empty {
                assert forall|c: int| 0 <= c < self@.len() implies !legal_spec(self@, c) by {
                    if legal_spec(self@, c) {
                        let i = choose|i: int| 0 <= i < list@.len() && list@[i] == c;
                        assert(false);
                    }
                }
            } else {
                assert(legal_spec(self@, list@[0] as int));
            }
        }
        empty
    }
}

} // verus!
