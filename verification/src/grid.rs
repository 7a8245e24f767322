//! The mathematical model of a Sudoku board: which grids are valid,
//! complete, and conflict-free, and what counts as a solution.

use vstd::prelude::*;

verus! {

/// A 9x9 grid of cell values; 0 denotes an empty cell, 1..=9 a placed digit.
pub type Grid = [[u8; 9]; 9];

/// Number of rows, columns, boxes and digits of a standard board.
pub const GRID_SIZE: usize = 9;

/// `(r, c)` is a cell coordinate of the board.
pub open spec fn in_grid(r: int, c: int) -> bool {
    0 <= r < 9 && 0 <= c < 9
}

/// Index of the 3x3 box that cell `(r, c)` belongs to.
pub open spec fn box_of(r: int, c: int) -> int {
    (r / 3) * 3 + c / 3
}

/// Every cell holds either 0 (empty) or a digit 1..=9.
pub open spec fn cells_valid(g: Grid) -> bool {
    forall|r: int, c: int| in_grid(r, c) ==> 0 <= (#[trigger] g[r][c]) <= 9
}

/// Every cell holds a digit 1..=9: the grid is completely filled.
pub open spec fn full(g: Grid) -> bool {
    forall|r: int, c: int| in_grid(r, c) ==> 1 <= (#[trigger] g[r][c]) <= 9
}

/// Cells `(r1, c1)` and `(r2, c2)` constrain each other: they share a
/// row, a column, or a 3x3 box.
pub open spec fn same_unit(r1: int, c1: int, r2: int, c2: int) -> bool {
    r1 == r2 || c1 == c2 || box_of(r1, c1) == box_of(r2, c2)
}

/// No two distinct cells sharing a row, column or box hold equal
/// non-zero values.
pub open spec fn no_conflicts(g: Grid) -> bool {
    forall|r1: int, c1: int, r2: int, c2: int|
        #![trigger g[r1][c1], g[r2][c2]]
        in_grid(r1, c1) && in_grid(r2, c2) && !(r1 == r2 && c1 == c2)
            && same_unit(r1, c1, r2, c2) && g[r1][c1] != 0
            ==> g[r1][c1] != g[r2][c2]
}

/// `g` keeps every non-zero cell of `base` unchanged.
pub open spec fn extends(g: Grid, base: Grid) -> bool {
    forall|r: int, c: int|
        #![trigger g[r][c]]
        #![trigger base[r][c]]
        in_grid(r, c) && base[r][c] != 0 ==> g[r][c] == base[r][c]
}

/// `g` is a solution of the puzzle `base`: complete, conflict-free,
/// and agreeing with `base` on all givens.
pub open spec fn is_solution(g: Grid, base: Grid) -> bool {
    full(g) && no_conflicts(g) && extends(g, base)
}

/// Some solution of the puzzle `base` exists.
pub open spec fn solvable(base: Grid) -> bool {
    exists|g: Grid| is_solution(g, base)
}

/// Digit `d` occurs somewhere in row `r`.
pub open spec fn digit_in_row(g: Grid, r: int, d: u8) -> bool {
    exists|c: int| 0 <= c < 9 && (#[trigger] g[r][c]) == d
}

/// Digit `d` occurs somewhere in column `c`.
pub open spec fn digit_in_col(g: Grid, c: int, d: u8) -> bool {
    exists|r: int| 0 <= r < 9 && (#[trigger] g[r][c]) == d
}

/// Digit `d` occurs somewhere in box `b`.
pub open spec fn digit_in_box(g: Grid, b: int, d: u8) -> bool {
    exists|r: int, c: int| in_grid(r, c) && box_of(r, c) == b && (#[trigger] g[r][c]) == d
}

/// Placing digit `d` at the empty cell `(r, c)` collides with no
/// already-placed cell.
pub open spec fn can_place(g: Grid, r: int, c: int, d: u8) -> bool {
    &&& !digit_in_row(g, r, d)
    &&& !digit_in_col(g, c, d)
    &&& !digit_in_box(g, box_of(r, c), d)
}

/// Row-major position of cell `(r, c)` in the traversal order.
pub open spec fn cell_pos(r: int, c: int) -> int {
    r * 9 + c
}

/// All cells strictly before row-major position `k` are filled.
pub open spec fn prefix_filled(g: Grid, k: int) -> bool {
    forall|r: int, c: int| in_grid(r, c) && cell_pos(r, c) < k ==> (#[trigger] g[r][c]) != 0
}

/// Number of non-zero cells among the first `c` cells of row `r`.
pub open spec fn row_filled(g: Grid, r: int, c: int) -> nat
    decreases c,
{
    if c <= 0 {
        0
    } else {
        row_filled(g, r, c - 1) + (if g[r][c - 1] != 0 { 1nat } else { 0nat })
    }
}

/// Number of non-zero cells in the first `r` rows.
pub open spec fn rows_filled(g: Grid, r: int) -> nat
    decreases r,
{
    if r <= 0 {
        0
    } else {
        rows_filled(g, r - 1) + row_filled(g, r - 1, 9)
    }
}

/// Number of non-zero cells of the whole grid.
pub open spec fn filled_cells(g: Grid) -> nat {
    rows_filled(g, 9)
}

/// Grids that agree on every cell are equal.
pub proof fn lemma_grid_eq(g1: Grid, g2: Grid)
    requires
        forall|r: int, c: int| in_grid(r, c) ==> (#[trigger] g1[r][c]) == g2[r][c],
    ensures
        g1 == g2,
{
    broadcast use vstd::array::group_array_axioms;

    assert forall|r: int| 0 <= r < 9 implies g1@[r] == g2@[r] by {
        assert forall|c: int| 0 <= c < 9 implies g1@[r]@[c] == g2@[r]@[c] by {
            assert(g1[r][c] == g2[r][c]);
        }
        assert(g1@[r]@ =~= g2@[r]@);
    }
    assert(g1@ =~= g2@);
}

/// `g2` is `g1` with the single cell `(r, c)` changed.
pub open spec fn eq_except(g1: Grid, g2: Grid, r: int, c: int) -> bool {
    forall|r2: int, c2: int|
        in_grid(r2, c2) && !(r2 == r && c2 == c) ==> (#[trigger] g2[r2][c2]) == g1[r2][c2]
}

/// How placing digit `v` at the empty cell `(r, c)` changes which digits
/// occur in each row, column, and box.
pub proof fn lemma_digits_after_place(g1: Grid, g2: Grid, r: int, c: int, v: u8)
    requires
        in_grid(r, c),
        g1[r][c] == 0,
        g2[r][c] == v,
        1 <= v <= 9,
        eq_except(g1, g2, r, c),
    ensures
        forall|i: int, d: u8|
            #![trigger digit_in_row(g1, i, d)]
            #![trigger digit_in_row(g2, i, d)]
            0 <= i < 9 && 1 <= d <= 9 ==> (digit_in_row(g2, i, d) <==> (digit_in_row(g1, i, d)
                || (i == r && d == v))),
        forall|i: int, d: u8|
            #![trigger digit_in_col(g1, i, d)]
            #![trigger digit_in_col(g2, i, d)]
            0 <= i < 9 && 1 <= d <= 9 ==> (digit_in_col(g2, i, d) <==> (digit_in_col(g1, i, d)
                || (i == c && d == v))),
        forall|i: int, d: u8|
            #![trigger digit_in_box(g1, i, d)]
            #![trigger digit_in_box(g2, i, d)]
            0 <= i < 9 && 1 <= d <= 9 ==> (digit_in_box(g2, i, d) <==> (digit_in_box(g1, i, d)
                || (i == box_of(r, c) && d == v))),
{
    assert forall|i: int, d: u8| 0 <= i < 9 && 1 <= d <= 9 implies (digit_in_row(g2, i, d) <==> (
    digit_in_row(g1, i, d) || (i == r && d == v))) by {
        if digit_in_row(g2, i, d) {
            let c2 = choose|c2: int| 0 <= c2 < 9 && g2[i][c2] == d;
            if i == r && c2 == c {
                assert(d == v);
            } else {
                assert(g1[i][c2] == d);
            }
        }
        if digit_in_row(g1, i, d) {
            let c2 = choose|c2: int| 0 <= c2 < 9 && g1[i][c2] == d;
            assert(!(i == r && c2 == c));
            assert(g2[i][c2] == d);
        }
        if i == r && d == v {
            assert(g2[r][c] == d);
        }
    }
    assert forall|i: int, d: u8| 0 <= i < 9 && 1 <= d <= 9 implies (digit_in_col(g2, i, d) <==> (
    digit_in_col(g1, i, d) || (i == c && d == v))) by {
        if digit_in_col(g2, i, d) {
            let r2 = choose|r2: int| 0 <= r2 < 9 && g2[r2][i] == d;
            if r2 == r && i == c {
                assert(d == v);
            } else {
                assert(g1[r2][i] == d);
            }
        }
        if digit_in_col(g1, i, d) {
            let r2 = choose|r2: int| 0 <= r2 < 9 && g1[r2][i] == d;
            assert(!(r2 == r && i == c));
            assert(g2[r2][i] == d);
        }
        if i == c && d == v {
            assert(g2[r][c] == d);
        }
    }
    assert forall|i: int, d: u8| 0 <= i < 9 && 1 <= d <= 9 implies (digit_in_box(g2, i, d) <==> (
    digit_in_box(g1, i, d) || (i == box_of(r, c) && d == v))) by {
        if digit_in_box(g2, i, d) {
            let (r2, c2) = choose|r2: int, c2: int|
                in_grid(r2, c2) && box_of(r2, c2) == i && g2[r2][c2] == d;
            if r2 == r && c2 == c {
                assert(d == v);
            } else {
                assert(g1[r2][c2] == d);
                assert(digit_in_box(g1, i, d));
            }
        }
        if digit_in_box(g1, i, d) {
            let (r2, c2) = choose|r2: int, c2: int|
                in_grid(r2, c2) && box_of(r2, c2) == i && g1[r2][c2] == d;
            assert(!(r2 == r && c2 == c));
            assert(g2[r2][c2] == d);
            assert(digit_in_box(g2, i, d));
        }
        if i == box_of(r, c) && d == v {
            assert(g2[r][c] == d);
            assert(digit_in_box(g2, i, d));
        }
    }
}

/// Placing a digit that collides with nothing keeps the grid conflict-free.
pub proof fn lemma_no_conflicts_after_place(g1: Grid, g2: Grid, r: int, c: int, v: u8)
    requires
        in_grid(r, c),
        g1[r][c] == 0,
        g2[r][c] == v,
        1 <= v <= 9,
        eq_except(g1, g2, r, c),
        no_conflicts(g1),
        can_place(g1, r, c, v),
    ensures
        no_conflicts(g2),
{
    assert forall|r1: int, c1: int, r2: int, c2: int|
        in_grid(r1, c1) && in_grid(r2, c2) && !(r1 == r2 && c1 == c2) && same_unit(r1, c1, r2, c2)
            && (#[trigger] g2[r1][c1]) != 0 implies g2[r1][c1] != (#[trigger] g2[r2][c2]) by {
        if r1 == r && c1 == c {
            // the new cell against an old one
            if g2[r1][c1] == g2[r2][c2] {
                assert(g1[r2][c2] == v);
                if r2 == r {
                    assert(digit_in_row(g1, r, v));
                } else if c2 == c {
                    assert(digit_in_col(g1, c, v));
                } else {
                    assert(digit_in_box(g1, box_of(r, c), v));
                }
            }
        } else if r2 == r && c2 == c {
            // an old cell against the new one
            if g2[r1][c1] == g2[r2][c2] {
                assert(g1[r1][c1] == v);
                if r1 == r {
                    assert(digit_in_row(g1, r, v));
                } else if c1 == c {
                    assert(digit_in_col(g1, c, v));
                } else {
                    assert(digit_in_box(g1, box_of(r, c), v));
                }
            }
        } else {
            assert(g1[r1][c1] == g2[r1][c1]);
            assert(g1[r2][c2] == g2[r2][c2]);
        }
    }
}

/// How clearing the filled cell `(r, c)` changes which digits occur in
/// each row, column, and box, in a conflict-free grid.
pub proof fn lemma_digits_after_clear(g1: Grid, g2: Grid, r: int, c: int)
    requires
        in_grid(r, c),
        g1[r][c] != 0,
        g2[r][c] == 0,
        eq_except(g1, g2, r, c),
        no_conflicts(g1),
    ensures
        no_conflicts(g2),
        forall|i: int, d: u8|
            #![trigger digit_in_row(g1, i, d)]
            #![trigger digit_in_row(g2, i, d)]
            0 <= i < 9 && 1 <= d <= 9 ==> (digit_in_row(g2, i, d) <==> (digit_in_row(g1, i, d)
                && !(i == r && d == g1[r][c]))),
        forall|i: int, d: u8|
            #![trigger digit_in_col(g1, i, d)]
            #![trigger digit_in_col(g2, i, d)]
            0 <= i < 9 && 1 <= d <= 9 ==> (digit_in_col(g2, i, d) <==> (digit_in_col(g1, i, d)
                && !(i == c && d == g1[r][c]))),
        forall|i: int, d: u8|
            #![trigger digit_in_box(g1, i, d)]
            #![trigger digit_in_box(g2, i, d)]
            0 <= i < 9 && 1 <= d <= 9 ==> (digit_in_box(g2, i, d) <==> (digit_in_box(g1, i, d)
                && !(i == box_of(r, c) && d == g1[r][c]))),
{
    let v = g1[r][c];
    assert forall|r1: int, c1: int, r2: int, c2: int|
        in_grid(r1, c1) && in_grid(r2, c2) && !(r1 == r2 && c1 == c2) && same_unit(r1, c1, r2, c2)
            && (#[trigger] g2[r1][c1]) != 0 implies g2[r1][c1] != (#[trigger] g2[r2][c2]) by {
        if !(r1 == r && c1 == c) && !(r2 == r && c2 == c) {
            assert(g1[r1][c1] == g2[r1][c1]);
            assert(g1[r2][c2] == g2[r2][c2]);
        }
    }
    assert forall|i: int, d: u8| 0 <= i < 9 && 1 <= d <= 9 implies (digit_in_row(g2, i, d) <==> (
    digit_in_row(g1, i, d) && !(i == r && d == v))) by {
        if digit_in_row(g2, i, d) {
            let c2 = choose|c2: int| 0 <= c2 < 9 && g2[i][c2] == d;
            assert(!(i == r && c2 == c));
            assert(g1[i][c2] == d);
            if i == r && d == v {
                // a second copy of v in row r would conflict in g1
                assert(g1[r][c2] == g1[r][c]);
                assert(false);
            }
        }
        if digit_in_row(g1, i, d) && !(i == r && d == v) {
            let c2 = choose|c2: int| 0 <= c2 < 9 && g1[i][c2] == d;
            assert(!(i == r && c2 == c));
            assert(g2[i][c2] == d);
        }
    }
    assert forall|i: int, d: u8| 0 <= i < 9 && 1 <= d <= 9 implies (digit_in_col(g2, i, d) <==> (
    digit_in_col(g1, i, d) && !(i == c && d == v))) by {
        if digit_in_col(g2, i, d) {
            let r2 = choose|r2: int| 0 <= r2 < 9 && g2[r2][i] == d;
            assert(!(r2 == r && i == c));
            assert(g1[r2][i] == d);
            if i == c && d == v {
                assert(g1[r2][c] == g1[r][c]);
                assert(false);
            }
        }
        if digit_in_col(g1, i, d) && !(i == c && d == v) {
            let r2 = choose|r2: int| 0 <= r2 < 9 && g1[r2][i] == d;
            assert(!(r2 == r && i == c));
            assert(g2[r2][i] == d);
        }
    }
    assert forall|i: int, d: u8| 0 <= i < 9 && 1 <= d <= 9 implies (digit_in_box(g2, i, d) <==> (
    digit_in_box(g1, i, d) && !(i == box_of(r, c) && d == v))) by {
        if digit_in_box(g2, i, d) {
            let (r2, c2) = choose|r2: int, c2: int|
                in_grid(r2, c2) && box_of(r2, c2) == i && g2[r2][c2] == d;
            assert(!(r2 == r && c2 == c));
            assert(g1[r2][c2] == d);
            assert(digit_in_box(g1, i, d));
            if i == box_of(r, c) && d == v {
                assert(same_unit(r2, c2, r, c));
                assert(g1[r2][c2] == g1[r][c]);
                assert(false);
            }
        }
        if digit_in_box(g1, i, d) && !(i == box_of(r, c) && d == v) {
            let (r2, c2) = choose|r2: int, c2: int|
                in_grid(r2, c2) && box_of(r2, c2) == i && g1[r2][c2] == d;
            assert(!(r2 == r && c2 == c));
            assert(g2[r2][c2] == d);
            assert(digit_in_box(g2, i, d));
        }
    }
}

proof fn lemma_row_filled_frame(g1: Grid, g2: Grid, r: int, c: int, r2: int, k: int)
    requires
        in_grid(r, c),
        eq_except(g1, g2, r, c),
        0 <= k <= 9,
        0 <= r2 < 9,
    ensures
        r2 != r || k <= c ==> row_filled(g2, r2, k) == row_filled(g1, r2, k),
        r2 == r && k > c && g1[r][c] == 0 && g2[r][c] != 0 ==> row_filled(g2, r2, k) == row_filled(
            g1, r2, k) + 1,
        r2 == r && k > c && g1[r][c] != 0 && g2[r][c] == 0 ==> row_filled(g2, r2, k) + 1
            == row_filled(g1, r2, k),
    decreases k,
{
    if k > 0 {
        lemma_row_filled_frame(g1, g2, r, c, r2, k - 1);
        if !(r2 == r && k - 1 == c) {
            assert(g2[r2][k - 1] == g1[r2][k - 1]);
        }
    }
}

proof fn lemma_rows_filled_frame(g1: Grid, g2: Grid, r: int, c: int, k: int)
    requires
        in_grid(r, c),
        eq_except(g1, g2, r, c),
        0 <= k <= 9,
    ensures
        k <= r ==> rows_filled(g2, k) == rows_filled(g1, k),
        k > r && g1[r][c] == 0 && g2[r][c] != 0 ==> rows_filled(g2, k) == rows_filled(g1, k) + 1,
        k > r && g1[r][c] != 0 && g2[r][c] == 0 ==> rows_filled(g2, k) + 1 == rows_filled(g1, k),
    decreases k,
{
    if k > 0 {
        lemma_rows_filled_frame(g1, g2, r, c, k - 1);
        lemma_row_filled_frame(g1, g2, r, c, k - 1, 9);
    }
}

/// Changing the single cell `(r, c)` moves the filled-cell count by one.
pub proof fn lemma_filled_cells_update(g1: Grid, g2: Grid, r: int, c: int)
    requires
        in_grid(r, c),
        eq_except(g1, g2, r, c),
    ensures
        g1[r][c] == 0 && g2[r][c] != 0 ==> filled_cells(g2) == filled_cells(g1) + 1,
        g1[r][c] != 0 && g2[r][c] == 0 ==> filled_cells(g2) + 1 == filled_cells(g1),
{
    lemma_rows_filled_frame(g1, g2, r, c, 9);
}

proof fn lemma_row_filled_bound(g: Grid, r: int, k: int)
    requires
        0 <= k <= 9,
    ensures
        row_filled(g, r, k) <= k,
    decreases k,
{
    if k > 0 {
        lemma_row_filled_bound(g, r, k - 1);
    }
}

proof fn lemma_rows_filled_bound(g: Grid, k: int)
    requires
        0 <= k <= 9,
    ensures
        rows_filled(g, k) <= 9 * k,
    decreases k,
{
    if k > 0 {
        lemma_rows_filled_bound(g, k - 1);
        lemma_row_filled_bound(g, k - 1, 9);
    }
}

/// A 9x9 grid has at most 81 filled cells.
pub proof fn lemma_filled_cells_bound(g: Grid)
    ensures
        filled_cells(g) <= 81,
{
    lemma_rows_filled_bound(g, 9);
}

proof fn lemma_row_filled_pos(g: Grid, r: int, c: int, k: int)
    requires
        0 <= c < k <= 9,
        g[r][c] != 0,
    ensures
        row_filled(g, r, k) >= 1,
    decreases k,
{
    if k - 1 > c {
        lemma_row_filled_pos(g, r, c, k - 1);
    }
}

proof fn lemma_rows_filled_pos(g: Grid, r: int, c: int, k: int)
    requires
        0 <= r < k <= 9,
        0 <= c < 9,
        g[r][c] != 0,
    ensures
        rows_filled(g, k) >= 1,
    decreases k,
{
    if k - 1 > r {
        lemma_rows_filled_pos(g, r, c, k - 1);
    } else {
        lemma_row_filled_pos(g, r, c, 9);
    }
}

/// A grid with a non-zero cell has a positive filled-cell count.
pub proof fn lemma_filled_cells_pos(g: Grid, r: int, c: int)
    requires
        in_grid(r, c),
        g[r][c] != 0,
    ensures
        filled_cells(g) >= 1,
{
    lemma_rows_filled_pos(g, r, c, 9);
}

proof fn lemma_row_filled_empty(g: Grid, r: int, k: int)
    requires
        0 <= k <= 9,
        forall|r2: int, c2: int| in_grid(r2, c2) ==> (#[trigger] g[r2][c2]) == 0,
        0 <= r < 9,
    ensures
        row_filled(g, r, k) == 0,
    decreases k,
{
    if k > 0 {
        lemma_row_filled_empty(g, r, k - 1);
        assert(g[r][k - 1] == 0);
    }
}

proof fn lemma_rows_filled_empty(g: Grid, k: int)
    requires
        0 <= k <= 9,
        forall|r2: int, c2: int| in_grid(r2, c2) ==> (#[trigger] g[r2][c2]) == 0,
    ensures
        rows_filled(g, k) == 0,
    decreases k,
{
    if k > 0 {
        lemma_rows_filled_empty(g, k - 1);
        lemma_row_filled_empty(g, k - 1, 9);
    }
}

/// A grid of empty cells has a filled-cell count of zero.
pub proof fn lemma_filled_cells_empty(g: Grid)
    requires
        forall|r2: int, c2: int| in_grid(r2, c2) ==> (#[trigger] g[r2][c2]) == 0,
    ensures
        filled_cells(g) == 0,
{
    lemma_rows_filled_empty(g, 9);
}

/// A digit that collides with an already-placed cell cannot stand at the
/// empty cell `(r, c)` in any solution.
pub proof fn lemma_blocked_digit(base: Grid, r: int, c: int, v: u8)
    requires
        in_grid(r, c),
        base[r][c] == 0,
        1 <= v <= 9,
        !can_place(base, r, c, v),
    ensures
        forall|g: Grid| #![trigger is_solution(g, base)] is_solution(g, base) ==> g[r][c] != v,
{
    assert forall|g: Grid| is_solution(g, base) implies g[r][c] != v by {
        if g[r][c] == v {
            if digit_in_row(base, r, v) {
                let c2 = choose|c2: int| 0 <= c2 < 9 && base[r][c2] == v;
                assert(c2 != c);
                assert(g[r][c2] == v);
                assert(g[r][c] != g[r][c2]);
            } else if digit_in_col(base, c, v) {
                let r2 = choose|r2: int| 0 <= r2 < 9 && base[r2][c] == v;
                assert(r2 != r);
                assert(g[r2][c] == v);
                assert(g[r][c] != g[r2][c]);
            } else {
                let (r2, c2) = choose|r2: int, c2: int|
                    in_grid(r2, c2) && box_of(r2, c2) == box_of(r, c) && base[r2][c2] == v;
                assert(!(r2 == r && c2 == c));
                assert(g[r2][c2] == v);
                assert(same_unit(r, c, r2, c2));
                assert(g[r][c] != g[r2][c2]);
            }
        }
    }
}

/// Solutions of the grid with `v` placed at `(r, c)` are exactly the
/// solutions of the grid without it that put `v` there.
pub proof fn lemma_solution_after_place(base: Grid, placed: Grid, r: int, c: int, v: u8)
    requires
        in_grid(r, c),
        base[r][c] == 0,
        placed[r][c] == v,
        1 <= v <= 9,
        eq_except(base, placed, r, c),
    ensures
        forall|g: Grid| #![trigger is_solution(g, placed)]
            is_solution(g, placed) ==> is_solution(g, base),
        forall|g: Grid| #![trigger is_solution(g, base)]
            is_solution(g, base) && g[r][c] == v ==> is_solution(g, placed),
{
    assert forall|g: Grid| is_solution(g, placed) implies is_solution(g, base) by {
        assert forall|r2: int, c2: int|
            in_grid(r2, c2) && (#[trigger] base[r2][c2]) != 0 implies g[r2][c2] == base[r2][c2] by {
            assert(placed[r2][c2] == base[r2][c2]);
        }
    }
    assert forall|g: Grid| is_solution(g, base) && g[r][c] == v implies is_solution(g, placed) by {
        assert forall|r2: int, c2: int|
            in_grid(r2, c2) && (#[trigger] placed[r2][c2]) != 0 implies g[r2][c2] == placed[r2][
            c2] by {
            if !(r2 == r && c2 == c) {
                assert(base[r2][c2] == placed[r2][c2]);
            }
        }
    }
}

} // verus!
