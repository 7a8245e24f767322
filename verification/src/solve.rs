//! The constraint-tracked backtracking solver: the board state with its
//! presence tables, the row-major cursor, and the exhaustive search.

use vstd::prelude::*;

use crate::grid::{
    box_of, can_place, cell_pos, cells_valid, digit_in_box, digit_in_col, digit_in_row, eq_except,
    filled_cells, full, in_grid, is_solution, lemma_blocked_digit,
    lemma_digits_after_clear, lemma_digits_after_place, lemma_filled_cells_bound,
    lemma_filled_cells_empty, lemma_filled_cells_pos, lemma_filled_cells_update, lemma_grid_eq,
    lemma_no_conflicts_after_place, lemma_solution_after_place, no_conflicts, prefix_filled,
    same_unit, solvable, Grid, GRID_SIZE,
};

verus! {

/// Why a puzzle has no solution grid to return.
#[derive(Debug, Clone, Copy, PartialEq, Eq, Structural)]
pub enum SolverError {
    /// Two givens holding the same digit share a row, column, or box.
    InvalidPuzzle,
    /// The givens are consistent, but no completion of them exists.
    Unsolvable,
}

/// The board with three presence tables kept exactly synchronized with it:
/// `row_lookup[r][d-1]`, `col_lookup[c][d-1]` and `subgrid[b][d-1]` hold
/// iff digit `d` occupies some cell of row `r`, column `c`, or box `b`.
pub struct Sudoku {
    pub grid: Grid,
    pub subgrid: [[bool; 9]; 9],
    pub row_lookup: [[bool; 9]; 9],
    pub col_lookup: [[bool; 9]; 9],
    pub num_solved: u8,
}

/// The first `k` cells (in row-major order) of `g` hold the givens of
/// `board`; all later cells of `g` are still empty.
spec fn seeded_prefix(g: Grid, board: Grid, k: int) -> bool {
    forall|r: int, c: int|
        in_grid(r, c) ==> (#[trigger] g[r][c]) == (if cell_pos(r, c) < k {
            board[r][c]
        } else {
            0
        })
}

/// When a given collides with an already-seeded cell, the puzzle itself
/// has two equal givens sharing a row, column, or box.
proof fn lemma_seeded_conflict(g1: Grid, board: Grid, r: int, c: int, value: u8)
    requires
        in_grid(r, c),
        1 <= value <= 9,
        board[r][c] == value,
        seeded_prefix(g1, board, cell_pos(r, c)),
        !can_place(g1, r, c, value),
    ensures
        !no_conflicts(board),
{
    if digit_in_row(g1, r, value) {
        let c2 = choose|c2: int| 0 <= c2 < 9 && g1[r][c2] == value;
        assert(board[r][c2] == value);
        assert(!(c2 == c));
        if no_conflicts(board) {
            assert(board[r][c] != board[r][c2]);
            assert(false);
        }
    } else if digit_in_col(g1, c, value) {
        let r2 = choose|r2: int| 0 <= r2 < 9 && g1[r2][c] == value;
        assert(board[r2][c] == value);
        assert(!(r2 == r));
        if no_conflicts(board) {
            assert(board[r][c] != board[r2][c]);
            assert(false);
        }
    } else {
        assert(digit_in_box(g1, box_of(r, c), value));
        let (r2, c2) = choose|r2: int, c2: int|
            in_grid(r2, c2) && box_of(r2, c2) == box_of(r, c) && g1[r2][c2] == value;
        assert(board[r2][c2] == value);
        assert(!(r2 == r && c2 == c));
        assert(same_unit(r, c, r2, c2));
        if no_conflicts(board) {
            assert(board[r][c] != board[r2][c2]);
            assert(false);
        }
    }
}

impl Sudoku {
    /// The presence tables mirror the grid: slot `j` of a table records
    /// whether digit `j + 1` occurs in the corresponding row, column or box.
    pub open spec fn tables_ok(&self) -> bool {
        &&& forall|r: int, j: int|
            0 <= r < 9 && 0 <= j < 9 ==> ((#[trigger] self.row_lookup[r][j]) <==> digit_in_row(
                self.grid,
                r,
                (j + 1) as u8,
            ))
        &&& forall|c: int, j: int|
            0 <= c < 9 && 0 <= j < 9 ==> ((#[trigger] self.col_lookup[c][j]) <==> digit_in_col(
                self.grid,
                c,
                (j + 1) as u8,
            ))
        &&& forall|b: int, j: int|
            0 <= b < 9 && 0 <= j < 9 ==> ((#[trigger] self.subgrid[b][j]) <==> digit_in_box(
                self.grid,
                b,
                (j + 1) as u8,
            ))
    }

    /// Well-formed board state: valid cells, no constraint violated,
    /// presence tables synchronized, filled-cell count exact.
    pub open spec fn wf(&self) -> bool {
        &&& cells_valid(self.grid)
        &&& no_conflicts(self.grid)
        &&& self.tables_ok()
        &&& self.num_solved as nat == filled_cells(self.grid)
    }

    /// Calculate subgrid index based on row and column indexes.
    pub fn subgrid_index(row: usize, col: usize) -> (b: usize)
        requires
            row < 9,
            col < 9,
        ensures
            b == box_of(row as int, col as int),
            b < 9,
    {
        (row / 3) * 3 + col / 3
    }

    /// Initialise the board state from the initial puzzle, seeding the
    /// presence tables by scanning all 81 cells. Rejects a puzzle whose
    /// givens already violate a constraint, before any search begins.
    pub fn new(board: Grid) -> (result: Result<Sudoku, SolverError>)
        requires
            cells_valid(board),
        ensures
            match result {
                Ok(s) => s.wf() && s.grid == board && no_conflicts(board),
                Err(e) => e == SolverError::InvalidPuzzle && !no_conflicts(board),
            },
    {
        let mut sudoku = Sudoku {
            grid: [[0u8; 9]; 9],
            subgrid: [[false; 9]; 9],
            row_lookup: [[false; 9]; 9],
            col_lookup: [[false; 9]; 9],
            num_solved: 0,
        };
        proof {
            lemma_filled_cells_empty(sudoku.grid);
        }
        let mut row_index: usize = 0;
        while row_index < 9
            invariant
                row_index <= 9,
                cells_valid(board),
                sudoku.wf(),
                seeded_prefix(sudoku.grid, board, row_index as int * 9),
            decreases 9 - row_index,
        {
            let mut col_index: usize = 0;
            while col_index < 9
                invariant
                    row_index < 9,
                    col_index <= 9,
                    cells_valid(board),
                    sudoku.wf(),
                    seeded_prefix(sudoku.grid, board, cell_pos(row_index as int, col_index as int)),
                decreases 9 - col_index,
            {
                let value = board[row_index][col_index];
                let ghost g1 = sudoku.grid;
                let ghost r = row_index as int;
                let ghost c = col_index as int;
                if value != 0 {
                    let point = Point::new(row_index, col_index);
                    if !sudoku.valid_placement(&value, &point) {
                        proof {
                            lemma_seeded_conflict(g1, board, r, c, value);
                        }
                        return Err(SolverError::InvalidPuzzle);
                    }
                    sudoku.add_value(&value, &point);
                }
                proof {
                    assert forall|r2: int, c2: int| in_grid(r2, c2) implies (
                    #[trigger] sudoku.grid[r2][c2]) == (if cell_pos(r2, c2) < cell_pos(r, c) + 1 {
                        board[r2][c2]
                    } else {
                        0
                    }) by {
                        if r2 == r && c2 == c {
                        } else {
                            assert(sudoku.grid[r2][c2] == g1[r2][c2]);
                            assert(cell_pos(r2, c2) != cell_pos(r, c));
                        }
                    }
                }
                col_index += 1;
            }
            row_index += 1;
        }
        proof {
            lemma_grid_eq(sudoku.grid, board);
        }
        Ok(sudoku)
    }

    /// Place digit `value` at the empty, collision-free cell `point`,
    /// setting the three presence flags and the filled-cell count with it.
    pub fn add_value(&mut self, value: &u8, point: &Point)
        requires
            old(self).wf(),
            point.wf(),
            1 <= *value <= 9,
            old(self).grid[point.row as int][point.col as int] == 0,
            can_place(old(self).grid, point.row as int, point.col as int, *value),
        ensures
            final(self).wf(),
            final(self).grid[point.row as int][point.col as int] == *value,
            eq_except(old(self).grid, final(self).grid, point.row as int, point.col as int),
            final(self).num_solved == old(self).num_solved + 1,
    {
        let mut grid_row: [u8; 9] = self.grid[point.row];
        grid_row[point.col] = *value;
        self.grid[point.row] = grid_row;

        let square = Sudoku::subgrid_index(point.row, point.col);
        let mut box_flags: [bool; 9] = self.subgrid[square];
        box_flags[*value as usize - 1] = true;
        self.subgrid[square] = box_flags;

        let mut row_flags: [bool; 9] = self.row_lookup[point.row];
        row_flags[*value as usize - 1] = true;
        self.row_lookup[point.row] = row_flags;

        let mut col_flags: [bool; 9] = self.col_lookup[point.col];
        col_flags[*value as usize - 1] = true;
        self.col_lookup[point.col] = col_flags;

        proof {
            lemma_filled_cells_bound(old(self).grid);
        }
        self.num_solved = self.num_solved + 1;

        proof {
            let r = point.row as int;
            let c = point.col as int;
            let v = *value;
            let g1 = old(self).grid;
            let g2 = self.grid;
            assert(eq_except(g1, g2, r, c));
            lemma_digits_after_place(g1, g2, r, c, v);
            lemma_no_conflicts_after_place(g1, g2, r, c, v);
            lemma_filled_cells_update(g1, g2, r, c);
            assert forall|i: int, j: int| 0 <= i < 9 && 0 <= j < 9 implies ((
            #[trigger] self.row_lookup[i][j]) <==> digit_in_row(g2, i, (j + 1) as u8)) by {
                assert(old(self).row_lookup[i][j] <==> digit_in_row(g1, i, (j + 1) as u8));
                if i == r && j == v - 1 {
                    assert(self.row_lookup[i][j]);
                    assert((j + 1) as u8 == v);
                } else {
                    assert(self.row_lookup[i][j] == old(self).row_lookup[i][j]);
                    assert(!(i == r && (j + 1) as u8 == v));
                }
            }
            assert forall|i: int, j: int| 0 <= i < 9 && 0 <= j < 9 implies ((
            #[trigger] self.col_lookup[i][j]) <==> digit_in_col(g2, i, (j + 1) as u8)) by {
                assert(old(self).col_lookup[i][j] <==> digit_in_col(g1, i, (j + 1) as u8));
                if i == c && j == v - 1 {
                    assert(self.col_lookup[i][j]);
                    assert((j + 1) as u8 == v);
                } else {
                    assert(self.col_lookup[i][j] == old(self).col_lookup[i][j]);
                    assert(!(i == c && (j + 1) as u8 == v));
                }
            }
            assert forall|i: int, j: int| 0 <= i < 9 && 0 <= j < 9 implies ((
            #[trigger] self.subgrid[i][j]) <==> digit_in_box(g2, i, (j + 1) as u8)) by {
                assert(old(self).subgrid[i][j] <==> digit_in_box(g1, i, (j + 1) as u8));
                if i == box_of(r, c) && j == v - 1 {
                    assert(self.subgrid[i][j]);
                    assert((j + 1) as u8 == v);
                } else {
                    assert(self.subgrid[i][j] == old(self).subgrid[i][j]);
                    assert(!(i == box_of(r, c) && (j + 1) as u8 == v));
                }
            }
        }
    }

    /// Clear the filled cell `point`, clearing the three presence flags of
    /// its digit and decrementing the filled-cell count.
    pub fn remove_value(&mut self, point: &Point)
        requires
            old(self).wf(),
            point.wf(),
            old(self).grid[point.row as int][point.col as int] != 0,
        ensures
            final(self).wf(),
            final(self).grid[point.row as int][point.col as int] == 0,
            eq_except(old(self).grid, final(self).grid, point.row as int, point.col as int),
            final(self).num_solved + 1 == old(self).num_solved,
    {
        let value = self.grid[point.row][point.col];
        proof {
            assert(1 <= value <= 9);
        }
        let mut grid_row: [u8; 9] = self.grid[point.row];
        grid_row[point.col] = 0;
        self.grid[point.row] = grid_row;

        let square = Sudoku::subgrid_index(point.row, point.col);
        let mut box_flags: [bool; 9] = self.subgrid[square];
        box_flags[value as usize - 1] = false;
        self.subgrid[square] = box_flags;

        let mut row_flags: [bool; 9] = self.row_lookup[point.row];
        row_flags[value as usize - 1] = false;
        self.row_lookup[point.row] = row_flags;

        let mut col_flags: [bool; 9] = self.col_lookup[point.col];
        col_flags[value as usize - 1] = false;
        self.col_lookup[point.col] = col_flags;

        proof {
            lemma_filled_cells_pos(old(self).grid, point.row as int, point.col as int);
        }
        self.num_solved = self.num_solved - 1;

        proof {
            let r = point.row as int;
            let c = point.col as int;
            let g1 = old(self).grid;
            let g2 = self.grid;
            assert(eq_except(g1, g2, r, c));
            lemma_digits_after_clear(g1, g2, r, c);
            lemma_filled_cells_update(g1, g2, r, c);
            assert forall|i: int, j: int| 0 <= i < 9 && 0 <= j < 9 implies ((
            #[trigger] self.row_lookup[i][j]) <==> digit_in_row(g2, i, (j + 1) as u8)) by {
                assert(old(self).row_lookup[i][j] <==> digit_in_row(g1, i, (j + 1) as u8));
                if i == r && j == value - 1 {
                    assert(!self.row_lookup[i][j]);
                    assert((j + 1) as u8 == value);
                } else {
                    assert(self.row_lookup[i][j] == old(self).row_lookup[i][j]);
                    assert(!(i == r && (j + 1) as u8 == value));
                }
            }
            assert forall|i: int, j: int| 0 <= i < 9 && 0 <= j < 9 implies ((
            #[trigger] self.col_lookup[i][j]) <==> digit_in_col(g2, i, (j + 1) as u8)) by {
                assert(old(self).col_lookup[i][j] <==> digit_in_col(g1, i, (j + 1) as u8));
                if i == c && j == value - 1 {
                    assert(!self.col_lookup[i][j]);
                    assert((j + 1) as u8 == value);
                } else {
                    assert(self.col_lookup[i][j] == old(self).col_lookup[i][j]);
                    assert(!(i == c && (j + 1) as u8 == value));
                }
            }
            assert forall|i: int, j: int| 0 <= i < 9 && 0 <= j < 9 implies ((
            #[trigger] self.subgrid[i][j]) <==> digit_in_box(g2, i, (j + 1) as u8)) by {
                assert(old(self).subgrid[i][j] <==> digit_in_box(g1, i, (j + 1) as u8));
                if i == box_of(r, c) && j == value - 1 {
                    assert(!self.subgrid[i][j]);
                    assert((j + 1) as u8 == value);
                } else {
                    assert(self.subgrid[i][j] == old(self).subgrid[i][j]);
                    assert(!(i == box_of(r, c) && (j + 1) as u8 == value));
                }
            }
        }
    }

    /// Digit `value` does not yet occur in the box of `point`.
    pub fn unique_in_subgrid(&self, value: u8, point: &Point) -> (r: bool)
        requires
            self.wf(),
            point.wf(),
            1 <= value <= 9,
        ensures
            r == !digit_in_box(self.grid, box_of(point.row as int, point.col as int), value),
    {
        let square = Sudoku::subgrid_index(point.row, point.col);
        proof {
            assert(((value - 1) + 1) as u8 == value);
        }
        if !self.subgrid[square][value as usize - 1] {
            return true;
        }
        false
    }

    /// Digit `value` collides with no placed cell in the row, column, or
    /// box of `point`.
    pub fn valid_placement(&self, value: &u8, point: &Point) -> (r: bool)
        requires
            self.wf(),
            point.wf(),
            1 <= *value <= 9,
        ensures
            r == can_place(self.grid, point.row as int, point.col as int, *value),
    {
        proof {
            assert(((*value - 1) + 1) as u8 == *value);
        }
        !(self.row_lookup[point.row][*value as usize - 1]
            || self.col_lookup[point.col][*value as usize - 1]
            || !self.unique_in_subgrid(*value, point))
    }
}

/// A well-formed board state is determined by its grid: the presence
/// tables and the filled-cell count only mirror it.
proof fn lemma_state_determined(s1: Sudoku, s2: Sudoku)
    requires
        s1.wf(),
        s2.wf(),
        s1.grid == s2.grid,
    ensures
        s1 == s2,
{
    broadcast use vstd::array::group_array_axioms;

    assert forall|i: int| 0 <= i < 9 implies s1.row_lookup@[i] == s2.row_lookup@[i] by {
        assert forall|j: int| 0 <= j < 9 implies s1.row_lookup@[i]@[j] == s2.row_lookup@[i]@[
        j] by {
            assert(s1.row_lookup[i][j] <==> digit_in_row(s1.grid, i, (j + 1) as u8));
            assert(s2.row_lookup[i][j] <==> digit_in_row(s2.grid, i, (j + 1) as u8));
        }
        assert(s1.row_lookup@[i]@ =~= s2.row_lookup@[i]@);
    }
    assert(s1.row_lookup@ =~= s2.row_lookup@);
    assert forall|i: int| 0 <= i < 9 implies s1.col_lookup@[i] == s2.col_lookup@[i] by {
        assert forall|j: int| 0 <= j < 9 implies s1.col_lookup@[i]@[j] == s2.col_lookup@[i]@[
        j] by {
            assert(s1.col_lookup[i][j] <==> digit_in_col(s1.grid, i, (j + 1) as u8));
            assert(s2.col_lookup[i][j] <==> digit_in_col(s2.grid, i, (j + 1) as u8));
        }
        assert(s1.col_lookup@[i]@ =~= s2.col_lookup@[i]@);
    }
    assert(s1.col_lookup@ =~= s2.col_lookup@);
    assert forall|i: int| 0 <= i < 9 implies s1.subgrid@[i] == s2.subgrid@[i] by {
        assert forall|j: int| 0 <= j < 9 implies s1.subgrid@[i]@[j] == s2.subgrid@[i]@[j] by {
            assert(s1.subgrid[i][j] <==> digit_in_box(s1.grid, i, (j + 1) as u8));
            assert(s2.subgrid[i][j] <==> digit_in_box(s2.grid, i, (j + 1) as u8));
        }
        assert(s1.subgrid@[i]@ =~= s2.subgrid@[i]@);
    }
    assert(s1.subgrid@ =~= s2.subgrid@);
    assert(s1.row_lookup == s2.row_lookup);
    assert(s1.col_lookup == s2.col_lookup);
    assert(s1.subgrid == s2.subgrid);
    assert(s1.num_solved == s2.num_solved);
}

/// Depth-first trial of digits from `point` onward, with undo on dead
/// ends. All cells before `point` in row-major order are already filled.
/// On success the board holds a solution of the grid it held before the
/// call; on failure the board is unchanged and that grid has no solution.
pub fn backtrack(sudoku: &mut Sudoku, point: &Point) -> (solved: bool)
    requires
        old(sudoku).wf(),
        point.wf(),
        prefix_filled(old(sudoku).grid, point.idx()),
    ensures
        final(sudoku).wf(),
        solved ==> is_solution(final(sudoku).grid, old(sudoku).grid),
        !solved ==> *final(sudoku) == *old(sudoku) && !solvable(old(sudoku).grid),
    decreases 81 - point.idx(),
{
    let row = point.row;
    let col = point.col;
    let ghost r = row as int;
    let ghost c = col as int;
    if sudoku.grid[row][col] != 0 {
        match point.next() {
            Some(next_point) => {
                proof {
                    lemma_prefix_filled_step(sudoku.grid, r, c);
                }
                backtrack(sudoku, &next_point)
            },
            None => {
                proof {
                    lemma_last_cell_full(sudoku.grid);
                }
                true
            },
        }
    } else {
        let ghost g0 = sudoku.grid;
        let mut value: u8 = 1;
        while value <= 9
            invariant
                sudoku.wf(),
                point.wf(),
                r == point.row as int,
                c == point.col as int,
                sudoku.grid == g0,
                g0 == old(sudoku).grid,
                sudoku.num_solved == old(sudoku).num_solved,
                g0[point.row as int][point.col as int] == 0,
                prefix_filled(g0, point.idx()),
                1 <= value <= 10,
                forall|g: Grid| #![trigger is_solution(g, g0)]
                    is_solution(g, g0) ==> !(g[point.row as int][point.col as int] < value),
            decreases 10 - value,
        {
            if sudoku.valid_placement(&value, point) {
                sudoku.add_value(&value, point);
                let ghost placed = sudoku.grid;
                proof {
                    lemma_solution_after_place(g0, placed, r, c, value);
                }
                match point.next() {
                    Some(next_point) => {
                        proof {
                            lemma_prefix_filled_step(sudoku.grid, r, c);
                        }
                        if backtrack(sudoku, &next_point) {
                            return true;
                        }
                        sudoku.remove_value(point);
                        proof {
                            assert forall|r2: int, c2: int| in_grid(r2, c2) implies (
                            #[trigger] sudoku.grid[r2][c2]) == g0[r2][c2] by {
                                if !(r2 == r && c2 == c) {
                                    assert(sudoku.grid[r2][c2] == placed[r2][c2]);
                                    assert(placed[r2][c2] == g0[r2][c2]);
                                }
                            }
                            lemma_grid_eq(sudoku.grid, g0);
                        }
                    },
                    None => {
                        proof {
                            lemma_last_cell_full(sudoku.grid);
                        }
                        return true;
                    },
                }
            } else {
                proof {
                    lemma_blocked_digit(g0, r, c, value);
                }
            }
            value += 1;
        }
        proof {
            assert forall|g: Grid| !is_solution(g, g0) by {
                if is_solution(g, g0) {
                    assert(1 <= g[r][c] <= 9);
                    assert(!(g[r][c] < 10));
                }
            }
            assert(!solvable(g0));
            lemma_state_determined(*sudoku, *old(sudoku));
        }
        false
    }
}

/// Top level function to solve a sudoku board. Returns the completed grid,
/// or `InvalidPuzzle` when two givens collide, or `Unsolvable` when the
/// exhaustive search finds no completion.
pub fn solve(board: Grid) -> (result: Result<Grid, SolverError>)
    requires
        cells_valid(board),
    ensures
        match result {
            Ok(g) => no_conflicts(board) && is_solution(g, board),
            Err(SolverError::InvalidPuzzle) => !no_conflicts(board),
            Err(SolverError::Unsolvable) => no_conflicts(board) && !solvable(board),
        },
        (result is Ok) <==> (no_conflicts(board) && solvable(board)),
{
    let mut sudoku = match Sudoku::new(board) {
        Ok(s) => s,
        Err(e) => {
            return Err(e);
        },
    };

    let solved = backtrack(&mut sudoku, &Point { row: 0, col: 0 });

    if !solved {
        return Err(SolverError::Unsolvable);
    }

    Ok(sudoku.grid)
}

/// After the filled cell `(r, c)`, the filled prefix reaches one position
/// further.
proof fn lemma_prefix_filled_step(g: Grid, r: int, c: int)
    requires
        in_grid(r, c),
        prefix_filled(g, cell_pos(r, c)),
        g[r][c] != 0,
    ensures
        prefix_filled(g, cell_pos(r, c) + 1),
{
    assert forall|r2: int, c2: int|
        in_grid(r2, c2) && cell_pos(r2, c2) < cell_pos(r, c) + 1 implies (#[trigger] g[r2][c2])
        != 0 by {
        if cell_pos(r2, c2) == cell_pos(r, c) {
            assert(r2 == r && c2 == c);
        }
    }
}

/// A grid whose cells are all valid, filled up to the last position, and
/// filled at the last cell `(8, 8)` is complete; being conflict-free, it
/// solves itself.
proof fn lemma_last_cell_full(g: Grid)
    requires
        cells_valid(g),
        no_conflicts(g),
        prefix_filled(g, 80),
        g[8][8] != 0,
    ensures
        full(g),
        is_solution(g, g),
{
    assert forall|r2: int, c2: int| in_grid(r2, c2) implies 1 <= (#[trigger] g[r2][c2]) <= 9 by {
        if cell_pos(r2, c2) == 80 {
            assert(r2 == 8 && c2 == 8);
        } else {
            assert(cell_pos(r2, c2) < 80);
        }
    }
}

/// A cell coordinate of the fixed row-major traversal order.
#[derive(Debug, Clone, Copy)]
pub struct Point {
    pub row: usize,
    pub col: usize,
}

impl Point {
    /// The coordinate lies on the board.
    pub open spec fn wf(&self) -> bool {
        self.row < 9 && self.col < 9
    }

    /// Row-major position of this coordinate.
    pub open spec fn idx(&self) -> int {
        cell_pos(self.row as int, self.col as int)
    }

    pub fn new(row: usize, col: usize) -> (p: Point)
        requires
            row < 9,
            col < 9,
        ensures
            p.row == row,
            p.col == col,
            p.wf(),
    {
        Point { row, col }
    }

    /// The following coordinate in row-major order, or `None` past `(8, 8)`.
    pub fn next(&self) -> (n: Option<Point>)
        requires
            self.wf(),
        ensures
            match n {
                Some(p) => p.wf() && p.idx() == self.idx() + 1,
                None => self.row == 8 && self.col == 8,
            },
    {
        if self.row == GRID_SIZE - 1 && self.col == GRID_SIZE - 1 {
            return None;
        }
        if self.col == GRID_SIZE - 1 {
            Some(Point::new(self.row + 1, 0))
        } else {
            Some(Point::new(self.row, self.col + 1))
        }
    }
}

} // verus!
