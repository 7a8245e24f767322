use sudoku::solve;
use sudoku::SolverError;

/// Checks that `g` is a complete valid Sudoku solution of the puzzle
/// `base`: every given kept, every cell a digit, and every row, column,
/// and box holding each digit exactly once.
fn assert_valid_solution(base: [[u8; 9]; 9], g: [[u8; 9]; 9]) {
    for r in 0..9 {
        for c in 0..9 {
            assert!(1 <= g[r][c] && g[r][c] <= 9);
            if base[r][c] != 0 {
                assert_eq!(g[r][c], base[r][c]);
            }
        }
    }
    for d in 1..=9u8 {
        for r in 0..9 {
            assert_eq!((0..9).filter(|&c| g[r][c] == d).count(), 1);
        }
        for c in 0..9 {
            assert_eq!((0..9).filter(|&r| g[r][c] == d).count(), 1);
        }
        for b in 0..9 {
            let (br, bc) = ((b / 3) * 3, (b % 3) * 3);
            let mut count = 0;
            for r in br..br + 3 {
                for c in bc..bc + 3 {
                    if g[r][c] == d {
                        count += 1;
                    }
                }
            }
            assert_eq!(count, 1);
        }
    }
}

#[test]
fn test_simple_board() {
    assert_eq!(
        solve([
            [5, 3, 0, 0, 7, 0, 0, 0, 0],
            [6, 0, 0, 1, 9, 5, 0, 0, 0],
            [0, 9, 8, 0, 0, 0, 0, 6, 0],
            [8, 0, 0, 0, 6, 0, 0, 0, 3],
            [4, 0, 0, 8, 0, 3, 0, 0, 1],
            [7, 0, 0, 0, 2, 0, 0, 0, 6],
            [0, 6, 0, 0, 0, 0, 2, 8, 0],
            [0, 0, 0, 4, 1, 9, 0, 0, 5],
            [0, 0, 0, 0, 8, 0, 0, 7, 9],
        ]),
        Ok([
            [5, 3, 4, 6, 7, 8, 9, 1, 2],
            [6, 7, 2, 1, 9, 5, 3, 4, 8],
            [1, 9, 8, 3, 4, 2, 5, 6, 7],
            [8, 5, 9, 7, 6, 1, 4, 2, 3],
            [4, 2, 6, 8, 5, 3, 7, 9, 1],
            [7, 1, 3, 9, 2, 4, 8, 5, 6],
            [9, 6, 1, 5, 3, 7, 2, 8, 4],
            [2, 8, 7, 4, 1, 9, 6, 3, 5],
            [3, 4, 5, 2, 8, 6, 1, 7, 9],
        ])
    );
}

#[test]
fn test_hard_board() {
    assert_eq!(
        solve([
            [0, 0, 2, 0, 0, 0, 5, 0, 0],
            [0, 1, 0, 7, 0, 5, 0, 2, 0],
            [4, 0, 0, 0, 9, 0, 0, 0, 7],
            [0, 4, 9, 0, 0, 0, 7, 3, 0],
            [8, 0, 1, 0, 3, 0, 4, 0, 9],
            [0, 3, 6, 0, 0, 0, 2, 1, 0],
            [2, 0, 0, 0, 8, 0, 0, 0, 4],
            [0, 8, 0, 9, 0, 2, 0, 6, 0],
            [0, 0, 7, 0, 0, 0, 8, 0, 0],
        ]),
        Ok([
            [9, 7, 2, 8, 6, 3, 5, 4, 1],
            [6, 1, 8, 7, 4, 5, 9, 2, 3],
            [4, 5, 3, 2, 9, 1, 6, 8, 7],
            [5, 4, 9, 1, 2, 8, 7, 3, 6],
            [8, 2, 1, 6, 3, 7, 4, 5, 9],
            [7, 3, 6, 4, 5, 9, 2, 1, 8],
            [2, 9, 5, 3, 8, 6, 1, 7, 4],
            [1, 8, 4, 9, 7, 2, 3, 6, 5],
            [3, 6, 7, 5, 1, 4, 8, 9, 2],
        ])
    );
}

#[test]
fn test_solved_output_is_valid() {
    let base = [
        [5, 3, 0, 0, 7, 0, 0, 0, 0],
        [6, 0, 0, 1, 9, 5, 0, 0, 0],
        [0, 9, 8, 0, 0, 0, 0, 6, 0],
        [8, 0, 0, 0, 6, 0, 0, 0, 3],
        [4, 0, 0, 8, 0, 3, 0, 0, 1],
        [7, 0, 0, 0, 2, 0, 0, 0, 6],
        [0, 6, 0, 0, 0, 0, 2, 8, 0],
        [0, 0, 0, 4, 1, 9, 0, 0, 5],
        [0, 0, 0, 0, 8, 0, 0, 7, 9],
    ];
    let solved = solve(base).unwrap();
    assert_valid_solution(base, solved);
}

#[test]
fn test_empty_grid_solvable() {
    let base = [[0u8; 9]; 9];
    let solved = solve(base).unwrap();
    assert_valid_solution(base, solved);
}

#[test]
fn test_full_grid_returned_unchanged() {
    let full = [
        [5, 3, 4, 6, 7, 8, 9, 1, 2],
        [6, 7, 2, 1, 9, 5, 3, 4, 8],
        [1, 9, 8, 3, 4, 2, 5, 6, 7],
        [8, 5, 9, 7, 6, 1, 4, 2, 3],
        [4, 2, 6, 8, 5, 3, 7, 9, 1],
        [7, 1, 3, 9, 2, 4, 8, 5, 6],
        [9, 6, 1, 5, 3, 7, 2, 8, 4],
        [2, 8, 7, 4, 1, 9, 6, 3, 5],
        [3, 4, 5, 2, 8, 6, 1, 7, 9],
    ];
    assert_eq!(solve(full), Ok(full));
}

#[test]
fn test_invalid_duplicate_in_row() {
    let mut base = [[0u8; 9]; 9];
    base[0][0] = 5;
    base[0][8] = 5;
    assert_eq!(solve(base), Err(SolverError::InvalidPuzzle));
}

#[test]
fn test_invalid_duplicate_in_column() {
    let mut base = [[0u8; 9]; 9];
    base[0][4] = 7;
    base[8][4] = 7;
    assert_eq!(solve(base), Err(SolverError::InvalidPuzzle));
}

#[test]
fn test_invalid_duplicate_in_box() {
    let mut base = [[0u8; 9]; 9];
    base[0][0] = 3;
    base[2][2] = 3;
    assert_eq!(solve(base), Err(SolverError::InvalidPuzzle));
}

#[test]
fn test_unsolvable_board() {
    // Row 0 forces cell (0, 8) to hold 9, but column 8 already holds one.
    let mut base = [[0u8; 9]; 9];
    base[0] = [1, 2, 3, 4, 5, 6, 7, 8, 0];
    base[1][8] = 9;
    assert_eq!(solve(base), Err(SolverError::Unsolvable));
}
