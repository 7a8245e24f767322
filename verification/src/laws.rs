//! Global properties of solved grids: every row, column and box of a
//! solution holds each digit exactly once, and a grid that is already
//! complete and conflict-free is its own unique solution.

use vstd::prelude::*;

use vstd::set_lib::{lemma_int_range, lemma_subset_equality, set_int_range};

use crate::grid::{
    box_of, digit_in_box, digit_in_col, digit_in_row, extends, full, in_grid, is_solution,
    lemma_grid_eq, no_conflicts, solvable, Grid,
};

verus! {

/// Nine pairwise-distinct values, each between 1 and 9, cover every digit
/// between 1 and 9.
proof fn lemma_digits_pigeonhole(s: Seq<int>)
    requires
        s.len() == 9,
        forall|i: int| 0 <= i < 9 ==> 1 <= (#[trigger] s[i]) <= 9,
        forall|i: int, j: int| 0 <= i < 9 && 0 <= j < 9 && i != j ==> s[i] != s[j],
    ensures
        forall|d: int| 1 <= d <= 9 ==> #[trigger] s.contains(d),
{
    broadcast use vstd::seq_lib::seq_to_set_is_finite;

    assert(s.no_duplicates());
    s.unique_seq_to_set();
    lemma_int_range(1, 10);
    assert forall|x: int| s.to_set().contains(x) implies set_int_range(1, 10).contains(x) by {
        let i = choose|i: int| 0 <= i < s.len() && s[i] == x;
        assert(1 <= s[i] <= 9);
    }
    assert(s.to_set().subset_of(set_int_range(1, 10)));
    lemma_subset_equality(s.to_set(), set_int_range(1, 10));
    assert forall|d: int| 1 <= d <= 9 implies s.contains(d) by {
        assert(set_int_range(1, 10).contains(d));
        assert(s.to_set().contains(d));
    }
}

/// In a complete, conflict-free grid, every row, every column, and every
/// box contains each of the digits 1 through 9 exactly once: at least
/// once by the first three conclusions, at most once by the last three.
pub proof fn lemma_units_complete(g: Grid)
    requires
        full(g),
        no_conflicts(g),
    ensures
        forall|r: int, d: u8| 0 <= r < 9 && 1 <= d <= 9 ==> #[trigger] digit_in_row(g, r, d),
        forall|c: int, d: u8| 0 <= c < 9 && 1 <= d <= 9 ==> #[trigger] digit_in_col(g, c, d),
        forall|b: int, d: u8| 0 <= b < 9 && 1 <= d <= 9 ==> #[trigger] digit_in_box(g, b, d),
        forall|r: int, c1: int, c2: int|
            in_grid(r, c1) && in_grid(r, c2) && c1 != c2 ==> (#[trigger] g[r][c1]) != (
            #[trigger] g[r][c2]),
        forall|c: int, r1: int, r2: int|
            in_grid(r1, c) && in_grid(r2, c) && r1 != r2 ==> (#[trigger] g[r1][c]) != (
            #[trigger] g[r2][c]),
        forall|r1: int, c1: int, r2: int, c2: int|
            #![trigger g[r1][c1], g[r2][c2]]
            in_grid(r1, c1) && in_grid(r2, c2) && !(r1 == r2 && c1 == c2) && box_of(r1, c1)
                == box_of(r2, c2) ==> g[r1][c1] != g[r2][c2],
{
    assert forall|r: int, d: u8| 0 <= r < 9 && 1 <= d <= 9 implies #[trigger] digit_in_row(
        g,
        r,
        d,
    ) by {
        let s = Seq::new(9, |cc: int| g[r][cc] as int);
        assert forall|i: int, j: int| 0 <= i < 9 && 0 <= j < 9 && i != j implies s[i] != s[j] by {
            assert(g[r][i] != g[r][j]);
        }
        lemma_digits_pigeonhole(s);
        assert(s.contains(d as int));
        let i = choose|i: int| 0 <= i < s.len() && s[i] == d as int;
        assert(g[r][i] == d);
    }
    assert forall|c: int, d: u8| 0 <= c < 9 && 1 <= d <= 9 implies #[trigger] digit_in_col(
        g,
        c,
        d,
    ) by {
        let s = Seq::new(9, |rr: int| g[rr][c] as int);
        assert forall|i: int, j: int| 0 <= i < 9 && 0 <= j < 9 && i != j implies s[i] != s[j] by {
            assert(g[i][c] != g[j][c]);
        }
        lemma_digits_pigeonhole(s);
        assert(s.contains(d as int));
        let i = choose|i: int| 0 <= i < s.len() && s[i] == d as int;
        assert(g[i][c] == d);
    }
    assert forall|b: int, d: u8| 0 <= b < 9 && 1 <= d <= 9 implies #[trigger] digit_in_box(
        g,
        b,
        d,
    ) by {
        let br = 3 * (b / 3);
        let bc = 3 * (b % 3);
        let s = Seq::new(9, |i: int| g[br + i / 3][bc + i % 3] as int);
        assert forall|i: int| 0 <= i < 9 implies 1 <= (#[trigger] s[i]) <= 9 by {
            assert(in_grid(br + i / 3, bc + i % 3));
        }
        assert forall|i: int, j: int| 0 <= i < 9 && 0 <= j < 9 && i != j implies s[i] != s[j] by {
            let (r1, c1) = (br + i / 3, bc + i % 3);
            let (r2, c2) = (br + j / 3, bc + j % 3);
            assert(!(r1 == r2 && c1 == c2));
            assert(box_of(r1, c1) == b && box_of(r2, c2) == b);
            assert(g[r1][c1] != g[r2][c2]);
        }
        lemma_digits_pigeonhole(s);
        assert(s.contains(d as int));
        let i = choose|i: int| 0 <= i < s.len() && s[i] == d as int;
        assert(g[br + i / 3][bc + i % 3] == d);
        assert(box_of(br + i / 3, bc + i % 3) == b);
    }
}

/// A grid that is already fully and validly filled is its own solution,
/// and its only one: solving it can return nothing but the grid itself.
pub proof fn lemma_full_grid_unique_solution(base: Grid)
    requires
        full(base),
        no_conflicts(base),
    ensures
        is_solution(base, base),
        solvable(base),
        forall|g: Grid| #![trigger is_solution(g, base)] is_solution(g, base) ==> g == base,
{
    assert(extends(base, base));
    assert forall|g: Grid| is_solution(g, base) implies g == base by {
        assert forall|r: int, c: int| in_grid(r, c) implies (#[trigger] g[r][c]) == base[r][c] by {
            assert(base[r][c] != 0);
        }
        lemma_grid_eq(g, base);
    }
}

} // verus!
