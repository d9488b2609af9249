//! The mathematical model of the engine: what a grid is, when it is
//! conflict-free, what counts as a solution, and what the candidate masks
//! must say about the grid.

use vstd::prelude::*;

verus! {

/// A 9x9 grid of values in [0, 9]; 0 marks an empty cell. `grid[y][x]` is the
/// cell in row `y`, column `x`.
pub type Grid = [[u8; 9]; 9];

/// A 9x9 matrix of 9-bit candidate masks, one per cell. Bit `i` set means
/// value `i + 1` is still legal for that cell.
pub type Masks = [[u16; 9]; 9];

/// The full 9-bit candidate set: every value 1..=9 legal.
pub const ALL_CANDIDATES: u16 = 0x1FF;

/// Coordinates of a cell on the board.
pub open spec fn in_range(x: int, y: int) -> bool {
    0 <= x < 9 && 0 <= y < 9
}

/// The value held at column `x`, row `y`.
pub open spec fn cell(g: Grid, x: int, y: int) -> u8 {
    g[y][x]
}

/// The mask held at column `x`, row `y`.
pub open spec fn mask(bf: Masks, x: int, y: int) -> u16 {
    bf[y][x]
}

/// Whether two cells share a row, a column, or a 3x3 box.
pub open spec fn same_unit(x1: int, y1: int, x2: int, y2: int) -> bool {
    y1 == y2 || x1 == x2 || (x1 / 3 == x2 / 3 && y1 / 3 == y2 / 3)
}

/// Every cell holds a value in [0, 9].
pub open spec fn grid_wf(g: Grid) -> bool {
    forall|x: int, y: int| in_range(x, y) ==> #[trigger] cell(g, x, y) <= 9
}

/// No two distinct cells of one unit hold the same non-zero value.
pub open spec fn no_conflict(g: Grid) -> bool {
    forall|x1: int, y1: int, x2: int, y2: int|
        #![trigger cell(g, x1, y1), cell(g, x2, y2)]
        in_range(x1, y1) && in_range(x2, y2) && !(x1 == x2 && y1 == y2)
            && same_unit(x1, y1, x2, y2) && cell(g, x1, y1) != 0
            ==> cell(g, x1, y1) != cell(g, x2, y2)
}

/// No other cell of the unit of (x, y) holds value `v`, so placing `v`
/// at (x, y) keeps the grid conflict-free.
pub open spec fn value_fits(g: Grid, x: int, y: int, v: u8) -> bool {
    forall|x2: int, y2: int|
        in_range(x2, y2) && same_unit(x, y, x2, y2) && !(x2 == x && y2 == y)
            ==> #[trigger] cell(g, x2, y2) != v
}

/// Every cell is filled.
pub open spec fn full(g: Grid) -> bool {
    forall|x: int, y: int| in_range(x, y) ==> #[trigger] cell(g, x, y) != 0
}

/// `g2` keeps every given of `g1`: wherever `g1` is filled, `g2` holds the
/// same value.
pub open spec fn extends(g2: Grid, g1: Grid) -> bool {
    forall|x: int, y: int|
        #![trigger cell(g2, x, y)]
        in_range(x, y) && cell(g1, x, y) != 0 ==> cell(g2, x, y) == cell(g1, x, y)
}

/// `s` is a solution of the puzzle `g`: fully filled, conflict-free, and
/// keeping every given of `g`.
pub open spec fn solution_of(s: Grid, g: Grid) -> bool {
    grid_wf(s) && full(s) && no_conflict(s) && extends(s, g)
}

/// Some solution of `g` exists.
pub open spec fn solvable(g: Grid) -> bool {
    exists|s: Grid| solution_of(s, g)
}

/// Bit `i` of mask `m`.
pub open spec fn bit_set(m: u16, i: u16) -> bool {
    (m >> i) & 1 == 1
}

/// The single-bit mask that stands for value `v` (bit `v - 1`).
pub open spec fn value_bit(v: u8) -> u16 {
    1u16 << ((v - 1) as u16)
}

/// Whether (x, y) comes strictly before (x2, y2) in row-major order.
pub open spec fn row_major_before(x: int, y: int, x2: int, y2: int) -> bool {
    y < y2 || (y == y2 && x < x2)
}

/// The mask at (x, y) agrees with the grid: for an empty cell, bit `i` is set
/// exactly when value `i + 1` occurs nowhere else in the cell's row, column,
/// or box; for a filled cell no bit is set.
pub open spec fn mask_matches(g: Grid, bf: Masks, x: int, y: int) -> bool {
    &&& mask(bf, x, y) <= ALL_CANDIDATES
    &&& forall|i: u16|
        i < 9 ==> (#[trigger] bit_set(mask(bf, x, y), i) <==> (cell(g, x, y) == 0
            && value_fits(g, x, y, (i + 1) as u8)))
}

/// The candidate matrix is exactly the one the grid determines.
pub open spec fn masks_ok(g: Grid, bf: Masks) -> bool {
    forall|x: int, y: int| in_range(x, y) ==> #[trigger] mask_matches(g, bf, x, y)
}

/// `g2` is `g1` with value `v` written at (x, y) and nothing else changed.
pub open spec fn is_update(g2: Grid, g1: Grid, x: int, y: int, v: u8) -> bool {
    &&& cell(g2, x, y) == v
    &&& forall|x2: int, y2: int|
        in_range(x2, y2) && !(x2 == x && y2 == y)
            ==> #[trigger] cell(g2, x2, y2) == cell(g1, x2, y2)
}

/// How many of the cells with row-major index `i`, `i + 1`, ..., 80 are empty.
pub open spec fn count_empty_from(g: Grid, i: int) -> nat
    decreases 81 - i,
{
    if i < 0 || i >= 81 {
        0
    } else {
        (if cell(g, i % 9, i / 9) == 0 {
            1nat
        } else {
            0nat
        }) + count_empty_from(g, i + 1)
    }
}

/// How many cells of the grid are empty.
pub open spec fn count_empty(g: Grid) -> nat {
    count_empty_from(g, 0)
}

/// Writing a value into an empty cell lowers the number of empty cells among
/// the indices from `i` on by one when the cell lies at or after `i`, and
/// leaves it unchanged otherwise.
pub proof fn lemma_count_empty_update(g: Grid, g2: Grid, x: int, y: int, i: int)
    requires
        in_range(x, y),
        cell(g, x, y) == 0,
        cell(g2, x, y) != 0,
        is_update(g2, g, x, y, cell(g2, x, y)),
        0 <= i <= 81,
    ensures
        count_empty_from(g2, i) + (if y * 9 + x >= i {
            1int
        } else {
            0int
        }) == count_empty_from(g, i),
    decreases 81 - i,
{
    if i < 81 {
        lemma_count_empty_update(g, g2, x, y, i + 1);
        vstd::arithmetic::div_mod::lemma_fundamental_div_mod(i, 9);
        if i == y * 9 + x {
            vstd::arithmetic::div_mod::lemma_fundamental_div_mod_converse(i, 9, y, x);
            assert(i / 9 == y && i % 9 == x);
        } else {
            assert(!(i % 9 == x && i / 9 == y));
            assert(cell(g2, i % 9, i / 9) == cell(g, i % 9, i / 9));
        }
    }
}

/// A solution assigns to any cell a value in 1..=9 that no other cell of the
/// cell's row, column, or box already held in the puzzle.
pub proof fn lemma_solution_value_fits(s: Grid, g: Grid, x: int, y: int)
    requires
        solution_of(s, g),
        in_range(x, y),
    ensures
        1 <= cell(s, x, y) <= 9,
        value_fits(g, x, y, cell(s, x, y)),
{
    assert(cell(s, x, y) != 0);
    assert(cell(s, x, y) <= 9);
    assert forall|a: int, b: int|
        in_range(a, b) && same_unit(x, y, a, b) && !(a == x && b == y) implies #[trigger] cell(
        g,
        a,
        b,
    ) != cell(s, x, y) by {
        if cell(g, a, b) != 0 {
            assert(cell(s, a, b) == cell(g, a, b));
            assert(cell(s, a, b) != cell(s, x, y));
        }
    }
}

/// A solution of the puzzle that already holds `v` at (x, y) is a solution
/// of the puzzle with `v` placed there.
pub proof fn lemma_place_keeps_solution(s: Grid, g: Grid, g2: Grid, x: int, y: int, v: u8)
    requires
        solution_of(s, g),
        in_range(x, y),
        is_update(g2, g, x, y, v),
        cell(s, x, y) == v,
        v != 0,
    ensures
        solution_of(s, g2),
{
}

/// A solution of the grid with `v` placed at (x, y) is a solution of the
/// grid without that placement, and it holds `v` at (x, y).
pub proof fn lemma_unplace_keeps_solution(s: Grid, g: Grid, g2: Grid, x: int, y: int, v: u8)
    requires
        solution_of(s, g2),
        in_range(x, y),
        is_update(g2, g, x, y, v),
        cell(g, x, y) == 0,
        v != 0,
    ensures
        solution_of(s, g),
        cell(s, x, y) == v,
{
    assert forall|a: int, b: int|
        in_range(a, b) && cell(g, a, b) != 0 implies #[trigger] cell(s, a, b) == cell(
        g,
        a,
        b,
    ) by {
        assert(cell(g2, a, b) == cell(g, a, b));
    }
}

/// Placing a fitting value in an empty cell keeps the grid well-formed and
/// conflict-free.
pub proof fn lemma_place_wf(g: Grid, g2: Grid, x: int, y: int, v: u8)
    requires
        grid_wf(g),
        no_conflict(g),
        in_range(x, y),
        cell(g, x, y) == 0,
        1 <= v <= 9,
        value_fits(g, x, y, v),
        is_update(g2, g, x, y, v),
    ensures
        grid_wf(g2),
        no_conflict(g2),
{
    assert forall|x1: int, y1: int, x2: int, y2: int|
        in_range(x1, y1) && in_range(x2, y2) && !(x1 == x2 && y1 == y2) && same_unit(
            x1,
            y1,
            x2,
            y2,
        ) && cell(g2, x1, y1) != 0 implies #[trigger] cell(g2, x1, y1) != #[trigger] cell(
        g2,
        x2,
        y2,
    ) by {
        if x1 == x && y1 == y {
            assert(cell(g2, x2, y2) == cell(g, x2, y2));
            assert(cell(g, x2, y2) != v);
        } else if x2 == x && y2 == y {
            assert(cell(g2, x1, y1) == cell(g, x1, y1));
            assert(cell(g, x1, y1) != v);
        } else {
            assert(cell(g2, x1, y1) == cell(g, x1, y1));
            assert(cell(g2, x2, y2) == cell(g, x2, y2));
        }
    }
}

/// Two grids equal in every cell are the same grid.
pub proof fn lemma_grid_ext(g1: Grid, g2: Grid)
    requires
        forall|x: int, y: int| in_range(x, y) ==> #[trigger] cell(g1, x, y) == cell(g2, x, y),
    ensures
        g1 == g2,
{
    assert forall|yy: int| 0 <= yy < 9 implies g1[yy] == g2[yy] by {
        assert forall|xx: int| 0 <= xx < 9 implies g1[yy][xx] == g2[yy][xx] by {
            assert(cell(g1, xx, yy) == cell(g2, xx, yy));
        }
        assert(g1[yy] =~= g2[yy]);
    }
    assert(g1 =~= g2);
}

/// Two mask matrices equal in every cell are the same matrix.
pub proof fn lemma_masks_ext(bf1: Masks, bf2: Masks)
    requires
        forall|x: int, y: int| in_range(x, y) ==> #[trigger] mask(bf1, x, y) == mask(bf2, x, y),
    ensures
        bf1 == bf2,
{
    assert forall|yy: int| 0 <= yy < 9 implies bf1[yy] == bf2[yy] by {
        assert forall|xx: int| 0 <= xx < 9 implies bf1[yy][xx] == bf2[yy][xx] by {
            assert(mask(bf1, xx, yy) == mask(bf2, xx, yy));
        }
        assert(bf1[yy] =~= bf2[yy]);
    }
    assert(bf1 =~= bf2);
}

/// Nine pairwise distinct values drawn from 1..=9 hit every value of 1..=9.
proof fn lemma_nine_distinct_cover(
    v1: u8,
    v2: u8,
    v3: u8,
    v4: u8,
    v5: u8,
    v6: u8,
    v7: u8,
    v8: u8,
    v9: u8,
    w: u8,
)
    by (bit_vector)
    requires
        1 <= v1 <= 9,
        1 <= v2 <= 9,
        1 <= v3 <= 9,
        1 <= v4 <= 9,
        1 <= v5 <= 9,
        1 <= v6 <= 9,
        1 <= v7 <= 9,
        1 <= v8 <= 9,
        1 <= v9 <= 9,
        v1 != v2,
        v1 != v3,
        v1 != v4,
        v1 != v5,
        v1 != v6,
        v1 != v7,
        v1 != v8,
        v1 != v9,
        v2 != v3,
        v2 != v4,
        v2 != v5,
        v2 != v6,
        v2 != v7,
        v2 != v8,
        v2 != v9,
        v3 != v4,
        v3 != v5,
        v3 != v6,
        v3 != v7,
        v3 != v8,
        v3 != v9,
        v4 != v5,
        v4 != v6,
        v4 != v7,
        v4 != v8,
        v4 != v9,
        v5 != v6,
        v5 != v7,
        v5 != v8,
        v5 != v9,
        v6 != v7,
        v6 != v8,
        v6 != v9,
        v7 != v8,
        v7 != v9,
        v8 != v9,
        1 <= w <= 9,
    ensures
        v1 == w || v2 == w || v3 == w || v4 == w || v5 == w || v6 == w || v7 == w || v8 == w || v9
            == w,
{
}

/// Value `w` occurs somewhere in row `y`.
pub open spec fn row_contains(g: Grid, y: int, w: u8) -> bool {
    exists|x: int| in_range(x, y) && #[trigger] cell(g, x, y) == w
}

/// Value `w` occurs somewhere in column `x`.
pub open spec fn col_contains(g: Grid, x: int, w: u8) -> bool {
    exists|y: int| in_range(x, y) && #[trigger] cell(g, x, y) == w
}

/// Value `w` occurs somewhere in the box whose top-left cell is
/// (3 * bx, 3 * by).
pub open spec fn box_contains(g: Grid, bx: int, by: int, w: u8) -> bool {
    exists|x: int, y: int|
        3 * bx <= x < 3 * bx + 3 && 3 * by <= y < 3 * by + 3 && #[trigger] cell(g, x, y) == w
}

/// In a fully filled, conflict-free grid, every row, every column, and every
/// box contains each of the values 1..=9; together with conflict-freedom,
/// each appears there exactly once.
pub proof fn lemma_solved_grid_complete(g: Grid)
    requires
        grid_wf(g),
        full(g),
        no_conflict(g),
    ensures
        forall|y: int, w: u8| 0 <= y < 9 && 1 <= w <= 9 ==> #[trigger] row_contains(g, y, w),
        forall|x: int, w: u8| 0 <= x < 9 && 1 <= w <= 9 ==> #[trigger] col_contains(g, x, w),
        forall|bx: int, by: int, w: u8|
            0 <= bx < 3 && 0 <= by < 3 && 1 <= w <= 9 ==> #[trigger] box_contains(g, bx, by, w),
        forall|x1: int, y1: int, x2: int, y2: int|
            #![trigger cell(g, x1, y1), cell(g, x2, y2)]
            in_range(x1, y1) && in_range(x2, y2) && !(x1 == x2 && y1 == y2) && same_unit(
                x1,
                y1,
                x2,
                y2,
            ) ==> cell(g, x1, y1) != cell(g, x2, y2),
{
    assert forall|y: int, w: u8| 0 <= y < 9 && 1 <= w <= 9 implies #[trigger] row_contains(
        g,
        y,
        w,
    ) by {
        lemma_nine_distinct_cover(
            cell(g, 0, y),
            cell(g, 1, y),
            cell(g, 2, y),
            cell(g, 3, y),
            cell(g, 4, y),
            cell(g, 5, y),
            cell(g, 6, y),
            cell(g, 7, y),
            cell(g, 8, y),
            w,
        );
    }
    assert forall|x: int, w: u8| 0 <= x < 9 && 1 <= w <= 9 implies #[trigger] col_contains(
        g,
        x,
        w,
    ) by {
        lemma_nine_distinct_cover(
            cell(g, x, 0),
            cell(g, x, 1),
            cell(g, x, 2),
            cell(g, x, 3),
            cell(g, x, 4),
            cell(g, x, 5),
            cell(g, x, 6),
            cell(g, x, 7),
            cell(g, x, 8),
            w,
        );
    }
    assert forall|bx: int, by: int, w: u8|
        0 <= bx < 3 && 0 <= by < 3 && 1 <= w <= 9 implies #[trigger] box_contains(
        g,
        bx,
        by,
        w,
    ) by {
        assert forall|x1: int, y1: int, x2: int, y2: int|
            3 * bx <= x1 < 3 * bx + 3 && 3 * by <= y1 < 3 * by + 3 && 3 * bx <= x2 < 3 * bx + 3
                && 3 * by <= y2 < 3 * by + 3 implies #[trigger] same_unit(x1, y1, x2, y2) by {
            assert(x1 / 3 == bx && x2 / 3 == bx && y1 / 3 == by && y2 / 3 == by) by (nonlinear_arith)
                requires
                    3 * bx <= x1 < 3 * bx + 3,
                    3 * by <= y1 < 3 * by + 3,
                    3 * bx <= x2 < 3 * bx + 3,
                    3 * by <= y2 < 3 * by + 3,
            ;
        }
        lemma_nine_distinct_cover(
            cell(g, 3 * bx, 3 * by),
            cell(g, 3 * bx + 1, 3 * by),
            cell(g, 3 * bx + 2, 3 * by),
            cell(g, 3 * bx, 3 * by + 1),
            cell(g, 3 * bx + 1, 3 * by + 1),
            cell(g, 3 * bx + 2, 3 * by + 1),
            cell(g, 3 * bx, 3 * by + 2),
            cell(g, 3 * bx + 1, 3 * by + 2),
            cell(g, 3 * bx + 2, 3 * by + 2),
            w,
        );
    }
}

/// The mask at (x, y) holds exactly the one candidate `v`: a naked single.
pub open spec fn naked_single(bf: Masks, x: int, y: int, v: u8) -> bool {
    1 <= v <= 9 && mask(bf, x, y) == value_bit(v)
}

/// Value `v` appears in the candidate mask of exactly one cell of row `y`,
/// namely at (x, y): a hidden single of that row.
pub open spec fn hidden_single(bf: Masks, x: int, y: int, v: u8) -> bool {
    &&& 1 <= v <= 9
    &&& bit_set(mask(bf, x, y), (v - 1) as u16)
    &&& forall|a: int|
        0 <= a < 9 && a != x ==> !bit_set(#[trigger] mask(bf, a, y), (v - 1) as u16)
}

/// The cell (x, y) is forced to `v` by one of the two propagation rules.
pub open spec fn forced_single(bf: Masks, x: int, y: int, v: u8) -> bool {
    naked_single(bf, x, y, v) || hidden_single(bf, x, y, v)
}

/// The value at row-major index `i`: index 0 is the top-left cell, index 80
/// the bottom-right.
pub open spec fn cell_at(g: Grid, i: int) -> u8 {
    cell(g, i % 9, i / 9)
}

/// Row-major lexicographic order on grids: either the grids are equal, or at
/// the first cell where they differ the left one holds the smaller value.
pub open spec fn grid_le(a: Grid, b: Grid) -> bool {
    a == b || exists|i: int|
        0 <= i < 81 && #[trigger] cell_at(a, i) < cell_at(b, i) && (forall|j: int|
            0 <= j < i ==> cell_at(a, j) == cell_at(b, j))
}

/// The row-major lexicographic order has at most one minimum: two grids each
/// below the other are equal.
pub proof fn lemma_grid_le_antisymmetric(a: Grid, b: Grid)
    requires
        grid_le(a, b),
        grid_le(b, a),
    ensures
        a == b,
{
    if a != b {
        let i1 = choose|i: int|
            0 <= i < 81 && #[trigger] cell_at(a, i) < cell_at(b, i) && (forall|j: int|
                0 <= j < i ==> cell_at(a, j) == cell_at(b, j));
        let i2 = choose|i: int|
            0 <= i < 81 && #[trigger] cell_at(b, i) < cell_at(a, i) && (forall|j: int|
                0 <= j < i ==> cell_at(b, j) == cell_at(a, j));
        if i1 < i2 {
            assert(cell_at(b, i1) == cell_at(a, i1));
        } else if i2 < i1 {
            assert(cell_at(a, i2) == cell_at(b, i2));
        }
    }
}

/// `s` is the least solution of `g` in row-major lexicographic order.
pub open spec fn least_solution(s: Grid, g: Grid) -> bool {
    solution_of(s, g) && forall|s2: Grid| #[trigger] solution_of(s2, g) ==> grid_le(s, s2)
}

} // verus!

