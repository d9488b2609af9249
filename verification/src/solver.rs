//! The backtracking search engine: picks the first empty cell in row-major
//! order, tries each legal value in ascending order, and undoes a trial that
//! leads nowhere.

use crate::model::{
    bit_set, cell, cell_at, count_empty, extends, forced_single, full, grid_le, grid_wf,
    hidden_single, in_range, is_update, least_solution, lemma_count_empty_update, lemma_grid_ext,
    lemma_grid_le_antisymmetric, lemma_place_keeps_solution, lemma_place_wf,
    lemma_solution_value_fits, lemma_solved_grid_complete, lemma_unplace_keeps_solution, mask,
    mask_matches, masks_ok, naked_single, no_conflict, row_contains, row_major_before, same_unit,
    solution_of,
    solvable, value_bit, value_fits, Grid, Masks,
};
use crate::tracker::{
    compute_cell_mask, is_valid_cell, lemma_masks_after_place, lemma_masks_after_unplace,
    lemma_masks_determined, lemma_single_bit, lemma_single_bit_value, lemma_value_bit,
    mask_matches_value, restore_bitfield_matrix, update_bitfield_matrix,
};
use vstd::prelude::*;

verus! {

/// Returns the first empty cell in row-major order (lowest row, then lowest
/// column), or `None` when the grid is full.
pub fn find_next_empty_cell(board: &Grid) -> (r: Option<(usize, usize)>)
    ensures
        match r {
            Some(p) => {
                &&& p.0 < 9
                &&& p.1 < 9
                &&& cell(*board, p.0 as int, p.1 as int) == 0
                &&& forall|x2: int, y2: int|
                    in_range(x2, y2) && (y2 < p.1 || (y2 == p.1 && x2 < p.0))
                        ==> #[trigger] cell(*board, x2, y2) != 0
            },
            None => full(*board),
        },
{
    let mut y: usize = 0;
    while y < 9
        invariant
            y <= 9,
            forall|x2: int, y2: int|
                in_range(x2, y2) && y2 < y ==> #[trigger] cell(*board, x2, y2) != 0,
        decreases 9 - y,
    {
        let mut x: usize = 0;
        while x < 9
            invariant
                y < 9,
                x <= 9,
                forall|x2: int, y2: int|
                    in_range(x2, y2) && y2 < y ==> #[trigger] cell(*board, x2, y2) != 0,
                forall|x2: int| 0 <= x2 < x ==> #[trigger] cell(*board, x2, y as int) != 0,
            decreases 9 - x,
        {
            if board[y][x] == 0 {
                return Some((x, y));
            }
            x = x + 1;
        }
        y = y + 1;
    }
    None
}

/// Solves the grid in place by depth-first search over the empty cells in
/// row-major order, trying values in ascending order and pruning with the
/// candidate matrix. Returns `true` exactly when the puzzle has a solution;
/// then the grid holds the least solution in row-major lexicographic order,
/// keeping every given, so the output is determined by the input alone. On
/// failure the grid and the matrix are exactly as they were handed in.
#[verifier::loop_isolation(false)]
pub fn solve_sudoku(board: &mut Grid, bitfield_matrix: &mut Masks) -> (solved: bool)
    requires
        grid_wf(*old(board)),
        no_conflict(*old(board)),
        masks_ok(*old(board), *old(bitfield_matrix)),
    ensures
        solved == solvable(*old(board)),
        solved ==> solution_of(*final(board), *old(board)),
        solved ==> least_solution(*final(board), *old(board)),
        solved ==> masks_ok(*final(board), *final(bitfield_matrix)),
        !solved ==> *final(board) == *old(board),
        !solved ==> *final(bitfield_matrix) == *old(bitfield_matrix),
    decreases count_empty(*board),
{
    let ghost g0 = *board;
    let ghost bf0 = *bitfield_matrix;
    let next = find_next_empty_cell(board);
    match next {
        None => {
            proof {
                assert(solution_of(g0, g0));
                assert forall|s2: Grid| #[trigger] solution_of(s2, g0) implies grid_le(
                    *board,
                    s2,
                ) by {
                    assert forall|a: int, b: int| in_range(a, b) implies #[trigger] cell(s2, a, b)
                        == cell(g0, a, b) by {
                        assert(cell(g0, a, b) != 0);
                    }
                    lemma_grid_ext(s2, g0);
                }
            }
            true
        },
        Some((cell_x, cell_y)) => {
            let mut value: u8 = 1;
            while value <= 9
                invariant
                    grid_wf(g0),
                    no_conflict(g0),
                    cell_x < 9,
                    cell_y < 9,
                    cell(g0, cell_x as int, cell_y as int) == 0,
                    1 <= value <= 10,
                    *board == g0,
                    masks_ok(g0, *bitfield_matrix),
                    forall|s: Grid|
                        solution_of(s, g0) ==> #[trigger] cell(s, cell_x as int, cell_y as int)
                            >= value,
                decreases 10 - value,
            {
                if is_valid_cell(bitfield_matrix, cell_x, cell_y, value) {
                    proof {
                        assert(mask_matches(g0, *bitfield_matrix, cell_x as int, cell_y as int));
                        assert(bit_set(
                            mask(*bitfield_matrix, cell_x as int, cell_y as int),
                            (value - 1) as u16,
                        ));
                        assert((((value - 1) as u16) + 1) as u8 == value);
                        assert(value_fits(g0, cell_x as int, cell_y as int, value));
                    }
                    let ghost bf_pre = *bitfield_matrix;
                    board[cell_y][cell_x] = value;
                    let ghost g1 = *board;
                    proof {
                        assert(cell(g1, cell_x as int, cell_y as int) == value);
                        assert(is_update(g1, g0, cell_x as int, cell_y as int, value));
                        lemma_place_wf(g0, g1, cell_x as int, cell_y as int, value);
                    }
                    update_bitfield_matrix(bitfield_matrix, cell_x, cell_y, value);
                    proof {
                        lemma_masks_after_place(
                            g0,
                            g1,
                            bf_pre,
                            *bitfield_matrix,
                            cell_x as int,
                            cell_y as int,
                            value,
                        );
                        lemma_count_empty_update(g0, g1, cell_x as int, cell_y as int, 0);
                        assert(count_empty(g1) < count_empty(g0));
                    }
                    let solved_rec = solve_sudoku(board, bitfield_matrix);
                    if solved_rec {
                        proof {
                            assert forall|a: int, b: int|
                                in_range(a, b) && cell(g0, a, b) != 0 implies #[trigger] cell(
                                *board,
                                a,
                                b,
                            ) == cell(g0, a, b) by {
                                assert(cell(g1, a, b) == cell(g0, a, b));
                            }
                            assert(solution_of(*board, g0));
                            assert forall|s2: Grid| #[trigger] solution_of(s2, g0) implies grid_le(
                                *board,
                                s2,
                            ) by {
                                lemma_solution_value_fits(s2, g0, cell_x as int, cell_y as int);
                                if cell(s2, cell_x as int, cell_y as int) == value {
                                    lemma_place_keeps_solution(
                                        s2,
                                        g0,
                                        g1,
                                        cell_x as int,
                                        cell_y as int,
                                        value,
                                    );
                                    assert(grid_le(*board, s2));
                                } else {
                                    let i: int = cell_y as int * 9 + cell_x as int;
                                    vstd::arithmetic::div_mod::lemma_fundamental_div_mod_converse(
                                        i,
                                        9,
                                        cell_y as int,
                                        cell_x as int,
                                    );
                                    assert(cell(g1, cell_x as int, cell_y as int) == value);
                                    assert(cell(*board, cell_x as int, cell_y as int) == value);
                                    assert(cell_at(*board, i) == value);
                                    assert(cell_at(s2, i) > value);
                                    assert forall|j: int| 0 <= j < i implies cell_at(*board, j)
                                        == cell_at(s2, j) by {
                                        vstd::arithmetic::div_mod::lemma_fundamental_div_mod(j, 9);
                                        let a = j % 9;
                                        let b = j / 9;
                                        assert(0 <= a < 9 && 0 <= b < 9);
                                        assert(b < cell_y || (b == cell_y && a < cell_x));
                                        assert(cell(g0, a, b) != 0);
                                        assert(cell(g1, a, b) == cell(g0, a, b));
                                        assert(cell(*board, a, b) == cell(g1, a, b));
                                        assert(cell(s2, a, b) == cell(g0, a, b));
                                    }
                                    assert(0 <= i < 81 && cell_at(*board, i) < cell_at(s2, i));
                                    assert(grid_le(*board, s2));
                                }
                            }
                        }
                        return true;
                    }
                    let ghost bf1 = *bitfield_matrix;
                    board[cell_y][cell_x] = 0;
                    proof {
                        assert forall|a: int, b: int| in_range(a, b) implies #[trigger] cell(
                            *board,
                            a,
                            b,
                        ) == cell(g0, a, b) by {
                            if !(a == cell_x && b == cell_y) {
                                assert(cell(*board, a, b) == cell(g1, a, b));
                            }
                        }
                        lemma_grid_ext(*board, g0);
                    }
                    restore_bitfield_matrix(bitfield_matrix, board, cell_x, cell_y, value);
                    proof {
                        lemma_masks_after_unplace(
                            g0,
                            g1,
                            bf1,
                            *bitfield_matrix,
                            cell_x as int,
                            cell_y as int,
                            value,
                        );
                    }
                    let ghost bf2 = *bitfield_matrix;
                    let m = compute_cell_mask(board, cell_x, cell_y);
                    bitfield_matrix[cell_y][cell_x] = m;
                    proof {
                        assert(mask(*bitfield_matrix, cell_x as int, cell_y as int) == m);
                        assert forall|a: int, b: int| in_range(a, b) implies #[trigger] mask_matches(
                            g0,
                            *bitfield_matrix,
                            a,
                            b,
                        ) by {
                            if a == cell_x && b == cell_y {
                                assert(mask_matches_value(g0, m, a, b));
                            } else {
                                assert(mask(*bitfield_matrix, a, b) == mask(bf2, a, b));
                                assert(mask_matches(g0, bf2, a, b));
                            }
                        }
                        assert forall|s: Grid| solution_of(s, g0) implies #[trigger] cell(
                            s,
                            cell_x as int,
                            cell_y as int,
                        ) >= value + 1 by {
                            if cell(s, cell_x as int, cell_y as int) == value {
                                lemma_place_keeps_solution(
                                    s,
                                    g0,
                                    g1,
                                    cell_x as int,
                                    cell_y as int,
                                    value,
                                );
                                assert(solvable(g1));
                            }
                        }
                    }
                } else {
                    proof {
                        assert(mask_matches(g0, *bitfield_matrix, cell_x as int, cell_y as int));
                        assert((((value - 1) as u16) + 1) as u8 == value);
                        assert(!value_fits(g0, cell_x as int, cell_y as int, value));
                        assert forall|s: Grid| solution_of(s, g0) implies #[trigger] cell(
                            s,
                            cell_x as int,
                            cell_y as int,
                        ) >= value + 1 by {
                            if cell(s, cell_x as int, cell_y as int) == value {
                                lemma_solution_value_fits(s, g0, cell_x as int, cell_y as int);
                            }
                        }
                    }
                }
                value = value + 1;
            }
            proof {
                assert(!solvable(g0)) by {
                    if solvable(g0) {
                        let s = choose|s: Grid| solution_of(s, g0);
                        assert(cell(s, cell_x as int, cell_y as int) >= 10);
                        lemma_solution_value_fits(s, g0, cell_x as int, cell_y as int);
                    }
                }
                lemma_masks_determined(g0, bf0, *bitfield_matrix);
            }
            false
        },
    }
}
/// Applies one round of the two propagation rules, decided from the matrix
/// as it stands on entry. First, any empty cell whose entry mask has exactly
/// one bit set receives that value (a naked single); then, row by row, any
/// value that appears in exactly one cell's entry mask within the row is
/// written into that cell (a hidden single). Each write applies the
/// exclusion step so the matrix stays consistent, and each is checked
/// against the live matrix first, so on an unsolvable grid a deduction that
/// an earlier write of the round has invalidated is skipped rather than
/// placed. This is pure propagation: a cell changes only to a value one of
/// the two rules forces, the set of solutions is exactly preserved, and on a
/// solvable grid every cell the entry matrix forces is written.
#[verifier::loop_isolation(false)]
pub fn update_board(board: &mut Grid, bitfield_matrix: &mut Masks)
    requires
        grid_wf(*old(board)),
        no_conflict(*old(board)),
        masks_ok(*old(board), *old(bitfield_matrix)),
    ensures
        grid_wf(*final(board)),
        no_conflict(*final(board)),
        masks_ok(*final(board), *final(bitfield_matrix)),
        extends(*final(board), *old(board)),
        forall|s: Grid|
            #[trigger] solution_of(s, *old(board)) == solution_of(s, *final(board)),
        forall|x: int, y: int|
            in_range(x, y) && #[trigger] cell(*final(board), x, y) != cell(*old(board), x, y)
                ==> cell(*old(board), x, y) == 0 && (exists|v: u8|
                #[trigger] forced_single(*old(bitfield_matrix), x, y, v) && cell(
                    *final(board),
                    x,
                    y,
                ) == v),
        solvable(*old(board)) ==> forall|x: int, y: int, v: u8|
            in_range(x, y) && #[trigger] naked_single(*old(bitfield_matrix), x, y, v)
                ==> cell(*final(board), x, y) == v,
        solvable(*old(board)) ==> forall|x: int, y: int, v: u8|
            in_range(x, y) && #[trigger] hidden_single(*old(bitfield_matrix), x, y, v)
                ==> cell(*final(board), x, y) == v,
{
    let ghost g0 = *board;
    let snapshot: Masks = *bitfield_matrix;
    let mut y: usize = 0;
    while y < 9
        invariant
            y <= 9,
            grid_wf(*board),
            no_conflict(*board),
            masks_ok(*board, *bitfield_matrix),
            extends(*board, g0),
            forall|s: Grid| #[trigger] solution_of(s, g0) == solution_of(s, *board),
            forall|a: int, b: int|
                in_range(a, b) && #[trigger] cell(*board, a, b) != cell(g0, a, b)
                    ==> cell(g0, a, b) == 0 && (exists|w: u8|
                    #[trigger] forced_single(snapshot, a, b, w) && cell(*board, a, b) == w),
            forall|a: int, b: int|
                in_range(a, b) && !row_major_before(a, b, 0, y as int)
                    ==> #[trigger] cell(*board, a, b) == cell(g0, a, b),
            solvable(g0) ==> forall|a: int, b: int, w: u8|
                in_range(a, b) && row_major_before(a, b, 0, y as int)
                    && #[trigger] naked_single(snapshot, a, b, w) ==> cell(*board, a, b) == w,
        decreases 9 - y,
    {
        let mut x: usize = 0;
        while x < 9
            invariant
                x <= 9,
                y < 9,
                grid_wf(*board),
                no_conflict(*board),
                masks_ok(*board, *bitfield_matrix),
                extends(*board, g0),
                forall|s: Grid| #[trigger] solution_of(s, g0) == solution_of(s, *board),
                forall|a: int, b: int|
                    in_range(a, b) && #[trigger] cell(*board, a, b) != cell(g0, a, b)
                        ==> cell(g0, a, b) == 0 && (exists|w: u8|
                        #[trigger] forced_single(snapshot, a, b, w) && cell(*board, a, b) == w),
                forall|a: int, b: int|
                    in_range(a, b) && !row_major_before(a, b, x as int, y as int)
                        ==> #[trigger] cell(*board, a, b) == cell(g0, a, b),
                solvable(g0) ==> forall|a: int, b: int, w: u8|
                    in_range(a, b) && row_major_before(a, b, x as int, y as int)
                        && #[trigger] naked_single(snapshot, a, b, w) ==> cell(*board, a, b) == w,
            decreases 9 - x,
        {
            let m: u16 = snapshot[y][x];
            let ghost gc = *board;
            let ghost bfc = *bitfield_matrix;
            proof {
                assert(m == mask(snapshot, x as int, y as int));
                assert(cell(gc, x as int, y as int) == cell(g0, x as int, y as int));
            }
            if m != 0 && (m & (m - 1)) == 0 {
                proof {
                    assert(mask_matches(g0, snapshot, x as int, y as int));
                }
                let mut placed = false;
                let mut v: u8 = 1;
                while v <= 9
                    invariant
                        1 <= v <= 10,
                        x < 9,
                        y < 9,
                        m == mask(snapshot, x as int, y as int),
                        m != 0,
                        m & ((m - 1) as u16) == 0,
                        grid_wf(*board),
                        no_conflict(*board),
                        masks_ok(*board, *bitfield_matrix),
                        extends(*board, g0),
                        forall|s: Grid| #[trigger] solution_of(s, g0) == solution_of(s, *board),
                        forall|a: int, b: int|
                            in_range(a, b) && #[trigger] cell(*board, a, b) != cell(g0, a, b)
                                ==> cell(g0, a, b) == 0 && (exists|w: u8|
                                #[trigger] forced_single(snapshot, a, b, w) && cell(*board, a, b)
                                    == w),
                        forall|a: int, b: int|
                            in_range(a, b) && !(a == x && b == y) ==> #[trigger] cell(
                                *board,
                                a,
                                b,
                            ) == cell(gc, a, b),
                        !placed ==> *board == gc && *bitfield_matrix == bfc,
                        placed ==> exists|w: u8|
                            1 <= w < v && #[trigger] bit_set(m, (w - 1) as u16) && cell(
                                *board,
                                x as int,
                                y as int,
                            ) == w,
                        solvable(g0) ==> (placed <==> exists|w: u8|
                            1 <= w < v && #[trigger] bit_set(m, (w - 1) as u16)),
                    decreases 10 - v,
                {
                    if !placed && ((m >> ((v - 1) as u16)) & 1) == 1 {
                        proof {
                            assert(bit_set(m, (v - 1) as u16));
                            assert((((v - 1) as u16) + 1) as u8 == v);
                            assert(cell(g0, x as int, y as int) == 0);
                            if solvable(g0) {
                                let s = choose|s: Grid| solution_of(s, g0);
                                assert(solution_of(s, *board));
                                lemma_solution_value_fits(s, g0, x as int, y as int);
                                assert(bit_set(m, (cell(s, x as int, y as int) - 1) as u16));
                                lemma_single_bit(
                                    m,
                                    (cell(s, x as int, y as int) - 1) as u16,
                                    (v - 1) as u16,
                                );
                                assert(cell(s, x as int, y as int) == v);
                                lemma_solution_value_fits(s, *board, x as int, y as int);
                                assert(cell(*board, x as int, y as int) == 0);
                                assert(value_fits(*board, x as int, y as int, v));
                                assert(mask_matches(*board, *bitfield_matrix, x as int, y as int));
                                assert(bit_set(
                                    mask(*bitfield_matrix, x as int, y as int),
                                    (v - 1) as u16,
                                ));
                            }
                        }
                        if is_valid_cell(bitfield_matrix, x, y, v) {
                            let ghost gb = *board;
                            proof {
                                assert(mask_matches(gb, *bitfield_matrix, x as int, y as int));
                                assert(cell(gb, x as int, y as int) == 0);
                                assert(value_fits(gb, x as int, y as int, v));
                            }
                            board[y][x] = v;
                            let ghost g2 = *board;
                            proof {
                                assert(cell(g2, x as int, y as int) == v);
                                assert(is_update(g2, gb, x as int, y as int, v));
                                lemma_place_wf(gb, g2, x as int, y as int, v);
                            }
                            let ghost bf_pre = *bitfield_matrix;
                            update_bitfield_matrix(bitfield_matrix, x, y, v);
                            proof {
                                lemma_masks_after_place(
                                    gb,
                                    g2,
                                    bf_pre,
                                    *bitfield_matrix,
                                    x as int,
                                    y as int,
                                    v,
                                );
                                lemma_value_bit((v - 1) as u16, 0);
                                lemma_single_bit_value(m, (v - 1) as u16);
                                assert(m == value_bit(v));
                                assert(naked_single(snapshot, x as int, y as int, v));
                                assert(forced_single(snapshot, x as int, y as int, v));
                                assert forall|a: int, b: int|
                                    in_range(a, b) && cell(g0, a, b) != 0 implies #[trigger] cell(
                                    g2,
                                    a,
                                    b,
                                ) == cell(g0, a, b) by {
                                    assert(cell(gb, a, b) == cell(g0, a, b));
                                    assert(cell(g2, a, b) == cell(gb, a, b));
                                }
                                assert forall|s: Grid| #[trigger] solution_of(s, g0)
                                    == solution_of(s, g2) by {
                                    if solution_of(s, g0) {
                                        assert(solution_of(s, gb));
                                        lemma_solution_value_fits(s, g0, x as int, y as int);
                                        assert(bit_set(
                                            m,
                                            (cell(s, x as int, y as int) - 1) as u16,
                                        ));
                                        lemma_single_bit(
                                            m,
                                            (cell(s, x as int, y as int) - 1) as u16,
                                            (v - 1) as u16,
                                        );
                                        assert(cell(s, x as int, y as int) == v);
                                        lemma_place_keeps_solution(
                                            s,
                                            gb,
                                            g2,
                                            x as int,
                                            y as int,
                                            v,
                                        );
                                    }
                                    if solution_of(s, g2) {
                                        lemma_unplace_keeps_solution(
                                            s,
                                            gb,
                                            g2,
                                            x as int,
                                            y as int,
                                            v,
                                        );
                                    }
                                }
                            }
                            proof {
                                assert(1 <= v < v + 1 && bit_set(m, (v - 1) as u16) && cell(
                                    *board,
                                    x as int,
                                    y as int,
                                ) == v);
                            }
                            placed = true;
                        } else {
                            proof {
                                if solvable(g0) {
                                    assert(false);
                                }
                            }
                        }
                    }
                    v = v + 1;
                }
                proof {
                    assert forall|a: int, b: int, w: u8|
                        in_range(a, b) && row_major_before(a, b, x + 1, y as int)
                            && #[trigger] naked_single(snapshot, a, b, w) && solvable(
                            g0,
                        ) implies cell(*board, a, b) == w by {
                        if a == x && b == y {
                            lemma_value_bit((w - 1) as u16, (w - 1) as u16);
                            assert(bit_set(m, (w - 1) as u16));
                            assert(placed);
                            let w2 = choose|w2: u8|
                                1 <= w2 < 10 && #[trigger] bit_set(m, (w2 - 1) as u16) && cell(
                                    *board,
                                    x as int,
                                    y as int,
                                ) == w2;
                            lemma_single_bit(m, (w2 - 1) as u16, (w - 1) as u16);
                            assert(cell(*board, a, b) == w);
                        } else {
                            assert(row_major_before(a, b, x as int, y as int));
                            assert(cell(*board, a, b) == cell(gc, a, b));
                        }
                    }
                }
            } else {
                proof {
                    assert forall|w: u8| !naked_single(snapshot, x as int, y as int, w) by {
                        if naked_single(snapshot, x as int, y as int, w) {
                            lemma_value_bit((w - 1) as u16, 0);
                        }
                    }
                }
            }
            x = x + 1;
        }
        y = y + 1;
    }
    let mut hy: usize = 0;
    while hy < 9
        invariant
            hy <= 9,
            grid_wf(*board),
            no_conflict(*board),
            masks_ok(*board, *bitfield_matrix),
            extends(*board, g0),
            forall|s: Grid| #[trigger] solution_of(s, g0) == solution_of(s, *board),
            forall|a: int, b: int|
                in_range(a, b) && #[trigger] cell(*board, a, b) != cell(g0, a, b)
                    ==> cell(g0, a, b) == 0 && (exists|w: u8|
                    #[trigger] forced_single(snapshot, a, b, w) && cell(*board, a, b) == w),
            solvable(g0) ==> forall|a: int, b: int, w: u8|
                in_range(a, b) && #[trigger] naked_single(snapshot, a, b, w) ==> cell(
                    *board,
                    a,
                    b,
                ) == w,
            solvable(g0) ==> forall|a: int, b: int, w: u8|
                in_range(a, b) && b < hy && #[trigger] hidden_single(snapshot, a, b, w) ==> cell(
                    *board,
                    a,
                    b,
                ) == w,
        decreases 9 - hy,
    {
        let mut v: u8 = 1;
        while v <= 9
            invariant
                1 <= v <= 10,
                hy < 9,
                grid_wf(*board),
                no_conflict(*board),
                masks_ok(*board, *bitfield_matrix),
                extends(*board, g0),
                forall|s: Grid| #[trigger] solution_of(s, g0) == solution_of(s, *board),
                forall|a: int, b: int|
                    in_range(a, b) && #[trigger] cell(*board, a, b) != cell(g0, a, b)
                        ==> cell(g0, a, b) == 0 && (exists|w: u8|
                        #[trigger] forced_single(snapshot, a, b, w) && cell(*board, a, b) == w),
                solvable(g0) ==> forall|a: int, b: int, w: u8|
                    in_range(a, b) && #[trigger] naked_single(snapshot, a, b, w) ==> cell(
                        *board,
                        a,
                        b,
                    ) == w,
                solvable(g0) ==> forall|a: int, b: int, w: u8|
                    in_range(a, b) && (b < hy || (b == hy && w < v)) && #[trigger] hidden_single(
                        snapshot,
                        a,
                        b,
                        w,
                    ) ==> cell(*board, a, b) == w,
            decreases 10 - v,
        {
            let mut count: u8 = 0;
            let mut fx: usize = 0;
            let mut x: usize = 0;
            while x < 9
                invariant
                    x <= 9,
                    hy < 9,
                    1 <= v <= 9,
                    count <= 2,
                    count == 0 ==> forall|a: int|
                        0 <= a < x ==> !bit_set(
                            #[trigger] mask(snapshot, a, hy as int),
                            (v - 1) as u16,
                        ),
                    count == 1 ==> fx < x && bit_set(
                        mask(snapshot, fx as int, hy as int),
                        (v - 1) as u16,
                    ) && (forall|a: int|
                        0 <= a < x && a != fx ==> !bit_set(
                            #[trigger] mask(snapshot, a, hy as int),
                            (v - 1) as u16,
                        )),
                    count == 2 ==> exists|a1: int, a2: int|
                        0 <= a1 < x && 0 <= a2 < x && a1 != a2 && bit_set(
                            #[trigger] mask(snapshot, a1, hy as int),
                            (v - 1) as u16,
                        ) && bit_set(#[trigger] mask(snapshot, a2, hy as int), (v - 1) as u16),
                decreases 9 - x,
            {
                if ((snapshot[hy][x] >> ((v - 1) as u16)) & 1) == 1 {
                    proof {
                        assert(bit_set(mask(snapshot, x as int, hy as int), (v - 1) as u16));
                    }
                    if count == 0 {
                        fx = x;
                        count = 1;
                    } else if count == 1 {
                        proof {
                            assert(fx != x);
                        }
                        count = 2;
                    }
                }
                x = x + 1;
            }
            if count == 1 {
                proof {
                    assert(hidden_single(snapshot, fx as int, hy as int, v));
                    assert(mask_matches(g0, snapshot, fx as int, hy as int));
                    assert((((v - 1) as u16) + 1) as u8 == v);
                    assert(cell(g0, fx as int, hy as int) == 0);
                    assert(value_fits(g0, fx as int, hy as int, v));
                }
                let ghost gc = *board;
                let ghost bfc = *bitfield_matrix;
                if is_valid_cell(bitfield_matrix, fx, hy, v) {
                    proof {
                        assert(mask_matches(gc, bfc, fx as int, hy as int));
                        assert(cell(gc, fx as int, hy as int) == 0);
                        assert(value_fits(gc, fx as int, hy as int, v));
                    }
                    board[hy][fx] = v;
                    let ghost g2 = *board;
                    proof {
                        assert(cell(g2, fx as int, hy as int) == v);
                        assert(is_update(g2, gc, fx as int, hy as int, v));
                        lemma_place_wf(gc, g2, fx as int, hy as int, v);
                    }
                    let ghost bf_pre = *bitfield_matrix;
                    update_bitfield_matrix(bitfield_matrix, fx, hy, v);
                    proof {
                        lemma_masks_after_place(
                            gc,
                            g2,
                            bf_pre,
                            *bitfield_matrix,
                            fx as int,
                            hy as int,
                            v,
                        );
                        assert(forced_single(snapshot, fx as int, hy as int, v));
                        assert forall|a: int, b: int|
                            in_range(a, b) && cell(g0, a, b) != 0 implies #[trigger] cell(
                            g2,
                            a,
                            b,
                        ) == cell(g0, a, b) by {
                            assert(cell(gc, a, b) == cell(g0, a, b));
                            assert(cell(g2, a, b) == cell(gc, a, b));
                        }
                        assert forall|s: Grid| #[trigger] solution_of(s, g0) == solution_of(
                            s,
                            g2,
                        ) by {
                            if solution_of(s, g0) {
                                assert(solution_of(s, gc));
                                lemma_hidden_single_solution(s, g0, snapshot, fx as int, hy as int, v);
                                assert(cell(s, fx as int, hy as int) == v);
                                lemma_place_keeps_solution(s, gc, g2, fx as int, hy as int, v);
                            }
                            if solution_of(s, g2) {
                                lemma_unplace_keeps_solution(s, gc, g2, fx as int, hy as int, v);
                            }
                        }
                    }
                } else {
                    proof {
                        if solvable(g0) {
                            let s = choose|s: Grid| solution_of(s, g0);
                            assert(solution_of(s, gc));
                            lemma_hidden_single_solution(s, g0, snapshot, fx as int, hy as int, v);
                            assert(cell(s, fx as int, hy as int) == v);
                            assert(mask_matches(gc, bfc, fx as int, hy as int));
                            if cell(gc, fx as int, hy as int) == 0 {
                                lemma_solution_value_fits(s, gc, fx as int, hy as int);
                                assert(value_fits(gc, fx as int, hy as int, v));
                                assert(false);
                            }
                            assert(cell(gc, fx as int, hy as int) == cell(s, fx as int, hy as int));
                            assert(cell(*board, fx as int, hy as int) == v);
                        }
                    }
                }
                proof {
                    assert forall|a: int, b: int, w: u8|
                        in_range(a, b) && (b < hy || (b == hy as int && w < v + 1))
                            && #[trigger] hidden_single(snapshot, a, b, w) && solvable(
                            g0,
                        ) implies cell(*board, a, b) == w by {
                        if b == hy as int && w == v {
                            assert(a == fx);
                        }
                    }
                }
            } else {
                proof {
                    assert forall|a: int, w: u8|
                        0 <= a < 9 && w == v implies !hidden_single(
                        snapshot,
                        a,
                        hy as int,
                        w,
                    ) by {
                        if hidden_single(snapshot, a, hy as int, w) {
                            if count == 0 {
                                assert(!bit_set(mask(snapshot, a, hy as int), (v - 1) as u16));
                            } else {
                                let (a1, a2) = choose|a1: int, a2: int|
                                    0 <= a1 < 9 && 0 <= a2 < 9 && a1 != a2 && bit_set(
                                        #[trigger] mask(snapshot, a1, hy as int),
                                        (v - 1) as u16,
                                    ) && bit_set(
                                        #[trigger] mask(snapshot, a2, hy as int),
                                        (v - 1) as u16,
                                    );
                                assert(a1 != a || a2 != a);
                            }
                        }
                    }
                }
            }
            v = v + 1;
        }
        hy = hy + 1;
    }
}

/// In any solution, a hidden single of the puzzle's candidate matrix holds
/// exactly its forced value: the solution's row must place the value
/// somewhere, and the matrix admits only the one cell.
proof fn lemma_hidden_single_solution(s: Grid, g: Grid, bf: Masks, x: int, y: int, v: u8)
    requires
        solution_of(s, g),
        masks_ok(g, bf),
        in_range(x, y),
        hidden_single(bf, x, y, v),
    ensures
        cell(s, x, y) == v,
{
    lemma_solved_grid_complete(s);
    assert(row_contains(s, y, v));
    let xs = choose|a: int| in_range(a, y) && #[trigger] cell(s, a, y) == v;
    assert(mask_matches(g, bf, x, y));
    assert((((v - 1) as u16) + 1) as u8 == v);
    assert(cell(g, x, y) == 0);
    assert(value_fits(g, x, y, v));
    if cell(g, xs, y) != 0 {
        assert(cell(g, xs, y) == cell(s, xs, y));
        if xs != x {
            assert(same_unit(x, y, xs, y));
            assert(cell(g, xs, y) != v);
        }
        assert(false);
    }
    lemma_solution_value_fits(s, g, xs, y);
    assert(mask_matches(g, bf, xs, y));
    assert(bit_set(mask(bf, xs, y), (v - 1) as u16));
    assert(xs == x);
}


/// The search is deterministic: its contract pins both outcomes down, so any
/// two runs on one grid agree on whether a solution exists and hand back the
/// same grid, whether that is the least solution or the unchanged input.
pub proof fn lemma_search_outcome_deterministic(
    g: Grid,
    solved1: bool,
    out1: Grid,
    solved2: bool,
    out2: Grid,
)
    requires
        solved1 == solvable(g),
        solved1 ==> least_solution(out1, g),
        !solved1 ==> out1 == g,
        solved2 == solvable(g),
        solved2 ==> least_solution(out2, g),
        !solved2 ==> out2 == g,
    ensures
        solved1 == solved2,
        out1 == out2,
{
    if solved1 {
        assert(solution_of(out1, g));
        assert(solution_of(out2, g));
        assert(grid_le(out1, out2));
        assert(grid_le(out2, out1));
        lemma_grid_le_antisymmetric(out1, out2);
    }
}

} // verus!



