//! The candidate tracker: builds the candidate-mask matrix from a grid and
//! maintains it incrementally as the search places and retracts values.

use crate::model::{
    bit_set, cell, grid_wf, in_range, is_update, mask, mask_matches, masks_ok, row_major_before,
    same_unit, value_bit, value_fits, Grid, Masks, ALL_CANDIDATES,
};
use vstd::prelude::*;

verus! {

/// Clearing one bit clears exactly that bit.
proof fn lemma_bit_clear(m: u16, v: u16, i: u16)
    by (bit_vector)
    requires
        v < 9,
        i < 9,
    ensures
        bit_set(m & !(1u16 << v), i) == (bit_set(m, i) && i != v),
        m <= 0x1FF ==> (m & !(1u16 << v)) <= 0x1FF,
        m == 0 ==> (m & !(1u16 << v)) == 0,
{
}

/// Setting one bit sets exactly that bit.
proof fn lemma_bit_or(m: u16, v: u16, i: u16)
    by (bit_vector)
    requires
        v < 9,
        i < 9,
    ensures
        bit_set(m | (1u16 << v), i) == (bit_set(m, i) || i == v),
        m <= 0x1FF ==> (m | (1u16 << v)) <= 0x1FF,
{
}

/// The zero mask has no bit set; the full mask has all nine.
proof fn lemma_bit_consts(i: u16)
    by (bit_vector)
    requires
        i < 9,
    ensures
        !bit_set(0u16, i),
        bit_set(0x1FFu16, i),
{
}

/// Returns whether bit (value - 1) is set in the mask at (x, y): the pure
/// legality query of the tracker.
pub fn is_valid_cell(bitfield_matrix: &Masks, x: usize, y: usize, value: u8) -> (r: bool)
    requires
        x < 9,
        y < 9,
        1 <= value <= 9,
    ensures
        r == bit_set(mask(*bitfield_matrix, x as int, y as int), (value - 1) as u16),
{
    ((bitfield_matrix[y][x] >> ((value - 1) as u16)) & 1) == 1
}

/// Returns whether `value` occurs in no cell of the row, column, or box of
/// (x, y) other than (x, y) itself: the brute-force peer scan.
pub fn value_fits_in_cell(board: &Grid, x: usize, y: usize, value: u8) -> (r: bool)
    requires
        x < 9,
        y < 9,
    ensures
        r == value_fits(*board, x as int, y as int, value),
{
    let mut y2: usize = 0;
    while y2 < 9
        invariant
            x < 9,
            y < 9,
            y2 <= 9,
            forall|a: int, b: int|
                in_range(a, b) && b < y2 && same_unit(x as int, y as int, a, b)
                    && !(a == x && b == y) ==> #[trigger] cell(*board, a, b) != value,
        decreases 9 - y2,
    {
        let mut x2: usize = 0;
        while x2 < 9
            invariant
                x < 9,
                y < 9,
                y2 < 9,
                x2 <= 9,
                forall|a: int, b: int|
                    in_range(a, b) && b < y2 && same_unit(x as int, y as int, a, b)
                        && !(a == x && b == y) ==> #[trigger] cell(*board, a, b) != value,
                forall|a: int|
                    0 <= a < x2 && same_unit(x as int, y as int, a, y2 as int)
                        && !(a == x && y2 == y) ==> #[trigger] cell(*board, a, y2 as int) != value,
            decreases 9 - x2,
        {
            if (y2 == y || x2 == x || (x2 / 3 == x / 3 && y2 / 3 == y / 3))
                && !(x2 == x && y2 == y) {
                if board[y2][x2] == value {
                    proof {
                        assert(cell(*board, x2 as int, y2 as int) == value);
                        assert(same_unit(x as int, y as int, x2 as int, y2 as int));
                        assert(!value_fits(*board, x as int, y as int, value));
                    }
                    return false;
                }
            }
            x2 = x2 + 1;
        }
        y2 = y2 + 1;
    }
    true
}

/// Recomputes the mask of one cell directly from the grid: zero for a filled
/// cell, else one bit per value that occurs nowhere else in the cell's units.
pub fn compute_cell_mask(board: &Grid, x: usize, y: usize) -> (m: u16)
    requires
        x < 9,
        y < 9,
    ensures
        mask_matches_value(*board, m, x as int, y as int),
{
    if board[y][x] != 0 {
        proof {
            assert forall|i: u16| i < 9 implies !bit_set(0u16, i) by {
                lemma_bit_consts(i);
            }
        }
        return 0;
    }
    let mut m: u16 = 0;
    let mut value: u8 = 1;
    proof {
        assert forall|i: u16| i < 9 implies !bit_set(0u16, i) by {
            lemma_bit_consts(i);
        }
    }
    while value <= 9
        invariant
            x < 9,
            y < 9,
            1 <= value <= 10,
            m <= ALL_CANDIDATES,
            cell(*board, x as int, y as int) == 0,
            forall|i: u16|
                i < 9 && i + 1 < value ==> (#[trigger] bit_set(m, i) <==> value_fits(
                    *board,
                    x as int,
                    y as int,
                    (i + 1) as u8,
                )),
            forall|i: u16| i < 9 && i + 1 >= value ==> !(#[trigger] bit_set(m, i)),
        decreases 10 - value,
    {
        if value_fits_in_cell(board, x, y, value) {
            let t: u16 = m | (1u16 << ((value - 1) as u16));
            proof {
                assert forall|i: u16| i < 9 implies (bit_set(t, i) == (bit_set(m, i) || i
                    == (value - 1) as u16)) by {
                    lemma_bit_or(m, (value - 1) as u16, i);
                }
                lemma_bit_or(m, (value - 1) as u16, 0);
            }
            m = t;
        }
        value = value + 1;
    }
    m
}

/// The mask `m` is the one the grid determines for cell (x, y).
pub open spec fn mask_matches_value(g: Grid, m: u16, x: int, y: int) -> bool {
    &&& m <= ALL_CANDIDATES
    &&& forall|i: u16|
        i < 9 ==> (#[trigger] bit_set(m, i) <==> (cell(g, x, y) == 0 && value_fits(
            g,
            x,
            y,
            (i + 1) as u8,
        )))
}

/// No cell scanned before position (sx, sy) in the row, column, or box of
/// (x, y), other than (x, y) itself, holds value `v`.
spec fn no_scanned_occurrence(g: Grid, sx: int, sy: int, x: int, y: int, v: u8) -> bool {
    forall|a: int, b: int|
        in_range(a, b) && row_major_before(a, b, sx, sy) && same_unit(x, y, a, b)
            && !(a == x && b == y) ==> #[trigger] cell(g, a, b) != v
}

/// The state of the matrix midway through the initialization scan: every
/// filled cell already scanned has a zero mask, and every other mask records
/// exactly the exclusions of the scanned cells.
spec fn scan_inv(g: Grid, bf: Masks, sx: int, sy: int) -> bool {
    forall|x: int, y: int|
        in_range(x, y) ==> #[trigger] scan_cell_inv(g, bf, sx, sy, x, y)
}

spec fn scan_cell_inv(g: Grid, bf: Masks, sx: int, sy: int, x: int, y: int) -> bool {
    if cell(g, x, y) != 0 && row_major_before(x, y, sx, sy) {
        mask(bf, x, y) == 0
    } else {
        mask(bf, x, y) <= ALL_CANDIDATES && forall|i: u16|
            i < 9 ==> (#[trigger] bit_set(mask(bf, x, y), i) <==> no_scanned_occurrence(
                g,
                sx,
                sy,
                x,
                y,
                (i + 1) as u8,
            ))
    }
}

/// Builds the candidate matrix of a grid: every mask starts as the full
/// 9-bit set, and the exclusion step is applied for each pre-filled cell in
/// scan order. The result is exactly the matrix the grid determines.
pub fn generate_bitfield_matrix(board: &Grid) -> (bitfield_matrix: Masks)
    requires
        grid_wf(*board),
    ensures
        masks_ok(*board, bitfield_matrix),
{
    let mut bitfield_matrix: Masks = [[ALL_CANDIDATES; 9]; 9];
    proof {
        assert forall|x: int, y: int| in_range(x, y) implies scan_cell_inv(
            *board,
            bitfield_matrix,
            0,
            0,
            x,
            y,
        ) by {
            assert(mask(bitfield_matrix, x, y) == ALL_CANDIDATES);
            assert forall|i: u16| i < 9 implies bit_set(mask(bitfield_matrix, x, y), i) by {
                lemma_bit_consts(i);
            }
        }
    }
    let mut y: usize = 0;
    while y < 9
        invariant
            y <= 9,
            grid_wf(*board),
            scan_inv(*board, bitfield_matrix, 0, y as int),
        decreases 9 - y,
    {
        let mut x: usize = 0;
        while x < 9
            invariant
                y < 9,
                x <= 9,
                grid_wf(*board),
                scan_inv(*board, bitfield_matrix, x as int, y as int),
            decreases 9 - x,
        {
            let v: u8 = board[y][x];
            if v != 0 {
                proof {
                    assert(cell(*board, x as int, y as int) == v);
                    assert(1 <= v <= 9);
                }
                let ghost prev = bitfield_matrix;
                update_bitfield_matrix(&mut bitfield_matrix, x, y, v);
                proof {
                    lemma_scan_step_filled(*board, prev, bitfield_matrix, x as int, y as int, v);
                }
            } else {
                proof {
                    lemma_scan_step_empty(*board, bitfield_matrix, x as int, y as int);
                }
            }
            x = x + 1;
        }
        proof {
            lemma_scan_row_end(*board, bitfield_matrix, y as int);
        }
        y = y + 1;
    }
    proof {
        lemma_scan_done(*board, bitfield_matrix);
    }
    bitfield_matrix
}

/// Scanning a filled cell and applying its exclusion moves the scan
/// invariant one cell forward.
proof fn lemma_scan_step_filled(g: Grid, bf: Masks, bf2: Masks, x: int, y: int, v: u8)
    requires
        in_range(x, y),
        1 <= v <= 9,
        cell(g, x, y) == v,
        scan_inv(g, bf, x, y),
        mask(bf2, x, y) == 0,
        forall|a: int, b: int|
            in_range(a, b) && same_unit(x, y, a, b) && !(a == x && b == y) ==> #[trigger] mask(
                bf2,
                a,
                b,
            ) == (mask(bf, a, b) & !value_bit(v)),
        forall|a: int, b: int|
            in_range(a, b) && !same_unit(x, y, a, b) ==> #[trigger] mask(bf2, a, b) == mask(
                bf,
                a,
                b,
            ),
    ensures
        scan_inv(g, bf2, x + 1, y),
{
    assert forall|x2: int, y2: int| in_range(x2, y2) implies scan_cell_inv(
        g,
        bf2,
        x + 1,
        y,
        x2,
        y2,
    ) by {
        assert(scan_cell_inv(g, bf, x, y, x2, y2));
        if x2 == x && y2 == y {
            assert(mask(bf2, x2, y2) == 0);
        } else if same_unit(x, y, x2, y2) {
            if cell(g, x2, y2) != 0 && row_major_before(x2, y2, x, y) {
                assert(mask(bf, x2, y2) == 0);
                lemma_bit_clear(0u16, (v - 1) as u16, 0);
                assert(mask(bf2, x2, y2) == 0);
            } else {
                assert(mask(bf2, x2, y2) == (mask(bf, x2, y2) & !value_bit(v)));
                lemma_bit_clear(mask(bf, x2, y2), (v - 1) as u16, 0);
                assert(mask(bf2, x2, y2) <= ALL_CANDIDATES);
                assert forall|i: u16| i < 9 implies (bit_set(mask(bf2, x2, y2), i)
                    <==> no_scanned_occurrence(g, x + 1, y, x2, y2, (i + 1) as u8)) by {
                    lemma_bit_clear(mask(bf, x2, y2), (v - 1) as u16, i);
                    if i == v - 1 {
                        assert(!bit_set(mask(bf2, x2, y2), i));
                        assert(cell(g, x, y) == (i + 1) as u8);
                        assert(!no_scanned_occurrence(g, x + 1, y, x2, y2, (i + 1) as u8));
                    } else {
                        assert(bit_set(mask(bf2, x2, y2), i) == bit_set(mask(bf, x2, y2), i));
                        assert(no_scanned_occurrence(g, x + 1, y, x2, y2, (i + 1) as u8)
                            == no_scanned_occurrence(g, x, y, x2, y2, (i + 1) as u8)) by {
                            if no_scanned_occurrence(g, x, y, x2, y2, (i + 1) as u8) {
                                assert forall|a: int, b: int|
                                    in_range(a, b) && row_major_before(a, b, x + 1, y) && same_unit(
                                        x2,
                                        y2,
                                        a,
                                        b,
                                    ) && !(a == x2 && b == y2) implies cell(g, a, b) != (i
                                    + 1) as u8 by {
                                    if a == x && b == y {
                                        assert(cell(g, a, b) == v);
                                    }
                                }
                            }
                        }
                    }
                }
            }
        } else {
            assert(mask(bf2, x2, y2) == mask(bf, x2, y2));
            assert(no_scanned_occurrence(g, x + 1, y, x2, y2, (0 + 1) as u8) == no_scanned_occurrence(
                g,
                x,
                y,
                x2,
                y2,
                (0 + 1) as u8,
            ));
            if cell(g, x2, y2) != 0 && row_major_before(x2, y2, x + 1, y) {
                assert(row_major_before(x2, y2, x, y));
            } else {
                assert forall|i: u16| i < 9 implies (bit_set(mask(bf2, x2, y2), i)
                    <==> no_scanned_occurrence(g, x + 1, y, x2, y2, (i + 1) as u8)) by {
                    assert(no_scanned_occurrence(g, x + 1, y, x2, y2, (i + 1) as u8)
                        == no_scanned_occurrence(g, x, y, x2, y2, (i + 1) as u8)) by {
                        if no_scanned_occurrence(g, x, y, x2, y2, (i + 1) as u8) {
                            assert forall|a: int, b: int|
                                in_range(a, b) && row_major_before(a, b, x + 1, y) && same_unit(
                                    x2,
                                    y2,
                                    a,
                                    b,
                                ) && !(a == x2 && b == y2) implies cell(g, a, b) != (i
                                + 1) as u8 by {
                                if a == x && b == y {
                                    assert(!same_unit(x, y, x2, y2));
                                }
                            }
                        }
                    }
                }
            }
        }
    }
}

/// Scanning an empty cell changes nothing but the scan position.
proof fn lemma_scan_step_empty(g: Grid, bf: Masks, x: int, y: int)
    requires
        in_range(x, y),
        cell(g, x, y) == 0,
        scan_inv(g, bf, x, y),
    ensures
        scan_inv(g, bf, x + 1, y),
{
    assert forall|x2: int, y2: int| in_range(x2, y2) implies scan_cell_inv(
        g,
        bf,
        x + 1,
        y,
        x2,
        y2,
    ) by {
        assert(scan_cell_inv(g, bf, x, y, x2, y2));
        if cell(g, x2, y2) != 0 && row_major_before(x2, y2, x + 1, y) {
            assert(row_major_before(x2, y2, x, y));
        } else {
            assert forall|i: u16| i < 9 implies (bit_set(mask(bf, x2, y2), i)
                <==> no_scanned_occurrence(g, x + 1, y, x2, y2, (i + 1) as u8)) by {
                assert(no_scanned_occurrence(g, x + 1, y, x2, y2, (i + 1) as u8)
                    == no_scanned_occurrence(g, x, y, x2, y2, (i + 1) as u8)) by {
                    if no_scanned_occurrence(g, x, y, x2, y2, (i + 1) as u8) {
                        assert forall|a: int, b: int|
                            in_range(a, b) && row_major_before(a, b, x + 1, y) && same_unit(
                                x2,
                                y2,
                                a,
                                b,
                            ) && !(a == x2 && b == y2) implies cell(g, a, b) != (i + 1) as u8 by {
                            if a == x && b == y {
                                assert(cell(g, a, b) == 0);
                            }
                        }
                    }
                }
            }
        }
    }
}

/// Finishing a row moves the scan position to the start of the next row.
proof fn lemma_scan_row_end(g: Grid, bf: Masks, y: int)
    requires
        0 <= y < 9,
        scan_inv(g, bf, 9, y),
    ensures
        scan_inv(g, bf, 0, y + 1),
{
    assert forall|a: int, b: int, x2: int, y2: int|
        in_range(a, b) && in_range(x2, y2) implies (row_major_before(a, b, 9, y)
        == row_major_before(a, b, 0, y + 1)) by {
    }
    assert forall|x2: int, y2: int| in_range(x2, y2) implies scan_cell_inv(
        g,
        bf,
        0,
        y + 1,
        x2,
        y2,
    ) by {
        assert(scan_cell_inv(g, bf, 9, y, x2, y2));
        if cell(g, x2, y2) != 0 && row_major_before(x2, y2, 0, y + 1) {
            assert(row_major_before(x2, y2, 9, y));
        } else {
            assert forall|i: u16| i < 9 implies (bit_set(mask(bf, x2, y2), i)
                <==> no_scanned_occurrence(g, 0, y + 1, x2, y2, (i + 1) as u8)) by {
                assert(no_scanned_occurrence(g, 0, y + 1, x2, y2, (i + 1) as u8)
                    == no_scanned_occurrence(g, 9, y, x2, y2, (i + 1) as u8)) by {
                    if no_scanned_occurrence(g, 9, y, x2, y2, (i + 1) as u8) {
                        assert forall|a: int, b: int|
                            in_range(a, b) && row_major_before(a, b, 0, y + 1) && same_unit(
                                x2,
                                y2,
                                a,
                                b,
                            ) && !(a == x2 && b == y2) implies cell(g, a, b) != (i + 1) as u8 by {
                            assert(row_major_before(a, b, 9, y));
                        }
                    }
                }
            }
        }
    }
}

/// When the scan has covered the whole grid, the invariant says exactly that
/// the matrix is the one the grid determines.
proof fn lemma_scan_done(g: Grid, bf: Masks)
    requires
        scan_inv(g, bf, 0, 9),
    ensures
        masks_ok(g, bf),
{
    assert forall|x: int, y: int| in_range(x, y) implies mask_matches(g, bf, x, y) by {
        assert(scan_cell_inv(g, bf, 0, 9, x, y));
        if cell(g, x, y) != 0 {
            assert(row_major_before(x, y, 0, 9));
            assert(mask(bf, x, y) == 0);
            assert forall|i: u16| i < 9 implies !bit_set(mask(bf, x, y), i) by {
                lemma_bit_consts(i);
            }
        } else {
            assert forall|i: u16| i < 9 implies (bit_set(mask(bf, x, y), i) <==> (cell(g, x, y)
                == 0 && value_fits(g, x, y, (i + 1) as u8))) by {
                assert(no_scanned_occurrence(g, 0, 9, x, y, (i + 1) as u8) == value_fits(
                    g,
                    x,
                    y,
                    (i + 1) as u8,
                )) by {
                    if no_scanned_occurrence(g, 0, 9, x, y, (i + 1) as u8) {
                        assert forall|a: int, b: int|
                            in_range(a, b) && same_unit(x, y, a, b) && !(a == x && b == y) implies
                            cell(g, a, b) != (i + 1) as u8 by {
                            assert(row_major_before(a, b, 0, 9));
                        }
                    }
                    if value_fits(g, x, y, (i + 1) as u8) {
                        assert forall|a: int, b: int|
                            in_range(a, b) && row_major_before(a, b, 0, 9) && same_unit(x, y, a, b)
                                && !(a == x && b == y) implies cell(g, a, b) != (i + 1) as u8 by {
                        }
                    }
                }
            }
        }
    }
}

/// Clears bit (value - 1) in the mask of every cell that shares the row,
/// column, or box of (x, y), then zeroes the mask at (x, y) itself: the
/// incremental exclusion applied when `value` is placed at (x, y).
pub fn update_bitfield_matrix(
    bitfield_matrix: &mut Masks,
    cell_x: usize,
    cell_y: usize,
    value: u8,
)
    requires
        cell_x < 9,
        cell_y < 9,
        1 <= value <= 9,
    ensures
        mask(*final(bitfield_matrix), cell_x as int, cell_y as int) == 0,
        forall|x: int, y: int|
            in_range(x, y) && same_unit(cell_x as int, cell_y as int, x, y)
                && !(x == cell_x && y == cell_y) ==> #[trigger] mask(*final(bitfield_matrix), x, y)
                == (mask(*old(bitfield_matrix), x, y) & !value_bit(value)),
        forall|x: int, y: int|
            in_range(x, y) && !same_unit(cell_x as int, cell_y as int, x, y)
                ==> #[trigger] mask(*final(bitfield_matrix), x, y) == mask(
                *old(bitfield_matrix),
                x,
                y,
            ),
{
    let bitmask_disable: u16 = !(1u16 << ((value - 1) as u16));
    let ghost bf0 = *bitfield_matrix;
    let mut y: usize = 0;
    while y < 9
        invariant
            y <= 9,
            cell_x < 9,
            cell_y < 9,
            1 <= value <= 9,
            bitmask_disable == !value_bit(value),
            forall|a: int, b: int|
                in_range(a, b) && b < y && same_unit(cell_x as int, cell_y as int, a, b)
                    ==> #[trigger] mask(*bitfield_matrix, a, b) == (mask(bf0, a, b)
                    & !value_bit(value)),
            forall|a: int, b: int|
                in_range(a, b) && !(b < y && same_unit(cell_x as int, cell_y as int, a, b))
                    ==> #[trigger] mask(*bitfield_matrix, a, b) == mask(bf0, a, b),
        decreases 9 - y,
    {
        let mut x: usize = 0;
        while x < 9
            invariant
                y < 9,
                x <= 9,
                cell_x < 9,
                cell_y < 9,
                1 <= value <= 9,
                bitmask_disable == !value_bit(value),
                forall|a: int, b: int|
                    in_range(a, b) && row_major_before(a, b, x as int, y as int)
                        && same_unit(cell_x as int, cell_y as int, a, b)
                        ==> #[trigger] mask(*bitfield_matrix, a, b) == (mask(bf0, a, b)
                        & !value_bit(value)),
                forall|a: int, b: int|
                    in_range(a, b) && !(row_major_before(a, b, x as int, y as int) && same_unit(
                        cell_x as int,
                        cell_y as int,
                        a,
                        b,
                    )) ==> #[trigger] mask(*bitfield_matrix, a, b) == mask(bf0, a, b),
            decreases 9 - x,
        {
            if y == cell_y || x == cell_x || (x / 3 == cell_x / 3 && y / 3 == cell_y / 3) {
                let ghost prev = *bitfield_matrix;
                proof {
                    assert(!row_major_before(x as int, y as int, x as int, y as int));
                    assert(mask(*bitfield_matrix, x as int, y as int) == mask(
                        bf0,
                        x as int,
                        y as int,
                    ));
                }
                let t: u16 = bitfield_matrix[y][x] & bitmask_disable;
                bitfield_matrix[y][x] = t;
                proof {
                    assert(same_unit(cell_x as int, cell_y as int, x as int, y as int));
                    assert(t == (mask(bf0, x as int, y as int) & !value_bit(value)));
                    assert(mask(*bitfield_matrix, x as int, y as int) == t);
                    assert forall|a: int, b: int| in_range(a, b) && !(a == x && b == y) implies
                        mask(*bitfield_matrix, a, b) == mask(prev, a, b) by {
                    }
                }
            } else {
                proof {
                    assert(!same_unit(cell_x as int, cell_y as int, x as int, y as int));
                }
            }
            x = x + 1;
        }
        y = y + 1;
    }
    let ghost prev = *bitfield_matrix;
    bitfield_matrix[cell_y][cell_x] = 0;
    proof {
        assert(mask(*bitfield_matrix, cell_x as int, cell_y as int) == 0);
        assert forall|a: int, b: int|
            in_range(a, b) && !(a == cell_x && b == cell_y) implies mask(*bitfield_matrix, a, b)
            == mask(prev, a, b) by {
        }
    }
}

/// Re-enables bit (value - 1) in the mask of every other cell of the row,
/// column, and box of (x, y) where the grid again allows `value` there; the
/// mask at (x, y) itself is left untouched, for the caller to rebuild. This
/// is the inverse of the exclusion step, applied when a placement of `value`
/// at (x, y) is retracted; the bit stays clear wherever some other occurrence
/// of `value` still blocks the cell, which keeps the masks exact.
pub fn restore_bitfield_matrix(
    bitfield_matrix: &mut Masks,
    board: &Grid,
    cell_x: usize,
    cell_y: usize,
    value: u8,
)
    requires
        cell_x < 9,
        cell_y < 9,
        1 <= value <= 9,
    ensures
        mask(*final(bitfield_matrix), cell_x as int, cell_y as int) == mask(
            *old(bitfield_matrix),
            cell_x as int,
            cell_y as int,
        ),
        forall|x: int, y: int|
            in_range(x, y) && same_unit(cell_x as int, cell_y as int, x, y)
                && !(x == cell_x && y == cell_y) ==> #[trigger] mask(*final(bitfield_matrix), x, y)
                == (if cell(*board, x, y) == 0 && value_fits(*board, x, y, value) {
                (mask(*old(bitfield_matrix), x, y) | value_bit(value))
            } else {
                mask(*old(bitfield_matrix), x, y)
            }),
        forall|x: int, y: int|
            in_range(x, y) && !same_unit(cell_x as int, cell_y as int, x, y)
                ==> #[trigger] mask(*final(bitfield_matrix), x, y) == mask(
                *old(bitfield_matrix),
                x,
                y,
            ),
{
    let bitmask_enable: u16 = 1u16 << ((value - 1) as u16);
    let ghost bf0 = *bitfield_matrix;
    let mut y: usize = 0;
    while y < 9
        invariant
            y <= 9,
            cell_x < 9,
            cell_y < 9,
            1 <= value <= 9,
            bitmask_enable == value_bit(value),
            forall|a: int, b: int|
                in_range(a, b) && b < y && same_unit(cell_x as int, cell_y as int, a, b)
                    && !(a == cell_x && b == cell_y)
                    ==> #[trigger] mask(*bitfield_matrix, a, b)
                    == (if cell(*board, a, b) == 0 && value_fits(*board, a, b, value) {
                    (mask(bf0, a, b) | value_bit(value))
                } else {
                    mask(bf0, a, b)
                }),
            forall|a: int, b: int|
                in_range(a, b) && !(b < y && same_unit(cell_x as int, cell_y as int, a, b) && !(a
                    == cell_x && b == cell_y)) ==> #[trigger] mask(*bitfield_matrix, a, b) == mask(
                    bf0,
                    a,
                    b,
                ),
        decreases 9 - y,
    {
        let mut x: usize = 0;
        while x < 9
            invariant
                y < 9,
                x <= 9,
                cell_x < 9,
                cell_y < 9,
                1 <= value <= 9,
                bitmask_enable == value_bit(value),
                forall|a: int, b: int|
                    in_range(a, b) && row_major_before(a, b, x as int, y as int)
                        && same_unit(cell_x as int, cell_y as int, a, b)
                        && !(a == cell_x && b == cell_y)
                        ==> #[trigger] mask(*bitfield_matrix, a, b)
                        == (if cell(*board, a, b) == 0 && value_fits(*board, a, b, value) {
                        (mask(bf0, a, b) | value_bit(value))
                    } else {
                        mask(bf0, a, b)
                    }),
                forall|a: int, b: int|
                    in_range(a, b) && !(row_major_before(a, b, x as int, y as int) && same_unit(
                        cell_x as int,
                        cell_y as int,
                        a,
                        b,
                    ) && !(a == cell_x && b == cell_y)) ==> #[trigger] mask(
                        *bitfield_matrix,
                        a,
                        b,
                    ) == mask(bf0, a, b),
            decreases 9 - x,
        {
            if (y == cell_y || x == cell_x || (x / 3 == cell_x / 3 && y / 3 == cell_y / 3))
                && !(x == cell_x && y == cell_y) {
                proof {
                    assert(same_unit(cell_x as int, cell_y as int, x as int, y as int));
                }
                if board[y][x] == 0 {
                    if value_fits_in_cell(board, x, y, value) {
                        let ghost prev = *bitfield_matrix;
                        proof {
                            assert(!row_major_before(x as int, y as int, x as int, y as int));
                            assert(mask(*bitfield_matrix, x as int, y as int) == mask(
                                bf0,
                                x as int,
                                y as int,
                            ));
                        }
                        let t: u16 = bitfield_matrix[y][x] | bitmask_enable;
                        bitfield_matrix[y][x] = t;
                        proof {
                            assert(cell(*board, x as int, y as int) == 0);
                            assert(value_fits(*board, x as int, y as int, value));
                            assert(t == (mask(bf0, x as int, y as int) | value_bit(value)));
                            assert(mask(*bitfield_matrix, x as int, y as int) == t);
                            assert forall|a: int, b: int|
                                in_range(a, b) && !(a == x && b == y) implies mask(
                                *bitfield_matrix,
                                a,
                                b,
                            ) == mask(prev, a, b) by {
                            }
                        }
                    }
                }
            } else {
                proof {
                    assert(!(same_unit(cell_x as int, cell_y as int, x as int, y as int) && !(x
                        == cell_x && y == cell_y)));
                }
            }
            x = x + 1;
        }
        y = y + 1;
    }
}

/// Placing a fitting value at an empty cell and applying the exclusion step
/// leaves the matrix exactly the one the new grid determines.
pub(crate) proof fn lemma_masks_after_place(
    g: Grid,
    g2: Grid,
    bf: Masks,
    bf2: Masks,
    x: int,
    y: int,
    v: u8,
)
    requires
        masks_ok(g, bf),
        in_range(x, y),
        cell(g, x, y) == 0,
        1 <= v <= 9,
        is_update(g2, g, x, y, v),
        mask(bf2, x, y) == 0,
        forall|a: int, b: int|
            in_range(a, b) && same_unit(x, y, a, b) && !(a == x && b == y) ==> #[trigger] mask(
                bf2,
                a,
                b,
            ) == (mask(bf, a, b) & !value_bit(v)),
        forall|a: int, b: int|
            in_range(a, b) && !same_unit(x, y, a, b) ==> #[trigger] mask(bf2, a, b) == mask(
                bf,
                a,
                b,
            ),
    ensures
        masks_ok(g2, bf2),
{
    assert forall|a: int, b: int| in_range(a, b) implies #[trigger] mask_matches(g2, bf2, a, b) by {
        assert(mask_matches(g, bf, a, b));
        if a == x && b == y {
            assert(cell(g2, a, b) == v);
            assert forall|i: u16| i < 9 implies !bit_set(mask(bf2, a, b), i) by {
                lemma_bit_consts(i);
            }
        } else if same_unit(x, y, a, b) {
            assert(mask(bf2, a, b) == (mask(bf, a, b) & !value_bit(v)));
            lemma_bit_clear(mask(bf, a, b), (v - 1) as u16, 0);
            assert(cell(g2, a, b) == cell(g, a, b));
            assert forall|i: u16| i < 9 implies (bit_set(mask(bf2, a, b), i) <==> (cell(g2, a, b)
                == 0 && value_fits(g2, a, b, (i + 1) as u8))) by {
                lemma_bit_clear(mask(bf, a, b), (v - 1) as u16, i);
                if i == v - 1 {
                    assert(!bit_set(mask(bf2, a, b), i));
                    assert(cell(g2, x, y) == (i + 1) as u8);
                    assert(same_unit(a, b, x, y));
                    assert(!value_fits(g2, a, b, (i + 1) as u8));
                } else {
                    assert(bit_set(mask(bf2, a, b), i) == bit_set(mask(bf, a, b), i));
                    assert(value_fits(g2, a, b, (i + 1) as u8) == value_fits(
                        g,
                        a,
                        b,
                        (i + 1) as u8,
                    )) by {
                        if value_fits(g, a, b, (i + 1) as u8) {
                            assert forall|c: int, d: int|
                                in_range(c, d) && same_unit(a, b, c, d) && !(c == a && d == b)
                                    implies #[trigger] cell(g2, c, d) != (i + 1) as u8 by {
                                if c == x && d == y {
                                    assert(cell(g2, c, d) == v);
                                } else {
                                    assert(cell(g2, c, d) == cell(g, c, d));
                                }
                            }
                        }
                        if value_fits(g2, a, b, (i + 1) as u8) {
                            assert forall|c: int, d: int|
                                in_range(c, d) && same_unit(a, b, c, d) && !(c == a && d == b)
                                    implies #[trigger] cell(g, c, d) != (i + 1) as u8 by {
                                if c == x && d == y {
                                    assert(cell(g, c, d) == 0);
                                } else {
                                    assert(cell(g, c, d) == cell(g2, c, d));
                                }
                            }
                        }
                    }
                }
            }
        } else {
            assert(mask(bf2, a, b) == mask(bf, a, b));
            assert(cell(g2, a, b) == cell(g, a, b));
            assert forall|i: u16| i < 9 implies (bit_set(mask(bf2, a, b), i) <==> (cell(g2, a, b)
                == 0 && value_fits(g2, a, b, (i + 1) as u8))) by {
                assert(value_fits(g2, a, b, (i + 1) as u8) == value_fits(g, a, b, (i + 1) as u8))
                    by {
                    if value_fits(g, a, b, (i + 1) as u8) {
                        assert forall|c: int, d: int|
                            in_range(c, d) && same_unit(a, b, c, d) && !(c == a && d == b) implies
                            #[trigger] cell(g2, c, d) != (i + 1) as u8 by {
                            if c == x && d == y {
                                assert(same_unit(x, y, a, b));
                            } else {
                                assert(cell(g2, c, d) == cell(g, c, d));
                            }
                        }
                    }
                    if value_fits(g2, a, b, (i + 1) as u8) {
                        assert forall|c: int, d: int|
                            in_range(c, d) && same_unit(a, b, c, d) && !(c == a && d == b) implies
                            #[trigger] cell(g, c, d) != (i + 1) as u8 by {
                            if c == x && d == y {
                                assert(same_unit(x, y, a, b));
                            } else {
                                assert(cell(g, c, d) == cell(g2, c, d));
                            }
                        }
                    }
                }
            }
        }
    }
}

/// Retracting a placement and applying the conditional re-enabling step
/// leaves every mask but the retracted cell's own exactly the one the
/// restored grid determines.
pub(crate) proof fn lemma_masks_after_unplace(
    g: Grid,
    g2: Grid,
    bf2: Masks,
    bf3: Masks,
    x: int,
    y: int,
    v: u8,
)
    requires
        masks_ok(g2, bf2),
        in_range(x, y),
        cell(g, x, y) == 0,
        1 <= v <= 9,
        is_update(g2, g, x, y, v),
        mask(bf3, x, y) == mask(bf2, x, y),
        forall|a: int, b: int|
            in_range(a, b) && same_unit(x, y, a, b) && !(a == x && b == y) ==> #[trigger] mask(
                bf3,
                a,
                b,
            ) == (if cell(g, a, b) == 0 && value_fits(g, a, b, v) {
                (mask(bf2, a, b) | value_bit(v))
            } else {
                mask(bf2, a, b)
            }),
        forall|a: int, b: int|
            in_range(a, b) && !same_unit(x, y, a, b) ==> #[trigger] mask(bf3, a, b) == mask(
                bf2,
                a,
                b,
            ),
    ensures
        forall|a: int, b: int|
            in_range(a, b) && !(a == x && b == y) ==> #[trigger] mask_matches(g, bf3, a, b),
{
    assert forall|a: int, b: int|
        in_range(a, b) && !(a == x && b == y) implies #[trigger] mask_matches(g, bf3, a, b) by {
        assert(mask_matches(g2, bf2, a, b));
        assert(cell(g2, a, b) == cell(g, a, b));
        if same_unit(x, y, a, b) {
            if cell(g, a, b) == 0 && value_fits(g, a, b, v) {
                assert(mask(bf3, a, b) == (mask(bf2, a, b) | value_bit(v)));
                lemma_bit_or(mask(bf2, a, b), (v - 1) as u16, 0);
                assert forall|i: u16| i < 9 implies (bit_set(mask(bf3, a, b), i) <==> (cell(
                    g,
                    a,
                    b,
                ) == 0 && value_fits(g, a, b, (i + 1) as u8))) by {
                    lemma_bit_or(mask(bf2, a, b), (v - 1) as u16, i);
                    if i == v - 1 {
                        assert(bit_set(mask(bf3, a, b), i));
                        assert((i + 1) as u8 == v);
                    }
                    if i != v - 1 {
                        assert(value_fits(g, a, b, (i + 1) as u8) == value_fits(
                            g2,
                            a,
                            b,
                            (i + 1) as u8,
                        )) by {
                            if value_fits(g2, a, b, (i + 1) as u8) {
                                assert forall|c: int, d: int|
                                    in_range(c, d) && same_unit(a, b, c, d) && !(c == a && d == b)
                                        implies #[trigger] cell(g, c, d) != (i + 1) as u8 by {
                                    if c == x && d == y {
                                        assert(cell(g, c, d) == 0);
                                    } else {
                                        assert(cell(g, c, d) == cell(g2, c, d));
                                    }
                                }
                            }
                            if value_fits(g, a, b, (i + 1) as u8) {
                                assert forall|c: int, d: int|
                                    in_range(c, d) && same_unit(a, b, c, d) && !(c == a && d == b)
                                        implies #[trigger] cell(g2, c, d) != (i + 1) as u8 by {
                                    if c == x && d == y {
                                        assert(cell(g2, c, d) == v);
                                    } else {
                                        assert(cell(g2, c, d) == cell(g, c, d));
                                    }
                                }
                            }
                        }
                    }
                }
            } else {
                assert(mask(bf3, a, b) == mask(bf2, a, b));
                assert forall|i: u16| i < 9 implies (bit_set(mask(bf3, a, b), i) <==> (cell(
                    g,
                    a,
                    b,
                ) == 0 && value_fits(g, a, b, (i + 1) as u8))) by {
                    if i == v - 1 {
                        assert((i + 1) as u8 == v);
                        assert(same_unit(a, b, x, y));
                        assert(cell(g2, x, y) == v);
                        assert(!value_fits(g2, a, b, v));
                        assert(!bit_set(mask(bf2, a, b), i));
                    }
                    if i != v - 1 {
                        assert(value_fits(g, a, b, (i + 1) as u8) == value_fits(
                            g2,
                            a,
                            b,
                            (i + 1) as u8,
                        )) by {
                            if value_fits(g2, a, b, (i + 1) as u8) {
                                assert forall|c: int, d: int|
                                    in_range(c, d) && same_unit(a, b, c, d) && !(c == a && d == b)
                                        implies #[trigger] cell(g, c, d) != (i + 1) as u8 by {
                                    if c == x && d == y {
                                        assert(cell(g, c, d) == 0);
                                    } else {
                                        assert(cell(g, c, d) == cell(g2, c, d));
                                    }
                                }
                            }
                            if value_fits(g, a, b, (i + 1) as u8) {
                                assert forall|c: int, d: int|
                                    in_range(c, d) && same_unit(a, b, c, d) && !(c == a && d == b)
                                        implies #[trigger] cell(g2, c, d) != (i + 1) as u8 by {
                                    if c == x && d == y {
                                        assert(cell(g2, c, d) == v);
                                    } else {
                                        assert(cell(g2, c, d) == cell(g, c, d));
                                    }
                                }
                            }
                        }
                    }
                }
            }
        } else {
            assert(mask(bf3, a, b) == mask(bf2, a, b));
            assert forall|i: u16| i < 9 implies (bit_set(mask(bf3, a, b), i) <==> (cell(g, a, b)
                == 0 && value_fits(g, a, b, (i + 1) as u8))) by {
                assert(value_fits(g, a, b, (i + 1) as u8) == value_fits(g2, a, b, (i + 1) as u8))
                    by {
                    if value_fits(g2, a, b, (i + 1) as u8) {
                        assert forall|c: int, d: int|
                            in_range(c, d) && same_unit(a, b, c, d) && !(c == a && d == b) implies
                            #[trigger] cell(g, c, d) != (i + 1) as u8 by {
                            if c == x && d == y {
                                assert(same_unit(x, y, a, b));
                            } else {
                                assert(cell(g, c, d) == cell(g2, c, d));
                            }
                        }
                    }
                    if value_fits(g, a, b, (i + 1) as u8) {
                        assert forall|c: int, d: int|
                            in_range(c, d) && same_unit(a, b, c, d) && !(c == a && d == b) implies
                            #[trigger] cell(g2, c, d) != (i + 1) as u8 by {
                            if c == x && d == y {
                                assert(same_unit(x, y, a, b));
                            } else {
                                assert(cell(g2, c, d) == cell(g, c, d));
                            }
                        }
                    }
                }
            }
        }
    }
}

/// Two nine-bit masks with the same bits are the same mask.
proof fn lemma_mask_value_unique(m1: u16, m2: u16)
    requires
        m1 <= ALL_CANDIDATES,
        m2 <= ALL_CANDIDATES,
        forall|i: u16| i < 9 ==> (#[trigger] bit_set(m1, i) == bit_set(m2, i)),
    ensures
        m1 == m2,
{
    assert(bit_set(m1, 0) == bit_set(m2, 0));
    assert(bit_set(m1, 1) == bit_set(m2, 1));
    assert(bit_set(m1, 2) == bit_set(m2, 2));
    assert(bit_set(m1, 3) == bit_set(m2, 3));
    assert(bit_set(m1, 4) == bit_set(m2, 4));
    assert(bit_set(m1, 5) == bit_set(m2, 5));
    assert(bit_set(m1, 6) == bit_set(m2, 6));
    assert(bit_set(m1, 7) == bit_set(m2, 7));
    assert(bit_set(m1, 8) == bit_set(m2, 8));
    assert(m1 == m2) by (bit_vector)
        requires
            m1 <= 0x1FF,
            m2 <= 0x1FF,
            bit_set(m1, 0) == bit_set(m2, 0),
            bit_set(m1, 1) == bit_set(m2, 1),
            bit_set(m1, 2) == bit_set(m2, 2),
            bit_set(m1, 3) == bit_set(m2, 3),
            bit_set(m1, 4) == bit_set(m2, 4),
            bit_set(m1, 5) == bit_set(m2, 5),
            bit_set(m1, 6) == bit_set(m2, 6),
            bit_set(m1, 7) == bit_set(m2, 7),
            bit_set(m1, 8) == bit_set(m2, 8),
    ;
}

/// The grid determines its candidate matrix: two matrices that both agree
/// with one grid are equal.
pub proof fn lemma_masks_determined(g: Grid, bf1: Masks, bf2: Masks)
    requires
        masks_ok(g, bf1),
        masks_ok(g, bf2),
    ensures
        bf1 == bf2,
{
    assert forall|a: int, b: int| in_range(a, b) implies #[trigger] mask(bf1, a, b) == mask(
        bf2,
        a,
        b,
    ) by {
        assert(mask_matches(g, bf1, a, b));
        assert(mask_matches(g, bf2, a, b));
        lemma_mask_value_unique(mask(bf1, a, b), mask(bf2, a, b));
    }
    crate::model::lemma_masks_ext(bf1, bf2);
}

/// A single-bit mask is nonzero, passes the power-of-two test, and has
/// exactly its one bit set.
pub(crate) proof fn lemma_value_bit(i: u16, j: u16)
    by (bit_vector)
    requires
        i < 9,
        j < 9,
    ensures
        (1u16 << i) != 0,
        ((1u16 << i) & ((((1u16 << i) - 1)) as u16)) == 0,
        bit_set((1u16 << i), j) == (j == i),
        (1u16 << i) <= 0x1FF,
{
}

/// A nonzero mask that passes the power-of-two test and has bit `i` set is
/// exactly the single-bit mask of `i`.
pub(crate) proof fn lemma_single_bit_value(m: u16, i: u16)
    by (bit_vector)
    requires
        m != 0,
        m & ((m - 1) as u16) == 0,
        i < 9,
        bit_set(m, i),
    ensures
        m == (1u16 << i),
{
}

/// A mask of the form `m & (m - 1) == 0` has at most one bit set.
pub(crate) proof fn lemma_single_bit(m: u16, i: u16, j: u16)
    by (bit_vector)
    requires
        m != 0,
        m & ((m - 1) as u16) == 0,
        i < 9,
        j < 9,
        bit_set(m, i),
        bit_set(m, j),
    ensures
        i == j,
{
}

} // verus!


