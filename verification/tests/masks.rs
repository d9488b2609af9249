use sudoku::model::{Grid, Masks, ALL_CANDIDATES};
use sudoku::tracker::{
    compute_cell_mask, generate_bitfield_matrix, is_valid_cell, restore_bitfield_matrix,
    update_bitfield_matrix, value_fits_in_cell,
};

/// Derives the candidate matrix by brute force, independently of the
/// tracker: for every empty cell, one bit per value that appears nowhere
/// else in its row, column, or box; zero for filled cells.
fn brute_force_masks(board: &Grid) -> Masks {
    let mut masks = [[0u16; 9]; 9];
    for y in 0..9 {
        for x in 0..9 {
            if board[y][x] != 0 {
                continue;
            }
            let mut m = 0u16;
            for v in 1..=9u8 {
                if no_peer_holds(board, x, y, v) {
                    m |= 1 << (v - 1);
                }
            }
            masks[y][x] = m;
        }
    }
    masks
}

fn no_peer_holds(board: &Grid, x: usize, y: usize, v: u8) -> bool {
    for b in 0..9 {
        for a in 0..9 {
            if (a, b) == (x, y) {
                continue;
            }
            let shares = b == y || a == x || (a / 3 == x / 3 && b / 3 == y / 3);
            if shares && board[b][a] == v {
                return false;
            }
        }
    }
    true
}

fn hardest_puzzle() -> Grid {
    [
        [8, 0, 0, 0, 0, 0, 0, 0, 0],
        [0, 0, 3, 6, 0, 0, 0, 0, 0],
        [0, 7, 0, 0, 9, 0, 2, 0, 0],
        [0, 5, 0, 0, 0, 7, 0, 0, 0],
        [0, 0, 0, 0, 4, 5, 7, 0, 0],
        [0, 0, 0, 1, 0, 0, 0, 3, 0],
        [0, 0, 1, 0, 0, 0, 0, 6, 8],
        [0, 0, 8, 5, 0, 0, 0, 1, 0],
        [0, 9, 0, 0, 0, 0, 4, 0, 0],
    ]
}

fn anti_brute_force_puzzle() -> Grid {
    [
        [0, 0, 0, 0, 0, 0, 0, 0, 0],
        [0, 0, 0, 0, 0, 3, 0, 8, 5],
        [0, 0, 1, 0, 2, 0, 0, 0, 0],
        [0, 0, 0, 5, 0, 7, 0, 0, 0],
        [0, 0, 4, 0, 0, 0, 1, 0, 0],
        [0, 9, 0, 0, 0, 0, 0, 0, 0],
        [5, 0, 0, 0, 0, 0, 0, 7, 3],
        [0, 0, 2, 0, 1, 0, 0, 0, 0],
        [0, 0, 0, 0, 4, 0, 0, 0, 9],
    ]
}

fn lcg_next(state: &mut u64) -> u64 {
    *state = state
        .wrapping_mul(6364136223846793005)
        .wrapping_add(1442695040888963407);
    *state >> 16
}

/// Builds a conflict-free partial grid by attempting random placements and
/// keeping only those that no peer contradicts.
fn random_partial_grid(seed: u64, attempts: u32) -> Grid {
    let mut state = seed;
    let mut board: Grid = [[0; 9]; 9];
    for _ in 0..attempts {
        let x = (lcg_next(&mut state) % 9) as usize;
        let y = (lcg_next(&mut state) % 9) as usize;
        let v = (lcg_next(&mut state) % 9) as u8 + 1;
        if board[y][x] == 0 && no_peer_holds(&board, x, y, v) {
            board[y][x] = v;
        }
    }
    board
}

#[test]
fn initialize_matches_brute_force_on_examples() {
    for board in [hardest_puzzle(), anti_brute_force_puzzle(), [[0; 9]; 9]] {
        assert_eq!(generate_bitfield_matrix(&board), brute_force_masks(&board));
    }
}

#[test]
fn initialize_matches_brute_force_on_random_partial_grids() {
    for seed in 1..=40u64 {
        let board = random_partial_grid(seed, 10 + (seed as u32 % 30));
        assert_eq!(generate_bitfield_matrix(&board), brute_force_masks(&board));
    }
}

#[test]
fn compute_cell_mask_matches_initialization() {
    for board in [hardest_puzzle(), anti_brute_force_puzzle()] {
        let masks = generate_bitfield_matrix(&board);
        for y in 0..9 {
            for x in 0..9 {
                assert_eq!(compute_cell_mask(&board, x, y), masks[y][x]);
            }
        }
    }
}

#[test]
fn empty_grid_masks_hold_every_candidate() {
    let board: Grid = [[0; 9]; 9];
    let masks = generate_bitfield_matrix(&board);
    for y in 0..9 {
        for x in 0..9 {
            assert_eq!(masks[y][x], ALL_CANDIDATES);
        }
    }
}

#[test]
fn exclusion_clears_exactly_the_peers() {
    let board: Grid = [[0; 9]; 9];
    let mut masks = generate_bitfield_matrix(&board);
    update_bitfield_matrix(&mut masks, 3, 3, 5);
    let cleared = ALL_CANDIDATES & !(1 << 4);
    for y in 0..9 {
        for x in 0..9 {
            let expected = if (x, y) == (3, 3) {
                0
            } else if y == 3 || x == 3 || (x / 3 == 1 && y / 3 == 1) {
                cleared
            } else {
                ALL_CANDIDATES
            };
            assert_eq!(masks[y][x], expected, "mask at ({}, {})", x, y);
        }
    }
}

#[test]
fn retraction_restores_the_matrix_exactly() {
    let puzzle = hardest_puzzle();
    let pristine = generate_bitfield_matrix(&puzzle);
    let mut board = puzzle;
    let mut masks = pristine;
    // Place a legal value, then retract it the way the search does.
    let (x, y, v) = (1, 0, 1);
    assert!(is_valid_cell(&masks, x, y, v));
    board[y][x] = v;
    update_bitfield_matrix(&mut masks, x, y, v);
    assert_ne!(masks, pristine);
    board[y][x] = 0;
    restore_bitfield_matrix(&mut masks, &board, x, y, v);
    masks[y][x] = compute_cell_mask(&board, x, y);
    assert_eq!(masks, pristine);
    assert_eq!(board, puzzle);
}

#[test]
fn legality_query_reads_the_placed_values() {
    let puzzle = hardest_puzzle();
    let masks = generate_bitfield_matrix(&puzzle);
    // (1, 0) shares a row with the given 8, a column with 7, 5, and 9, and a
    // box with 3: those values are illegal there, and the rest stay legal.
    for v in 1..=9u8 {
        let expected = !matches!(v, 3 | 5 | 7 | 8 | 9);
        assert_eq!(is_valid_cell(&masks, 1, 0, v), expected, "value {}", v);
        assert_eq!(value_fits_in_cell(&puzzle, 1, 0, v), expected, "value {}", v);
    }
}
