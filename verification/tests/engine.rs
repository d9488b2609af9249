use sudoku::model::Grid;
use sudoku::solver::{find_next_empty_cell, solve_sudoku, update_board};
use sudoku::tracker::generate_bitfield_matrix;

/// Checks that every row, column, and 3x3 box holds each of 1..=9 exactly once.
fn valid_complete(board: &Grid) -> bool {
    for unit in units() {
        let mut seen = [false; 10];
        for &(x, y) in unit.iter() {
            let v = board[y][x] as usize;
            if v < 1 || v > 9 || seen[v] {
                return false;
            }
            seen[v] = true;
        }
    }
    true
}

/// The 27 units of the grid, each as nine (x, y) cells.
fn units() -> Vec<Vec<(usize, usize)>> {
    let mut all = Vec::new();
    for y in 0..9 {
        all.push((0..9).map(|x| (x, y)).collect());
    }
    for x in 0..9 {
        all.push((0..9).map(|y| (x, y)).collect());
    }
    for by in 0..3 {
        for bx in 0..3 {
            let mut unit = Vec::new();
            for dy in 0..3 {
                for dx in 0..3 {
                    unit.push((3 * bx + dx, 3 * by + dy));
                }
            }
            all.push(unit);
        }
    }
    all
}

fn keeps_givens(solved: &Grid, puzzle: &Grid) -> bool {
    for y in 0..9 {
        for x in 0..9 {
            if puzzle[y][x] != 0 && solved[y][x] != puzzle[y][x] {
                return false;
            }
        }
    }
    true
}

fn hardest_puzzle() -> Grid {
    [
        [8, 0, 0, 0, 0, 0, 0, 0, 0],
        [0, 0, 3, 6, 0, 0, 0, 0, 0],
        [0, 7, 0, 0, 9, 0, 2, 0, 0],
        [0, 5, 0, 0, 0, 7, 0, 0, 0],
        [0, 0, 0, 0, 4, 5, 7, 0, 0],
        [0, 0, 0, 1, 0, 0, 0, 3, 0],
        [0, 0, 1, 0, 0, 0, 0, 6, 8],
        [0, 0, 8, 5, 0, 0, 0, 1, 0],
        [0, 9, 0, 0, 0, 0, 4, 0, 0],
    ]
}

fn normal_puzzle() -> Grid {
    [
        [5, 1, 7, 6, 0, 0, 0, 3, 4],
        [2, 8, 9, 0, 0, 4, 0, 0, 0],
        [3, 4, 6, 2, 0, 5, 0, 9, 0],
        [6, 0, 2, 0, 0, 0, 0, 1, 0],
        [0, 3, 8, 0, 0, 6, 0, 4, 7],
        [0, 0, 0, 0, 0, 0, 0, 0, 0],
        [0, 9, 0, 0, 0, 0, 0, 7, 8],
        [7, 0, 3, 4, 0, 0, 5, 6, 0],
        [0, 0, 0, 0, 0, 0, 0, 0, 0],
    ]
}

fn solve(board: &mut Grid) -> bool {
    let mut masks = generate_bitfield_matrix(board);
    solve_sudoku(board, &mut masks)
}

#[test]
fn hardest_puzzle_solves_to_known_completion() {
    let puzzle = hardest_puzzle();
    let mut board = puzzle;
    assert!(solve(&mut board));
    assert!(valid_complete(&board));
    assert!(keeps_givens(&board, &puzzle));
    let expected: Grid = [
        [8, 1, 2, 7, 5, 3, 6, 4, 9],
        [9, 4, 3, 6, 8, 2, 1, 7, 5],
        [6, 7, 5, 4, 9, 1, 2, 8, 3],
        [1, 5, 4, 2, 3, 7, 8, 9, 6],
        [3, 6, 9, 8, 4, 5, 7, 2, 1],
        [2, 8, 7, 1, 6, 9, 5, 3, 4],
        [5, 2, 1, 9, 7, 4, 3, 6, 8],
        [4, 3, 8, 5, 2, 6, 9, 1, 7],
        [7, 9, 6, 3, 1, 8, 4, 5, 2],
    ];
    assert_eq!(board, expected);
}

#[test]
fn empty_grid_solves_to_valid_completion() {
    let puzzle: Grid = [[0; 9]; 9];
    let mut board = puzzle;
    assert!(solve(&mut board));
    assert!(valid_complete(&board));
}

#[test]
fn normal_puzzle_solves_and_keeps_givens() {
    let puzzle = normal_puzzle();
    let mut board = puzzle;
    assert!(solve(&mut board));
    assert!(valid_complete(&board));
    assert!(keeps_givens(&board, &puzzle));
}

#[test]
fn unsolvable_grid_reports_failure_and_leaves_state_untouched() {
    // Row 0 holds 1..=8 with its last cell empty, and the 9 that cell would
    // need already stands elsewhere in column 8: no value fits there.
    let mut puzzle: Grid = [[0; 9]; 9];
    for x in 0..8 {
        puzzle[0][x] = (x + 1) as u8;
    }
    puzzle[5][8] = 9;
    let mut board = puzzle;
    let mut masks = generate_bitfield_matrix(&board);
    let masks_before = masks;
    let solved = solve_sudoku(&mut board, &mut masks);
    assert!(!solved);
    assert_eq!(board, puzzle);
    assert_eq!(masks, masks_before);
}

#[test]
fn repeated_solves_agree() {
    let puzzle = hardest_puzzle();
    let mut first = puzzle;
    let mut second = puzzle;
    let r1 = solve(&mut first);
    let r2 = solve(&mut second);
    assert_eq!(r1, r2);
    assert_eq!(first, second);

    let empty: Grid = [[0; 9]; 9];
    let mut third = empty;
    let mut fourth = empty;
    assert!(solve(&mut third));
    assert!(solve(&mut fourth));
    assert_eq!(third, fourth);
}

#[test]
fn find_next_empty_cell_scans_row_major() {
    let empty: Grid = [[0; 9]; 9];
    assert_eq!(find_next_empty_cell(&empty), Some((0, 0)));

    let mut board: Grid = [[0; 9]; 9];
    for x in 0..9 {
        board[0][x] = (x + 1) as u8;
    }
    board[1][0] = 4;
    board[1][1] = 5;
    assert_eq!(find_next_empty_cell(&board), Some((2, 1)));

    let mut full = hardest_puzzle();
    assert!(solve(&mut full));
    assert_eq!(find_next_empty_cell(&full), None);
}

#[test]
fn update_board_fills_naked_single() {
    // Cell (8, 0) sees 1..=8 in its row, so 9 is its only candidate.
    let mut board: Grid = [[0; 9]; 9];
    for x in 0..8 {
        board[0][x] = (x + 1) as u8;
    }
    let before = board;
    let mut masks = generate_bitfield_matrix(&board);
    update_board(&mut board, &mut masks);
    assert_eq!(board[0][8], 9);
    // The written cell behaves like any placement: its mask is zeroed.
    assert_eq!(masks[0][8], 0);
    // No cell the rules do not force is touched.
    let mut expected = before;
    expected[0][8] = 9;
    assert_eq!(board, expected);
}

#[test]
fn update_board_fills_hidden_single() {
    // Columns 0..=7 each hold a 9 somewhere, so in row 0 only the cell
    // (8, 0) can take 9 -- yet that cell still has every value open, so only
    // the hidden-single rule can force it.
    let mut board: Grid = [[0; 9]; 9];
    board[1][0] = 9;
    board[4][1] = 9;
    board[7][2] = 9;
    board[2][3] = 9;
    board[5][4] = 9;
    board[8][5] = 9;
    board[3][6] = 9;
    board[6][7] = 9;
    let before = board;
    let mut masks = generate_bitfield_matrix(&board);
    assert!(masks[0][8].count_ones() > 1);
    update_board(&mut board, &mut masks);
    assert_eq!(board[0][8], 9);
    // No cell the rules do not force is touched.
    let mut expected = before;
    expected[0][8] = 9;
    assert_eq!(board, expected);
}

#[test]
fn update_board_keeps_solution_of_unique_puzzle() {
    let puzzle = hardest_puzzle();
    let mut plain = puzzle;
    assert!(solve(&mut plain));

    let mut propagated = puzzle;
    let mut masks = generate_bitfield_matrix(&propagated);
    update_board(&mut propagated, &mut masks);
    let solved = solve_sudoku(&mut propagated, &mut masks);
    assert!(solved);
    assert_eq!(propagated, plain);
}
