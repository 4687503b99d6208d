use sudoku::grid::Grid;
use sudoku::solver::{solve_grid, work_list, SolveError};

const PUZZLE: [[u8; 9]; 9] = [
    [0, 4, 0, 6, 0, 0, 0, 3, 2],
    [0, 0, 8, 0, 2, 0, 0, 0, 0],
    [7, 0, 0, 8, 0, 0, 0, 0, 0],
    [0, 0, 0, 5, 0, 0, 0, 0, 0],
    [0, 5, 0, 0, 0, 3, 6, 0, 0],
    [6, 8, 0, 0, 0, 0, 0, 9, 0],
    [0, 9, 5, 0, 0, 6, 0, 7, 0],
    [0, 0, 0, 0, 4, 0, 0, 6, 0],
    [4, 0, 0, 0, 0, 7, 2, 0, 3],
];

const SOLUTION: [[u8; 9]; 9] = [
    [1, 4, 9, 6, 7, 5, 8, 3, 2],
    [5, 3, 8, 1, 2, 9, 7, 4, 6],
    [7, 2, 6, 8, 3, 4, 1, 5, 9],
    [9, 1, 4, 5, 6, 8, 3, 2, 7],
    [2, 5, 7, 4, 9, 3, 6, 1, 8],
    [6, 8, 3, 7, 1, 2, 5, 9, 4],
    [3, 9, 5, 2, 8, 6, 4, 7, 1],
    [8, 7, 2, 3, 4, 1, 9, 6, 5],
    [4, 6, 1, 9, 5, 7, 2, 8, 3],
];

fn build(rows: [[u8; 9]; 9]) -> Grid {
    let mut g = Grid::new();
    for r in 0..9u8 {
        for c in 0..9u8 {
            g.set(r, c, rows[r as usize][c as usize]);
        }
    }
    g
}

fn rows_of(g: &Grid) -> [[u8; 9]; 9] {
    let mut rows = [[0u8; 9]; 9];
    for r in 0..9u8 {
        for c in 0..9u8 {
            rows[r as usize][c as usize] = g.get(r, c);
        }
    }
    rows
}

fn is_permutation(mut cells: Vec<u8>) -> bool {
    cells.sort();
    cells == vec![1, 2, 3, 4, 5, 6, 7, 8, 9]
}

fn is_solved(rows: &[[u8; 9]; 9]) -> bool {
    (0..9).all(|r| is_permutation((0..9).map(|c| rows[r][c]).collect()))
        && (0..9).all(|c| is_permutation((0..9).map(|r| rows[r][c]).collect()))
        && (0..9).all(|b| {
            is_permutation((0..9).map(|i| rows[b / 3 * 3 + i / 3][b % 3 * 3 + i % 3]).collect())
        })
}

#[test]
fn work_list_is_row_major() {
    let mut g = build(SOLUTION);
    g.set(8, 0, 0);
    g.set(0, 8, 0);
    g.set(0, 2, 0);
    g.set(4, 4, 0);
    assert_eq!(work_list(&g), vec![(0, 2), (0, 8), (4, 4), (8, 0)]);
}

#[test]
fn work_list_of_empty_grid_has_every_cell() {
    let work = work_list(&Grid::new());
    assert_eq!(work.len(), 81);
    for (i, cell) in work.iter().enumerate() {
        assert_eq!(*cell, ((i / 9) as u8, (i % 9) as u8));
    }
}

#[test]
fn work_list_of_full_grid_is_empty() {
    assert_eq!(work_list(&build(SOLUTION)), vec![]);
}

#[test]
fn solve_example_puzzle() {
    let mut g = build(PUZZLE);
    assert_eq!(solve_grid(&mut g), Ok(()));
    assert_eq!(rows_of(&g), SOLUTION);
}

#[test]
fn solved_grid_has_each_digit_once_per_row_column_and_block() {
    let mut g = build(PUZZLE);
    assert_eq!(solve_grid(&mut g), Ok(()));
    assert!(is_solved(&rows_of(&g)));
}

#[test]
fn solve_keeps_the_givens() {
    let mut g = build(PUZZLE);
    assert_eq!(solve_grid(&mut g), Ok(()));
    for r in 0..9u8 {
        for c in 0..9u8 {
            let given = PUZZLE[r as usize][c as usize];
            if given != 0 {
                assert_eq!(g.get(r, c), given);
            }
        }
    }
}

#[test]
fn solve_twice_gives_one_grid() {
    let mut a = build(PUZZLE);
    let mut b = build(PUZZLE);
    assert_eq!(solve_grid(&mut a), Ok(()));
    assert_eq!(solve_grid(&mut b), Ok(()));
    assert_eq!(rows_of(&a), rows_of(&b));
}

#[test]
fn solve_empty_grid_gives_the_first_grid() {
    let mut g = Grid::new();
    assert_eq!(solve_grid(&mut g), Ok(()));
    assert_eq!(
        rows_of(&g),
        [
            [1, 2, 3, 4, 5, 6, 7, 8, 9],
            [4, 5, 6, 7, 8, 9, 1, 2, 3],
            [7, 8, 9, 1, 2, 3, 4, 5, 6],
            [2, 1, 4, 3, 6, 5, 8, 9, 7],
            [3, 6, 5, 8, 9, 7, 2, 1, 4],
            [8, 9, 7, 2, 1, 4, 3, 6, 5],
            [5, 3, 1, 6, 4, 2, 9, 7, 8],
            [6, 4, 2, 9, 7, 8, 5, 3, 1],
            [9, 7, 8, 5, 3, 1, 6, 4, 2],
        ]
    );
}

#[test]
fn solve_fills_a_single_empty_cell() {
    let mut g = build(SOLUTION);
    g.set(4, 4, 0);
    assert_eq!(solve_grid(&mut g), Ok(()));
    assert_eq!(rows_of(&g), SOLUTION);
}

#[test]
fn solve_steps_back_when_the_first_choice_fails() {
    // (0,0) could take 1 or 9 by its own peers, but (0,1) then needs the other.
    let mut g = build(SOLUTION);
    g.set(0, 0, 0);
    g.set(0, 2, 0);
    g.set(3, 0, 0);
    g.set(3, 2, 0);
    assert_eq!(solve_grid(&mut g), Ok(()));
    assert!(is_solved(&rows_of(&g)));
    assert_eq!(rows_of(&g), SOLUTION);
}

#[test]
fn solve_full_grid_leaves_it_unchanged() {
    let mut g = build(SOLUTION);
    assert_eq!(solve_grid(&mut g), Ok(()));
    assert_eq!(rows_of(&g), SOLUTION);
}

#[test]
fn solve_reports_equal_givens_in_a_row_as_unsolvable() {
    let mut rows = [[0u8; 9]; 9];
    rows[0] = [5, 5, 1, 2, 3, 4, 6, 7, 0];
    rows[1][8] = 8;
    rows[2][8] = 9;
    let mut g = build(rows);
    assert_eq!(solve_grid(&mut g), Err(SolveError::Unsolvable));
}

#[test]
fn solve_reports_a_cell_without_candidates_as_unsolvable() {
    let mut rows = [[0u8; 9]; 9];
    rows[0] = [1, 2, 3, 4, 5, 6, 7, 8, 0];
    rows[4][8] = 9;
    let mut g = build(rows);
    assert_eq!(solve_grid(&mut g), Err(SolveError::Unsolvable));
}

#[test]
fn solve_leaves_an_unsolvable_grid_as_it_was() {
    let mut rows = [[0u8; 9]; 9];
    rows[0] = [1, 2, 3, 4, 5, 6, 7, 8, 0];
    rows[4][8] = 9;
    let mut g = build(rows);
    assert!(solve_grid(&mut g).is_err());
    assert_eq!(rows_of(&g), rows);
}

#[test]
fn solve_reports_failure_after_stepping_back() {
    // The last two cells of row 0 can only take 8 and 9, and both columns hold 9.
    let mut rows = [[0u8; 9]; 9];
    rows[0] = [1, 2, 3, 4, 5, 6, 7, 0, 0];
    rows[3][7] = 9;
    rows[4][8] = 9;
    let mut g = build(rows);
    assert_eq!(solve_grid(&mut g), Err(SolveError::Unsolvable));
    assert_eq!(rows_of(&g), rows);
}
