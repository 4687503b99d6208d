use sudoku::candidate::next_color;
use sudoku::grid::Grid;

fn grid_of(rows: [[u8; 9]; 9]) -> Grid {
    let mut g = Grid::new();
    for r in 0..9u8 {
        for c in 0..9u8 {
            g.set(r, c, rows[r as usize][c as usize]);
        }
    }
    g
}

#[test]
fn new_grid_is_empty() {
    let g = Grid::new();
    for r in 0..9u8 {
        for c in 0..9u8 {
            assert_eq!(g.get(r, c), 0);
        }
    }
}

#[test]
fn set_changes_one_cell() {
    let mut g = Grid::new();
    g.set(3, 7, 5);
    for r in 0..9u8 {
        for c in 0..9u8 {
            assert_eq!(g.get(r, c), if (r, c) == (3, 7) { 5 } else { 0 });
        }
    }
}

#[test]
fn next_color_on_empty_grid_is_one() {
    let mut g = Grid::new();
    assert!(next_color(&mut g, 4, 4, 1));
    assert_eq!(g.get(4, 4), 1);
}

#[test]
fn next_color_skips_row_column_and_block() {
    let mut g = Grid::new();
    g.set(4, 0, 1);
    g.set(4, 8, 2);
    g.set(0, 4, 3);
    g.set(3, 3, 4);
    g.set(5, 5, 5);
    assert!(next_color(&mut g, 4, 4, 1));
    assert_eq!(g.get(4, 4), 6);
}

#[test]
fn next_color_ignores_cells_that_are_no_peers() {
    let mut g = Grid::new();
    g.set(0, 0, 1);
    g.set(8, 8, 1);
    g.set(2, 6, 1);
    assert!(next_color(&mut g, 4, 4, 1));
    assert_eq!(g.get(4, 4), 1);
}

#[test]
fn next_color_starts_at_start() {
    let mut g = Grid::new();
    assert!(next_color(&mut g, 0, 0, 4));
    assert_eq!(g.get(0, 0), 4);
    let mut h = Grid::new();
    h.set(0, 5, 4);
    h.set(5, 0, 5);
    assert!(next_color(&mut h, 0, 0, 4));
    assert_eq!(h.get(0, 0), 6);
}

#[test]
fn next_color_with_start_zero_begins_at_one() {
    let mut g = Grid::new();
    assert!(next_color(&mut g, 0, 0, 0));
    assert_eq!(g.get(0, 0), 1);
}

#[test]
fn next_color_with_start_above_nine_clears_the_cell() {
    let mut g = Grid::new();
    g.set(2, 2, 9);
    assert!(!next_color(&mut g, 2, 2, 10));
    assert_eq!(g.get(2, 2), 0);
}

#[test]
fn next_color_with_nothing_left_clears_the_cell() {
    let mut g = grid_of([
        [0, 1, 2, 3, 0, 0, 0, 0, 0],
        [4, 5, 6, 0, 0, 0, 0, 0, 0],
        [0, 0, 0, 0, 0, 0, 0, 0, 0],
        [7, 0, 0, 0, 0, 0, 0, 0, 0],
        [8, 0, 0, 0, 0, 0, 0, 0, 0],
        [9, 0, 0, 0, 0, 0, 0, 0, 0],
        [0, 0, 0, 0, 0, 0, 0, 0, 0],
        [0, 0, 0, 0, 0, 0, 0, 0, 0],
        [0, 0, 0, 0, 0, 0, 0, 0, 0],
    ]);
    let before = g;
    assert!(!next_color(&mut g, 0, 0, 1));
    for r in 0..9u8 {
        for c in 0..9u8 {
            assert_eq!(g.get(r, c), before.get(r, c));
        }
    }
}

#[test]
fn next_color_finds_the_single_missing_digit() {
    for missing in 1..=9u8 {
        let mut g = Grid::new();
        let mut others: Vec<u8> = (1..=9u8).filter(|d| *d != missing).collect();
        // three in the row, three in the column, two in the block
        g.set(4, 0, others.remove(0));
        g.set(4, 1, others.remove(0));
        g.set(4, 8, others.remove(0));
        g.set(0, 4, others.remove(0));
        g.set(1, 4, others.remove(0));
        g.set(8, 4, others.remove(0));
        g.set(3, 3, others.remove(0));
        g.set(5, 5, others.remove(0));
        assert!(next_color(&mut g, 4, 4, 1));
        assert_eq!(g.get(4, 4), missing);
    }
}

#[test]
fn next_color_misses_a_digit_below_start() {
    let mut g = Grid::new();
    for (i, d) in [1u8, 2, 4, 5, 6, 7, 8, 9].iter().enumerate() {
        g.set(0, 1 + i as u8, *d);
    }
    assert!(!next_color(&mut g, 0, 0, 4));
    assert_eq!(g.get(0, 0), 0);
}

#[test]
fn next_color_counts_the_color_of_the_cell_itself() {
    let mut g = Grid::new();
    g.set(6, 6, 1);
    assert!(next_color(&mut g, 6, 6, 1));
    assert_eq!(g.get(6, 6), 2);
}

#[test]
fn next_color_leaves_other_cells() {
    let mut g = Grid::new();
    g.set(0, 1, 3);
    g.set(7, 7, 9);
    assert!(next_color(&mut g, 0, 0, 3));
    assert_eq!(g.get(0, 0), 4);
    assert_eq!(g.get(0, 1), 3);
    assert_eq!(g.get(7, 7), 9);
    assert_eq!(g.get(1, 1), 0);
}
