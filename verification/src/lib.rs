//! A 9×9 Sudoku solver: candidate elimination plus chronological
//! backtracking over the initially empty cells, in row-major order.

pub mod grid;
pub mod candidate;
pub mod solver;
pub mod theorems;
pub mod text;
