//! The 9×9 grid of colors and the peer relation between its cells.

use vstd::prelude::*;

verus! {

/// A 9×9 grid of colors, stored row by row. Color 0 marks an empty cell;
/// colors 1 to 9 are placed digits.
#[derive(Clone, Copy, Debug)]
pub struct Grid {
    cells: [u8; 81],
}

impl View for Grid {
    type V = Seq<u8>;

    /// The 81 colors, row by row.
    closed spec fn view(&self) -> Seq<u8> {
        self.cells@
    }
}

/// Whether `(row, col)` names a cell of the grid.
pub open spec fn in_grid(row: int, col: int) -> bool {
    0 <= row < 9 && 0 <= col < 9
}

/// Row-major position of a cell, from 0 to 80.
pub open spec fn pos(row: int, col: int) -> int {
    row * 9 + col
}

/// Two cells are peers when they share a row, a column or a 3×3 block.
/// Every cell is a peer of itself.
pub open spec fn peers(r1: int, c1: int, r2: int, c2: int) -> bool {
    r1 == r2 || c1 == c2 || (r1 / 3 == r2 / 3 && c1 / 3 == c2 / 3)
}

/// The colors of the grid whose cells are all empty.
pub open spec fn blank() -> Seq<u8> {
    Seq::new(81, |q: int| 0u8)
}

impl Grid {
    /// The color at `(row, col)`.
    pub open spec fn at(self, row: int, col: int) -> int {
        self@[pos(row, col)] as int
    }

    /// Every cell holds a color from 0 to 9.
    pub open spec fn wf(self) -> bool {
        &&& self@.len() == 81
        &&& forall|q: int| 0 <= q < 81 ==> #[trigger] self@[q] <= 9
    }

    /// The grid with every cell empty.
    pub fn new() -> (g: Grid)
        ensures
            g.wf(),
            g@ == blank(),
    {
        let cells = [0u8;81];
        assert(cells@ =~= blank());
        Grid { cells }
    }

    /// Reads the color at `(row, col)`.
    pub fn get(&self, row: u8, col: u8) -> (color: u8)
        requires
            row < 9,
            col < 9,
        ensures
            color as int == self.at(row as int, col as int),
    {
        self.cells[row as usize * 9 + col as usize]
    }

    /// Writes `color` at `(row, col)` and leaves every other cell as it was.
    pub fn set(&mut self, row: u8, col: u8, color: u8)
        requires
            old(self).wf(),
            row < 9,
            col < 9,
            color <= 9,
        ensures
            final(self).wf(),
            final(self)@ == old(self)@.update(pos(row as int, col as int), color),
    {
        self.cells[row as usize * 9 + col as usize] = color;
    }
}

} // verus!
