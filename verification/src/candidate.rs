//! Candidate computation: the smallest color that no peer of a cell holds.

use vstd::prelude::*;
use crate::grid::{Grid, in_grid, peers, pos};

verus! {

/// Some peer of `(row, col)`, the cell itself included, holds color `d`.
pub open spec fn used(g: Grid, row: int, col: int, d: int) -> bool {
    exists|r: int, c: int| in_grid(r, c) && peers(row, col, r, c) && #[trigger] g.at(r, c) == d
}

/// Color `d` may be placed at `(row, col)` when colors below `start` are
/// ruled out: it is a digit, not below `start`, and no peer holds it.
pub open spec fn feasible(g: Grid, row: int, col: int, start: int, d: int) -> bool {
    1 <= d <= 9 && start <= d && !used(g, row, col, d)
}

/// Top-left corner of the 3×3 block of a row or column index.
spec fn block_origin(i: int) -> int {
    i / 3 * 3
}

/// Step `i` of the neighbourhood walk around `(row, col)` meets color `d`.
/// The step visits `(i, col)`, `(row, i)` and the `i`-th cell of the block.
spec fn step_meets(g: Grid, row: int, col: int, d: int, i: int) -> bool {
    ||| g.at(i, col) == d
    ||| g.at(row, i) == d
    ||| g.at(block_origin(row) + i / 3, block_origin(col) + i % 3) == d
}

/// One of the first `n` steps of the walk around `(row, col)` meets color `d`.
spec fn met(g: Grid, row: int, col: int, d: int, n: int) -> bool {
    exists|i: int| 0 <= i < n && #[trigger] step_meets(g, row, col, d, i)
}

/// The full walk meets exactly the colors that peers hold.
proof fn lemma_walk_covers_peers(g: Grid, row: int, col: int, d: int)
    requires
        in_grid(row, col),
    ensures
        met(g, row, col, d, 9) <==> used(g, row, col, d),
{
    if met(g, row, col, d, 9) {
        let i = choose|i: int| 0 <= i < 9 && #[trigger] step_meets(g, row, col, d, i);
        let br = block_origin(row) + i / 3;
        let bc = block_origin(col) + i % 3;
        if g.at(i, col) == d {
            assert(in_grid(i, col) && peers(row, col, i, col));
        } else if g.at(row, i) == d {
            assert(in_grid(row, i) && peers(row, col, row, i));
        } else {
            assert(in_grid(br, bc) && peers(row, col, br, bc) && g.at(br, bc) == d);
        }
    }
    if used(g, row, col, d) {
        let (r, c) = choose|r: int, c: int|
            in_grid(r, c) && peers(row, col, r, c) && #[trigger] g.at(r, c) == d;
        if c == col {
            assert(step_meets(g, row, col, d, r));
        } else if r == row {
            assert(step_meets(g, row, col, d, c));
        } else {
            let i = (r - block_origin(row)) * 3 + (c - block_origin(col));
            assert(0 <= i < 9);
            assert(block_origin(row) + i / 3 == r);
            assert(block_origin(col) + i % 3 == c);
            assert(step_meets(g, row, col, d, i));
        }
    }
}

/// Clears the flag of the color at `(r, c)`, unless the cell is empty.
fn drop_color(g: &Grid, avail: &mut [bool; 10], r: u8, c: u8)
    requires
        g.wf(),
        r < 9,
        c < 9,
    ensures
        forall|d: int|
            0 <= d < 10 ==> #[trigger] final(avail)@[d] == (old(avail)@[d] && (d == 0 || g.at(
                r as int,
                c as int,
            ) != d)),
{
    let color = g.get(r, c);
    if color != 0 {
        assert(g@[pos(r as int, c as int)] <= 9);
        avail[color as usize] = false;
    }
}

/// Clears the flag of every color from 1 to 9 that a peer of `(row, col)` holds.
fn drop_colors(g: &Grid, avail: &mut [bool; 10], row: u8, col: u8)
    requires
        g.wf(),
        row < 9,
        col < 9,
    ensures
        forall|d: int|
            1 <= d < 10 ==> #[trigger] final(avail)@[d] == (old(avail)@[d] && !used(
                *g,
                row as int,
                col as int,
                d,
            )),
        final(avail)@[0] == old(avail)@[0],
{
    let row0: u8 = row / 3 * 3;
    let col0: u8 = col / 3 * 3;
    let ghost initial = avail@;
    let mut idx: u8 = 0;
    while idx < 9
        invariant
            g.wf(),
            row < 9,
            col < 9,
            idx <= 9,
            row0 as int == block_origin(row as int),
            col0 as int == block_origin(col as int),
            avail@[0] == initial[0],
            forall|d: int|
                1 <= d < 10 ==> #[trigger] avail@[d] == (initial[d] && !met(
                    *g,
                    row as int,
                    col as int,
                    d,
                    idx as int,
                )),
        decreases 9 - idx,
    {
        let ghost before = avail@;
        drop_color(g, avail, idx, col);
        let ghost mid1 = avail@;
        drop_color(g, avail, row, idx);
        let ghost mid2 = avail@;
        drop_color(g, avail, row0 + idx / 3, col0 + idx % 3);
        proof {
            let i = idx as int;
            let (rw, cl) = (row as int, col as int);
            assert forall|d: int| 1 <= d < 10 implies #[trigger] avail@[d] == (initial[d] && !met(
                *g,
                rw,
                cl,
                d,
                i + 1,
            )) by {
                let here = step_meets(*g, rw, cl, d, i);
                assert(avail@[d] == (mid2[d] && g.at(block_origin(rw) + i / 3, block_origin(cl) + i % 3) != d));
                assert(mid2[d] == (mid1[d] && g.at(rw, i) != d));
                assert(mid1[d] == (before[d] && g.at(i, cl) != d));
                assert(before[d] == (initial[d] && !met(*g, rw, cl, d, i)));
                assert(met(*g, rw, cl, d, i + 1) == (met(*g, rw, cl, d, i) || here)) by {
                    if met(*g, rw, cl, d, i) {
                        let k = choose|k: int| 0 <= k < i && #[trigger] step_meets(*g, rw, cl, d, k);
                        assert(0 <= k < i + 1);
                    }
                }
            }
        }
        idx = idx + 1;
    }
    proof {
        assert forall|d: int| 1 <= d < 10 implies #[trigger] avail@[d] == (initial[d] && !used(
            *g,
            row as int,
            col as int,
            d,
        )) by {
            lemma_walk_covers_peers(*g, row as int, col as int, d);
        }
    }
}

/// Finds the smallest color from `start` up that no peer of `(row, col)`
/// holds, and writes it into the cell. Where there is none, the cell is
/// cleared. The cell's own color counts like that of any peer.
pub fn next_color(g: &mut Grid, row: u8, col: u8, start: u8) -> (found: bool)
    requires
        old(g).wf(),
        row < 9,
        col < 9,
    ensures
        final(g).wf(),
        final(g)@ == old(g)@.update(pos(row as int, col as int), final(g)@[pos(row as int, col as int)]),
        found <==> exists|d: int| feasible(*old(g), row as int, col as int, start as int, d),
        found ==> feasible(
            *old(g),
            row as int,
            col as int,
            start as int,
            final(g).at(row as int, col as int),
        ),
        found ==> forall|d: int|
            feasible(*old(g), row as int, col as int, start as int, d) ==> final(g).at(
                row as int,
                col as int,
            ) <= d,
        !found ==> final(g).at(row as int, col as int) == 0,
{
    if start < 10 {
        let mut avail = [false;10];
        let mut color: u8 = start;
        while color < 10
            invariant
                start <= color <= 10,
                forall|d: int| 0 <= d < 10 ==> #[trigger] avail@[d] == (start <= d < color),
            decreases 10 - color,
        {
            avail[color as usize] = true;
            color = color + 1;
        }
        drop_colors(g, &mut avail, row, col);
        let mut i: u8 = 1;
        while i < 10
            invariant
                1 <= i <= 10,
                g.wf(),
                *g == *old(g),
                row < 9,
                col < 9,
                forall|d: int|
                    1 <= d < 10 ==> avail@[d] == #[trigger] feasible(
                        *old(g),
                        row as int,
                        col as int,
                        start as int,
                        d,
                    ),
                forall|d: int|
                    1 <= d < i ==> !#[trigger] feasible(
                        *old(g),
                        row as int,
                        col as int,
                        start as int,
                        d,
                    ),
            decreases 10 - i,
        {
            if avail[i as usize] {
                assert(feasible(*old(g), row as int, col as int, start as int, i as int));
                g.set(row, col, i);
                return true;
            }
            i = i + 1;
        }
    }
    g.set(row, col, 0);
    false
}

} // verus!
