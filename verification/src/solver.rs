//! The backtracking driver: fills the initially empty cells in row-major
//! order and steps back whenever a cell has no candidate left.

use vstd::prelude::*;
use crate::grid::{Grid, in_grid, peers, pos};
use crate::candidate::{feasible, used, next_color};
use crate::theorems::{full, lemma_full_grid_is_fixed};

verus! {

/// Why solving failed.
#[derive(Clone, Copy, Debug, PartialEq, Eq, Structural)]
pub enum SolveError {
    /// The search space is exhausted: no assignment of the empty cells is
    /// consistent with the given ones.
    Unsolvable,
}

/// The color at `(row, col)` is a digit that no other peer of the cell holds.
pub open spec fn placed(g: Grid, row: int, col: int) -> bool {
    &&& 1 <= g.at(row, col) <= 9
    &&& forall|r: int, c: int|
        in_grid(r, c) && peers(row, col, r, c) && !(r == row && c == col) ==> #[trigger] g.at(r, c)
            != g.at(row, col)
}

/// `s` completes `g0`: it keeps every given color of `g0`, and every cell
/// that `g0` leaves empty is placed in `s`.
pub open spec fn completes(s: Grid, g0: Grid) -> bool {
    &&& s.wf()
    &&& forall|r: int, c: int|
        #![trigger s.at(r, c)]
        #![trigger g0.at(r, c)]
        in_grid(r, c) ==> (g0.at(r, c) != 0 ==> s.at(r, c) == g0.at(r, c)) && (g0.at(r, c) == 0
            ==> placed(s, r, c))
}

/// `a` and `b` hold the same colors at all positions before `limit`.
pub open spec fn agree(a: Grid, b: Grid, limit: int) -> bool {
    forall|r: int, c: int|
        #![trigger a.at(r, c)]
        #![trigger b.at(r, c)]
        in_grid(r, c) && pos(r, c) < limit ==> a.at(r, c) == b.at(r, c)
}

/// Up to position `limit`, `a` is not after `b` in the lexicographic order
/// of the row-major reading: at the first position where they differ, if it
/// is before `limit`, `a` holds the smaller color.
pub open spec fn lex_le_upto(a: Grid, b: Grid, limit: int) -> bool {
    forall|r: int, c: int|
        #![trigger a.at(r, c)]
        #![trigger b.at(r, c)]
        in_grid(r, c) && pos(r, c) < limit && agree(a, b, pos(r, c)) ==> a.at(r, c) <= b.at(r, c)
}

/// `a` is not after `b` in the lexicographic order of the row-major reading.
pub open spec fn lex_le(a: Grid, b: Grid) -> bool {
    lex_le_upto(a, b, 81)
}

/// `w` lists, in row-major order, exactly the empty cells of `g` before
/// position `limit`.
pub open spec fn lists_upto(w: Seq<(u8, u8)>, g: Grid, limit: int) -> bool {
    &&& forall|i: int|
        0 <= i < w.len() ==> {
            let (r, c) = #[trigger] w[i];
            in_grid(r as int, c as int) && g.at(r as int, c as int) == 0 && pos(r as int, c as int)
                < limit
        }
    &&& forall|i: int, j: int|
        0 <= i < j < w.len() ==> pos((#[trigger] w[i]).0 as int, w[i].1 as int) < pos(
            (#[trigger] w[j]).0 as int,
            w[j].1 as int,
        )
    &&& forall|r: int, c: int|
        in_grid(r, c) && #[trigger] g.at(r, c) == 0 && pos(r, c) < limit ==> listed(w, r, c)
}

/// `(row, col)` occurs in `w`.
pub open spec fn listed(w: Seq<(u8, u8)>, row: int, col: int) -> bool {
    exists|i: int| 0 <= i < w.len() && (#[trigger] w[i]).0 == row && w[i].1 == col
}

/// `w` is the work list of `g`: its empty cells, in row-major order.
pub open spec fn is_work_list(w: Seq<(u8, u8)>, g: Grid) -> bool {
    lists_upto(w, g, 81)
}

/// Collects the empty cells of `g` in row-major order.
pub fn work_list(g: &Grid) -> (work: Vec<(u8, u8)>)
    requires
        g.wf(),
    ensures
        is_work_list(work@, *g),
{
    let mut work: Vec<(u8, u8)> = Vec::new();
    let mut row: u8 = 0;
    while row < 9
        invariant
            g.wf(),
            row <= 9,
            lists_upto(work@, *g, pos(row as int, 0)),
        decreases 9 - row,
    {
        let mut col: u8 = 0;
        while col < 9
            invariant
                g.wf(),
                row < 9,
                col <= 9,
                lists_upto(work@, *g, pos(row as int, col as int)),
            decreases 9 - col,
        {
            let ghost before = work@;
            if g.get(row, col) == 0 {
                work.push((row, col));
                proof {
                    assert(work@[before.len() as int] == (row, col));
                    assert forall|r: int, c: int|
                        in_grid(r, c) && #[trigger] g.at(r, c) == 0 && pos(r, c) < pos(
                            row as int,
                            col as int + 1,
                        ) implies listed(work@, r, c) by {
                        if pos(r, c) < pos(row as int, col as int) {
                            assert(listed(before, r, c));
                            let i = choose|i: int|
                                0 <= i < before.len() && (#[trigger] before[i]).0 == r
                                    && before[i].1 == c;
                            assert(work@[i] == before[i]);
                        } else {
                            assert(r == row && c == col);
                        }
                    }
                }
            } else {
                proof {
                    assert forall|r: int, c: int|
                        in_grid(r, c) && #[trigger] g.at(r, c) == 0 && pos(r, c) < pos(
                            row as int,
                            col as int + 1,
                        ) implies listed(work@, r, c) by {
                        if pos(r, c) >= pos(row as int, col as int) {
                            assert(r == row && c == col);
                        }
                    }
                }
            }
            col = col + 1;
        }
        row = row + 1;
    }
    work
}

/// Position of the cell under the cursor: that of `w[ptr]`, 81 once the
/// cursor is past the list, and -1 before it.
spec fn front(w: Seq<(u8, u8)>, ptr: int) -> int {
    if ptr < 0 {
        -1
    } else if ptr < w.len() {
        pos(w[ptr].0 as int, w[ptr].1 as int)
    } else {
        81
    }
}

/// The state of the search with the cursor at position `limit` over the
/// puzzle `g0`: givens are kept, empty cells before the cursor are placed,
/// empty cells after it are still empty.
spec fn search_state(g: Grid, g0: Grid, limit: int) -> bool {
    &&& g.wf()
    &&& g0.wf()
    &&& forall|r: int, c: int|
        #![trigger g.at(r, c)]
        #![trigger g0.at(r, c)]
        in_grid(r, c) ==> {
            &&& g0.at(r, c) != 0 ==> g.at(r, c) == g0.at(r, c)
            &&& g0.at(r, c) == 0 && pos(r, c) > limit ==> g.at(r, c) == 0
            &&& g0.at(r, c) == 0 && pos(r, c) < limit ==> placed(g, r, c)
        }
}

/// Completion `t` has not been passed by the search: up to the cursor `g`
/// is not after `t`, and where `t` agrees with `g` before the cursor, it
/// holds a larger color than `g` at the cursor.
spec fn ahead(t: Grid, g: Grid, w: Seq<(u8, u8)>, ptr: int) -> bool {
    &&& lex_le_upto(g, t, front(w, ptr))
    &&& 0 <= ptr < w.len() && agree(g, t, front(w, ptr)) ==> g.at(
        w[ptr].0 as int,
        w[ptr].1 as int,
    ) < t.at(w[ptr].0 as int, w[ptr].1 as int)
}

/// No empty cell of the puzzle lies strictly between two neighbouring
/// entries of its work list, before the first or after the last.
proof fn lemma_no_gap(w: Seq<(u8, u8)>, g0: Grid, ptr: int, r: int, c: int)
    requires
        is_work_list(w, g0),
        0 <= ptr <= w.len(),
        in_grid(r, c),
        front(w, ptr - 1) < pos(r, c) < front(w, ptr),
    ensures
        g0.at(r, c) != 0,
{
    if g0.at(r, c) == 0 {
        assert(listed(w, r, c));
        let i = choose|i: int| 0 <= i < w.len() && (#[trigger] w[i]).0 == r && w[i].1 == c;
        if i >= ptr {
            if i > ptr {
                assert(pos(w[ptr].0 as int, w[ptr].1 as int) < pos(w[i].0 as int, w[i].1 as int));
            }
        } else {
            if i < ptr - 1 {
                assert(pos(w[i].0 as int, w[i].1 as int) < pos(
                    w[ptr - 1].0 as int,
                    w[ptr - 1].1 as int,
                ));
            }
        }
    }
}

/// The color that a completion holds at the cursor, where it agrees with
/// the search before the cursor, is held by no peer in the search state.
proof fn lemma_value_free(t: Grid, g: Grid, g0: Grid, row: int, col: int)
    requires
        search_state(g, g0, pos(row, col)),
        in_grid(row, col),
        g0.at(row, col) == 0,
        completes(t, g0),
        agree(g, t, pos(row, col)),
        t.at(row, col) != g.at(row, col),
    ensures
        !used(g, row, col, t.at(row, col)),
{
    let x = t.at(row, col);
    assert(placed(t, row, col));
    if used(g, row, col, x) {
        let (r, c) = choose|r: int, c: int|
            in_grid(r, c) && peers(row, col, r, c) && #[trigger] g.at(r, c) == x;
        assert(!(r == row && c == col));
        assert(t.at(r, c) == g.at(r, c)) by {
            if g0.at(r, c) == 0 {
                assert(pos(r, c) < pos(row, col));
            }
        }
        assert(t.at(r, c) != t.at(row, col));
    }
}

/// A completion that the search has not passed cannot sit at a cursor
/// whose cell has no feasible color left.
proof fn lemma_dead_end(t: Grid, g: Grid, g0: Grid, w: Seq<(u8, u8)>, ptr: int, start: int)
    requires
        0 <= ptr < w.len() ==> start == g.at(w[ptr].0 as int, w[ptr].1 as int) + 1,
        is_work_list(w, g0),
        0 <= ptr < w.len(),
        search_state(g, g0, front(w, ptr)),
        completes(t, g0),
        ahead(t, g, w, ptr),
        forall|d: int|
            !feasible(g, w[ptr].0 as int, w[ptr].1 as int, start, d),
    ensures
        !agree(g, t, front(w, ptr)),
{
    let (row, col) = (w[ptr].0 as int, w[ptr].1 as int);
    if agree(g, t, front(w, ptr)) {
        lemma_value_free(t, g, g0, row, col);
        assert(placed(t, row, col));
        assert(feasible(g, row, col, start, t.at(row, col)));
    }
}

/// After a color was found for the cell under the cursor, the search state
/// holds with the cursor one step further.
proof fn lemma_advance(g: Grid, g2: Grid, g0: Grid, w: Seq<(u8, u8)>, ptr: int, start: int)
    requires
        0 <= ptr < w.len() ==> start == g.at(w[ptr].0 as int, w[ptr].1 as int) + 1,
        is_work_list(w, g0),
        0 <= ptr < w.len(),
        search_state(g, g0, front(w, ptr)),
        g2.wf(),
        g2@ == g@.update(front(w, ptr), g2@[front(w, ptr)]),
        feasible(
            g,
            w[ptr].0 as int,
            w[ptr].1 as int,
            start,
            g2.at(w[ptr].0 as int, w[ptr].1 as int),
        ),
    ensures
        search_state(g2, g0, front(w, ptr + 1)),
{
    let (row, col) = (w[ptr].0 as int, w[ptr].1 as int);
    let d = g2.at(row, col);
    assert forall|r: int, c: int| in_grid(r, c) && !(r == row && c == col) implies #[trigger] g2.at(
        r,
        c,
    ) == g.at(r, c) by {}
    assert forall|r: int, c: int|
        in_grid(r, c) && peers(row, col, r, c) implies #[trigger] g.at(r, c) != d by {}
    assert forall|r: int, c: int| #![trigger g2.at(r, c)] #![trigger g0.at(r, c)] in_grid(r, c) implies {
        &&& g0.at(r, c) != 0 ==> g2.at(r, c) == g0.at(r, c)
        &&& g0.at(r, c) == 0 && pos(r, c) > front(w, ptr + 1) ==> g2.at(r, c) == 0
        &&& g0.at(r, c) == 0 && pos(r, c) < front(w, ptr + 1) ==> placed(g2, r, c)
    } by {
        if g0.at(r, c) == 0 && pos(r, c) < front(w, ptr + 1) {
            if pos(r, c) > front(w, ptr) {
                lemma_no_gap(w, g0, ptr + 1, r, c);
            } else if pos(r, c) < front(w, ptr) {
                assert(placed(g, r, c));
                assert(peers(r, c, row, col) ==> peers(row, col, r, c));
                assert(placed(g2, r, c));
            } else {
                assert(r == row && c == col);
                assert(placed(g2, r, c));
            }
        }
        if ptr + 1 < w.len() {
            assert(pos(w[ptr].0 as int, w[ptr].1 as int) < pos(
                w[ptr + 1].0 as int,
                w[ptr + 1].1 as int,
            ));
        }
    }
}

/// After a color was found for the cell under the cursor, a completion
/// that had not been passed is still not passed with the cursor one step
/// further.
proof fn lemma_advance_ahead(t: Grid, g: Grid, g2: Grid, g0: Grid, w: Seq<(u8, u8)>, ptr: int, start: int)
    requires
        0 <= ptr < w.len() ==> start == g.at(w[ptr].0 as int, w[ptr].1 as int) + 1,
        is_work_list(w, g0),
        0 <= ptr < w.len(),
        search_state(g, g0, front(w, ptr)),
        g2.wf(),
        g2@ == g@.update(front(w, ptr), g2@[front(w, ptr)]),
        forall|d: int|
            feasible(
                g,
                w[ptr].0 as int,
                w[ptr].1 as int,
                start,
                d,
            ) ==> g2.at(w[ptr].0 as int, w[ptr].1 as int) <= d,
        completes(t, g0),
        ahead(t, g, w, ptr),
    ensures
        ahead(t, g2, w, ptr + 1),
{
    let (row, col) = (w[ptr].0 as int, w[ptr].1 as int);
    let f = front(w, ptr);
    let f2 = front(w, ptr + 1);
    if ptr + 1 < w.len() {
        assert(pos(w[ptr].0 as int, w[ptr].1 as int) < pos(
            w[ptr + 1].0 as int,
            w[ptr + 1].1 as int,
        ));
    }
    assert forall|r: int, c: int| in_grid(r, c) && !(r == row && c == col) implies #[trigger] g2.at(
        r,
        c,
    ) == g.at(r, c) by {}
    assert forall|lim: int| lim <= f && agree(g2, t, lim) implies agree(g, t, lim) by {
        assert forall|r: int, c: int|
            #![trigger g.at(r, c)]
            #![trigger t.at(r, c)]
            in_grid(r, c) && pos(r, c) < lim implies g.at(r, c) == t.at(r, c) by {
            assert(g2.at(r, c) == t.at(r, c));
        }
    }
    assert forall|r: int, c: int|
        #![trigger g2.at(r, c)]
        #![trigger t.at(r, c)]
        in_grid(r, c) && pos(r, c) < f2 && agree(g2, t, pos(r, c)) implies g2.at(r, c) <= t.at(
            r,
            c,
        ) by {
        if pos(r, c) < f {
            assert(agree(g, t, pos(r, c)));
            assert(g.at(r, c) <= t.at(r, c));
        } else if pos(r, c) == f {
            assert(r == row && c == col);
            assert(agree(g, t, f));
            lemma_value_free(t, g, g0, row, col);
            assert(placed(t, row, col));
            assert(feasible(g, row, col, start, t.at(row, col)));
        } else {
            lemma_no_gap(w, g0, ptr + 1, r, c);
        }
    }
    if ptr + 1 < w.len() {
        let (r2, c2) = (w[ptr + 1].0 as int, w[ptr + 1].1 as int);
        assert(g0.at(r2, c2) == 0);
        assert(placed(t, r2, c2));
        assert(g2.at(r2, c2) == 0);
    }
}

/// After the cell under the cursor ran out of colors and was cleared, the
/// search state holds with the cursor one step back.
proof fn lemma_retreat(g: Grid, g2: Grid, g0: Grid, w: Seq<(u8, u8)>, ptr: int)
    requires
        is_work_list(w, g0),
        0 <= ptr < w.len(),
        search_state(g, g0, front(w, ptr)),
        g2.wf(),
        g2@ == g@.update(front(w, ptr), 0u8),
    ensures
        search_state(g2, g0, front(w, ptr - 1)),
{
    let (row, col) = (w[ptr].0 as int, w[ptr].1 as int);
    assert forall|r: int, c: int| in_grid(r, c) && !(r == row && c == col) implies #[trigger] g2.at(
        r,
        c,
    ) == g.at(r, c) by {}
    assert(g2.at(row, col) == 0);
    if ptr >= 1 {
        assert(pos(w[ptr - 1].0 as int, w[ptr - 1].1 as int) < pos(
            w[ptr].0 as int,
            w[ptr].1 as int,
        ));
    }
    assert forall|r: int, c: int| #![trigger g2.at(r, c)] #![trigger g0.at(r, c)] in_grid(r, c) implies {
        &&& g0.at(r, c) != 0 ==> g2.at(r, c) == g0.at(r, c)
        &&& g0.at(r, c) == 0 && pos(r, c) > front(w, ptr - 1) ==> g2.at(r, c) == 0
        &&& g0.at(r, c) == 0 && pos(r, c) < front(w, ptr - 1) ==> placed(g2, r, c)
    } by {
        if g0.at(r, c) == 0 {
            if front(w, ptr - 1) < pos(r, c) < front(w, ptr) {
                lemma_no_gap(w, g0, ptr, r, c);
            }
            if pos(r, c) < front(w, ptr - 1) {
                assert(placed(g, r, c));
                assert(placed(g2, r, c));
            }
        }
    }
}

/// After the cell under the cursor ran out of colors and was cleared, a
/// completion that had not been passed is still not passed with the cursor
/// one step back.
proof fn lemma_retreat_ahead(t: Grid, g: Grid, g2: Grid, g0: Grid, w: Seq<(u8, u8)>, ptr: int, start: int)
    requires
        0 <= ptr < w.len() ==> start == g.at(w[ptr].0 as int, w[ptr].1 as int) + 1,
        is_work_list(w, g0),
        1 <= ptr < w.len(),
        search_state(g, g0, front(w, ptr)),
        g2.wf(),
        g2@ == g@.update(front(w, ptr), 0u8),
        forall|d: int|
            !feasible(g, w[ptr].0 as int, w[ptr].1 as int, start, d),
        completes(t, g0),
        ahead(t, g, w, ptr),
    ensures
        ahead(t, g2, w, ptr - 1),
{
    let (row, col) = (w[ptr].0 as int, w[ptr].1 as int);
    let (pr, pc) = (w[ptr - 1].0 as int, w[ptr - 1].1 as int);
    let f = front(w, ptr);
    let f2 = front(w, ptr - 1);
    assert(f2 < f);
    assert forall|r: int, c: int| in_grid(r, c) && !(r == row && c == col) implies #[trigger] g2.at(
        r,
        c,
    ) == g.at(r, c) by {}
    assert forall|lim: int| lim <= f && agree(g2, t, lim) implies agree(g, t, lim) by {
        assert forall|r: int, c: int|
            #![trigger g.at(r, c)]
            #![trigger t.at(r, c)]
            in_grid(r, c) && pos(r, c) < lim implies g.at(r, c) == t.at(r, c) by {
            assert(g2.at(r, c) == t.at(r, c));
        }
    }
    assert forall|r: int, c: int|
        #![trigger g2.at(r, c)]
        #![trigger t.at(r, c)]
        in_grid(r, c) && pos(r, c) < f2 && agree(g2, t, pos(r, c)) implies g2.at(r, c) <= t.at(
            r,
            c,
        ) by {
        assert(agree(g, t, pos(r, c)));
        assert(g.at(r, c) <= t.at(r, c));
    }
    if agree(g2, t, f2) {
        assert(agree(g, t, f2));
        assert(g.at(pr, pc) <= t.at(pr, pc));
        if g.at(pr, pc) == t.at(pr, pc) {
            assert forall|r: int, c: int|
                #![trigger g.at(r, c)]
                #![trigger t.at(r, c)]
                in_grid(r, c) && pos(r, c) < f implies g.at(r, c) == t.at(r, c) by {
                if pos(r, c) > f2 {
                    lemma_no_gap(w, g0, ptr, r, c);
                } else if pos(r, c) == f2 {
                    assert(r == pr && c == pc);
                }
            }
            assert(agree(g, t, f));
            lemma_dead_end(t, g, g0, w, ptr, start);
        }
        assert(g2.at(pr, pc) == g.at(pr, pc));
    }
}

/// With the cursor on the first entry and no color left for it, the
/// puzzle has no completion.
proof fn lemma_exhausted(t: Grid, g: Grid, g0: Grid, w: Seq<(u8, u8)>, start: int)
    requires
        0 < w.len() ==> start == g.at(w[0].0 as int, w[0].1 as int) + 1,
        is_work_list(w, g0),
        0 < w.len(),
        search_state(g, g0, front(w, 0)),
        forall|d: int|
            !feasible(g, w[0].0 as int, w[0].1 as int, start, d),
        ahead(t, g, w, 0),
    ensures
        !completes(t, g0),
{
    if completes(t, g0) {
        assert forall|r: int, c: int|
            #![trigger g.at(r, c)]
            #![trigger t.at(r, c)]
            in_grid(r, c) && pos(r, c) < front(w, 0) implies g.at(r, c) == t.at(r, c) by {
            lemma_no_gap(w, g0, 0, r, c);
        }
        assert(agree(g, t, front(w, 0)));
        lemma_dead_end(t, g, g0, w, 0, start);
    }
}

/// A search state with the cursor before the first entry is the puzzle
/// itself.
proof fn lemma_rewound(g: Grid, g0: Grid, w: Seq<(u8, u8)>)
    requires
        is_work_list(w, g0),
        search_state(g, g0, -1),
    ensures
        g@ == g0@,
{
    assert forall|q: int| 0 <= q < 81 implies g@[q] == g0@[q] by {
        let r = q / 9;
        let c = q % 9;
        assert(in_grid(r, c) && pos(r, c) == q);
        assert(g.at(r, c) == g0.at(r, c));
    }
    assert(g@ =~= g0@);
}

/// At the start the puzzle itself is a search state with the cursor on the
/// first entry.
proof fn lemma_start(g0: Grid, w: Seq<(u8, u8)>)
    requires
        g0.wf(),
        is_work_list(w, g0),
    ensures
        search_state(g0, g0, front(w, 0)),
{
    assert forall|r: int, c: int| in_grid(r, c) && #[trigger] g0.at(r, c) == 0 implies pos(r, c)
        >= front(w, 0) by {
        if pos(r, c) < front(w, 0) {
            lemma_no_gap(w, g0, 0, r, c);
        }
    }
}

/// At the start no completion has been passed.
proof fn lemma_start_ahead(t: Grid, g0: Grid, w: Seq<(u8, u8)>)
    requires
        g0.wf(),
        is_work_list(w, g0),
        completes(t, g0),
    ensures
        ahead(t, g0, w, 0),
{
    assert forall|r: int, c: int|
        #![trigger g0.at(r, c)]
        #![trigger t.at(r, c)]
        in_grid(r, c) && pos(r, c) < front(w, 0) implies g0.at(r, c) <= t.at(r, c) by {
        lemma_no_gap(w, g0, 0, r, c);
    }
    if 0 < w.len() {
        assert(placed(t, w[0].0 as int, w[0].1 as int));
    }
}

/// What is left of the search, as a number: the digits of `e`, each taken
/// from 19, read in base 20.
spec fn budget(e: Seq<int>) -> int
    decreases e.len(),
{
    if e.len() == 0 {
        0
    } else {
        budget(e.drop_last()) * 20 + (19 - e.last())
    }
}

/// One digit per work-list entry: twice the color of its cell, plus one
/// from the cursor on.
spec fn progress(g: Grid, w: Seq<(u8, u8)>, ptr: int) -> Seq<int> {
    Seq::new(
        w.len(),
        |i: int|
            2 * g.at(w[i].0 as int, w[i].1 as int) + if i >= ptr {
                1int
            } else {
                0int
            },
    )
}

proof fn lemma_budget_nonneg(e: Seq<int>)
    requires
        forall|i: int| 0 <= i < e.len() ==> e[i] <= 19,
    ensures
        budget(e) >= 0,
    decreases e.len(),
{
    if e.len() > 0 {
        lemma_budget_nonneg(e.drop_last());
    }
}

/// Two digit strings that differ only before `k` compare as their first
/// `k` digits do.
proof fn lemma_budget_prefix(a: Seq<int>, b: Seq<int>, k: int)
    requires
        a.len() == b.len(),
        0 <= k <= a.len(),
        forall|i: int| k <= i < a.len() ==> a[i] == b[i],
        budget(a.take(k)) < budget(b.take(k)),
    ensures
        budget(a) < budget(b),
    decreases a.len(),
{
    if k == a.len() {
        assert(a.take(k) =~= a);
        assert(b.take(k) =~= b);
    } else {
        assert(a.drop_last().take(k) =~= a.take(k));
        assert(b.drop_last().take(k) =~= b.take(k));
        lemma_budget_prefix(a.drop_last(), b.drop_last(), k);
    }
}

/// The colors of the work-list cells are digits, so the budget is not
/// negative.
proof fn lemma_progress_bounded(g: Grid, g0: Grid, w: Seq<(u8, u8)>, ptr: int)
    requires
        g.wf(),
        is_work_list(w, g0),
    ensures
        budget(progress(g, w, ptr)) >= 0,
{
    let e = progress(g, w, ptr);
    assert forall|i: int| 0 <= i < e.len() implies e[i] <= 19 by {
        let (r, c) = (w[i].0 as int, w[i].1 as int);
        assert(in_grid(r, c));
        assert(g@[pos(r, c)] <= 9);
    }
    lemma_budget_nonneg(e);
}

/// Raising the color under the cursor and moving on lowers the budget.
proof fn lemma_forward_pays(g: Grid, g2: Grid, g0: Grid, w: Seq<(u8, u8)>, ptr: int)
    requires
        is_work_list(w, g0),
        0 <= ptr < w.len(),
        g2@ == g@.update(front(w, ptr), g2@[front(w, ptr)]),
        g@.len() == 81,
        g.at(w[ptr].0 as int, w[ptr].1 as int) < g2.at(w[ptr].0 as int, w[ptr].1 as int),
    ensures
        budget(progress(g2, w, ptr + 1)) < budget(progress(g, w, ptr)),
{
    let a = progress(g2, w, ptr + 1);
    let b = progress(g, w, ptr);
    let k = ptr + 1;
    assert forall|i: int| 0 <= i < w.len() && i != ptr implies a[i] == b[i] by {
        if i < ptr {
            assert(pos(w[i].0 as int, w[i].1 as int) < pos(w[ptr].0 as int, w[ptr].1 as int));
        } else {
            assert(pos(w[ptr].0 as int, w[ptr].1 as int) < pos(w[i].0 as int, w[i].1 as int));
        }
    }
    assert(a.take(k).drop_last() =~= b.take(k).drop_last());
    assert(a.take(k).last() == a[ptr]);
    assert(b.take(k).last() == b[ptr]);
    lemma_budget_prefix(a, b, k);
}

/// Clearing the cell under the cursor and stepping back lowers the budget.
proof fn lemma_backward_pays(g: Grid, g2: Grid, g0: Grid, w: Seq<(u8, u8)>, ptr: int)
    requires
        is_work_list(w, g0),
        1 <= ptr < w.len(),
        g.wf(),
        g2@ == g@.update(front(w, ptr), 0u8),
    ensures
        budget(progress(g2, w, ptr - 1)) < budget(progress(g, w, ptr)),
{
    let a = progress(g2, w, ptr - 1);
    let b = progress(g, w, ptr);
    let k = ptr + 1;
    assert forall|i: int| 0 <= i < w.len() && i != ptr implies g2.at(
        w[i].0 as int,
        w[i].1 as int,
    ) == g.at(w[i].0 as int, w[i].1 as int) by {
        if i < ptr {
            assert(pos(w[i].0 as int, w[i].1 as int) < pos(w[ptr].0 as int, w[ptr].1 as int));
        } else {
            assert(pos(w[ptr].0 as int, w[ptr].1 as int) < pos(w[i].0 as int, w[i].1 as int));
        }
    }
    assert(in_grid(w[ptr].0 as int, w[ptr].1 as int));
    assert(g@[pos(w[ptr].0 as int, w[ptr].1 as int)] <= 9);
    let ta = a.take(k);
    let tb = b.take(k);
    assert(ta.drop_last().drop_last() =~= tb.drop_last().drop_last());
    assert(ta.last() == 1);
    assert(tb.last() == b[ptr]);
    assert(ta.drop_last().last() == a[ptr - 1]);
    assert(tb.drop_last().last() == b[ptr - 1]);
    assert(a[ptr - 1] == b[ptr - 1] + 1);
    assert(budget(ta) == budget(ta.drop_last()) * 20 + (19 - ta.last()));
    assert(budget(tb) == budget(tb.drop_last()) * 20 + (19 - tb.last()));
    assert(budget(ta.drop_last()) == budget(ta.drop_last().drop_last()) * 20 + (19
        - ta.drop_last().last()));
    assert(budget(tb.drop_last()) == budget(tb.drop_last().drop_last()) * 20 + (19
        - tb.drop_last().last()));
    lemma_budget_prefix(a, b, k);
}

/// Solves the puzzle in place. The empty cells are filled in row-major
/// order, each with the smallest color that fits, stepping back to the
/// previous empty cell whenever none fits.
///
/// On success the grid is a completion of the puzzle, and among all
/// completions the first in the lexicographic order of the row-major
/// reading. On failure the puzzle has no completion and the grid is as it
/// was. A full grid has nothing to fill: it is accepted as it is.
pub fn solve_grid(g: &mut Grid) -> (outcome: Result<(), SolveError>)
    requires
        old(g).wf(),
    ensures
        final(g).wf(),
        outcome is Ok ==> completes(*final(g), *old(g)),
        outcome is Ok ==> forall|t: Grid| completes(t, *old(g)) ==> lex_le(*final(g), t),
        outcome is Err ==> final(g)@ == old(g)@,
        outcome is Err ==> forall|t: Grid| !completes(t, *old(g)),
        full(*old(g)) ==> outcome is Ok && final(g)@ == old(g)@,
{
    let ghost g0 = *g;
    let work = work_list(g);
    let end = work.len();
    let mut ptr: usize = 0;
    proof {
        lemma_start(g0, work@);
        assert forall|t: Grid| completes(t, g0) implies #[trigger] ahead(t, *g, work@, 0) by {
            lemma_start_ahead(t, g0, work@);
        }
    }
    while ptr < end
        invariant
            g0 == *old(g),
            is_work_list(work@, g0),
            end == work.len(),
            ptr <= end,
            search_state(*g, g0, front(work@, ptr as int)),
            forall|t: Grid| completes(t, g0) ==> #[trigger] ahead(t, *g, work@, ptr as int),
        decreases budget(progress(*g, work@, ptr as int)),
    {
        let (row, col) = work[ptr];
        let ghost before = *g;
        let ghost w = work@;
        let ghost p = ptr as int;
        assert(in_grid(row as int, col as int));
        assert(g@[pos(row as int, col as int)] <= 9);
        let current = g.get(row, col);
        let start: u8 = current + 1;
        if next_color(g, row, col, start) {
            proof {
                lemma_advance(before, *g, g0, w, p, start as int);
                assert forall|t: Grid| completes(t, g0) implies #[trigger] ahead(
                    t,
                    *g,
                    w,
                    p + 1,
                ) by {
                    lemma_advance_ahead(t, before, *g, g0, w, p, start as int);
                }
                lemma_forward_pays(before, *g, g0, w, p);
                lemma_progress_bounded(*g, g0, w, p + 1);
            }
            ptr = ptr + 1;
        } else {
            proof {
                assert(g@[pos(row as int, col as int)] == 0u8);
                lemma_retreat(before, *g, g0, w, p);
            }
            if ptr == 0 {
                proof {
                    lemma_rewound(*g, g0, w);
                    if full(g0) {
                        lemma_full_grid_is_fixed(g0);
                    }
                    assert forall|t: Grid| !completes(t, g0) by {
                        if completes(t, g0) {
                            lemma_exhausted(t, before, g0, w, start as int);
                        }
                    }
                }
                return Err(SolveError::Unsolvable);
            }
            proof {
                assert forall|t: Grid| completes(t, g0) implies #[trigger] ahead(
                    t,
                    *g,
                    w,
                    p - 1,
                ) by {
                    lemma_retreat_ahead(t, before, *g, g0, w, p, start as int);
                }
                lemma_backward_pays(before, *g, g0, w, p);
                lemma_progress_bounded(*g, g0, w, p - 1);
            }
            ptr = ptr - 1;
        }
    }
    proof {
        assert forall|t: Grid| completes(t, g0) implies lex_le(*g, t) by {
            assert(ahead(t, *g, work@, ptr as int));
        }
        if full(g0) {
            lemma_full_grid_is_fixed(g0);
        }
    }
    Ok(())
}

} // verus!
