//! What holds of completions and candidates, proved from the definitions
//! that the solver's contracts use.

use vstd::prelude::*;
use crate::grid::{Grid, in_grid, peers, pos};
use crate::candidate::{feasible, used};
use crate::solver::{agree, completes, is_work_list, lex_le, placed};

verus! {

/// No two distinct peers hold the same given color.
pub open spec fn givens_consistent(g0: Grid) -> bool {
    forall|r1: int, c1: int, r2: int, c2: int|
        in_grid(r1, c1) && in_grid(r2, c2) && peers(r1, c1, r2, c2) && !(r1 == r2 && c1 == c2)
            && #[trigger] g0.at(r1, c1) != 0 ==> g0.at(r1, c1) != #[trigger] g0.at(r2, c2)
}

/// Every cell holds a digit, and no row, column or block holds a digit
/// twice.
pub open spec fn solved(s: Grid) -> bool {
    &&& forall|r: int, c: int| in_grid(r, c) ==> 1 <= #[trigger] s.at(r, c) <= 9
    &&& forall|r1: int, c1: int, r2: int, c2: int|
        in_grid(r1, c1) && in_grid(r2, c2) && peers(r1, c1, r2, c2) && !(r1 == r2 && c1 == c2)
            ==> #[trigger] s.at(r1, c1) != #[trigger] s.at(r2, c2)
}

/// No cell is empty.
pub open spec fn full(g: Grid) -> bool {
    forall|r: int, c: int| in_grid(r, c) ==> #[trigger] g.at(r, c) != 0
}

/// A completion of a puzzle whose givens are consistent is a solved grid:
/// digits everywhere, none twice in a row, a column or a block.
pub proof fn lemma_completion_is_solved(g0: Grid, s: Grid)
    requires
        g0.wf(),
        givens_consistent(g0),
        completes(s, g0),
    ensures
        solved(s),
{
    assert forall|r: int, c: int| in_grid(r, c) implies 1 <= #[trigger] s.at(r, c) <= 9 by {
        if g0.at(r, c) != 0 {
            assert(g0@[pos(r, c)] <= 9);
        } else {
            assert(placed(s, r, c));
        }
    }
    assert forall|r1: int, c1: int, r2: int, c2: int|
        in_grid(r1, c1) && in_grid(r2, c2) && peers(r1, c1, r2, c2) && !(r1 == r2 && c1 == c2)
        implies #[trigger] s.at(r1, c1) != #[trigger] s.at(r2, c2) by {
        if g0.at(r1, c1) == 0 {
            assert(placed(s, r1, c1));
        } else if g0.at(r2, c2) == 0 {
            assert(placed(s, r2, c2));
            assert(peers(r2, c2, r1, c1));
        } else {
            assert(s.at(r1, c1) == g0.at(r1, c1));
            assert(s.at(r2, c2) == g0.at(r2, c2));
        }
    }
}

/// Where two distinct peers hold the same given color, no completion is a
/// solved grid: the solver never turns such a puzzle into one.
pub proof fn lemma_clashing_givens_never_solved(
    g0: Grid,
    s: Grid,
    r1: int,
    c1: int,
    r2: int,
    c2: int,
)
    requires
        in_grid(r1, c1),
        in_grid(r2, c2),
        peers(r1, c1, r2, c2),
        !(r1 == r2 && c1 == c2),
        g0.at(r1, c1) != 0,
        g0.at(r1, c1) == g0.at(r2, c2),
        completes(s, g0),
    ensures
        !solved(s),
{
    assert(s.at(r1, c1) == g0.at(r1, c1));
    assert(s.at(r2, c2) == g0.at(r2, c2));
}

/// A completion keeps every given color.
pub proof fn lemma_completion_keeps_givens(g0: Grid, s: Grid, row: int, col: int)
    requires
        completes(s, g0),
        in_grid(row, col),
        g0.at(row, col) != 0,
    ensures
        s.at(row, col) == g0.at(row, col),
{
}

/// Two completions that are both first in the lexicographic order agree
/// before every position.
proof fn lemma_least_agree(g0: Grid, s1: Grid, s2: Grid, limit: int)
    requires
        completes(s1, g0),
        completes(s2, g0),
        lex_le(s1, s2),
        lex_le(s2, s1),
        0 <= limit <= 81,
    ensures
        agree(s1, s2, limit),
    decreases limit,
{
    if limit > 0 {
        lemma_least_agree(g0, s1, s2, limit - 1);
        let r = (limit - 1) / 9;
        let c = (limit - 1) % 9;
        assert(in_grid(r, c) && pos(r, c) == limit - 1);
        assert(agree(s2, s1, limit - 1));
        assert(s1.at(r, c) <= s2.at(r, c));
        assert(s2.at(r, c) <= s1.at(r, c));
        assert forall|r2: int, c2: int|
            #![trigger s1.at(r2, c2)]
            #![trigger s2.at(r2, c2)]
            in_grid(r2, c2) && pos(r2, c2) < limit implies s1.at(r2, c2) == s2.at(r2, c2) by {
            if pos(r2, c2) == limit - 1 {
                assert(r2 == r && c2 == c);
            }
        }
    }
}

/// In a solved grid every digit stands in every row, every column and
/// every block: each of them is a permutation of 1 to 9.
pub proof fn lemma_solved_unit_has_every_digit(s: Grid, unit: int, d: int)
    requires
        s.wf(),
        solved(s),
        0 <= unit < 9,
        1 <= d <= 9,
    ensures
        exists|c: int| 0 <= c < 9 && #[trigger] s.at(unit, c) == d,
        exists|r: int| 0 <= r < 9 && #[trigger] s.at(r, unit) == d,
        exists|r: int, c: int|
            in_grid(r, c) && r / 3 == unit / 3 && c / 3 == unit % 3 && #[trigger] s.at(r, c) == d,
{
    let br = unit / 3 * 3;
    let bc = unit % 3 * 3;
    let row = Seq::new(9, |i: int| s.at(unit, i));
    let col = Seq::new(9, |i: int| s.at(i, unit));
    let block = Seq::new(9, |i: int| s.at(br + i / 3, bc + i % 3));
    assert forall|k: int, l: int| 0 <= k < l < 9 implies #[trigger] row[k] != #[trigger] row[l] by {
        assert(in_grid(unit, k) && in_grid(unit, l) && peers(unit, k, unit, l));
    }
    assert forall|k: int, l: int| 0 <= k < l < 9 implies #[trigger] col[k] != #[trigger] col[l] by {
        assert(in_grid(k, unit) && in_grid(l, unit) && peers(k, unit, l, unit));
    }
    assert forall|k: int, l: int| 0 <= k < l < 9 implies #[trigger] block[k]
        != #[trigger] block[l] by {
        let (r1, c1) = (br + k / 3, bc + k % 3);
        let (r2, c2) = (br + l / 3, bc + l % 3);
        assert(in_grid(r1, c1) && in_grid(r2, c2) && peers(r1, c1, r2, c2));
        assert(!(r1 == r2 && c1 == c2));
    }
    assert forall|k: int| 0 <= k < 9 implies 1 <= #[trigger] block[k] <= 9 by {
        assert(in_grid(br + k / 3, bc + k % 3));
    }
    lemma_distinct_digits_cover(row, d);
    lemma_distinct_digits_cover(col, d);
    lemma_distinct_digits_cover(block, d);
    let kr = choose|k: int| 0 <= k < 9 && #[trigger] row[k] == d;
    assert(s.at(unit, kr) == d);
    let kc = choose|k: int| 0 <= k < 9 && #[trigger] col[k] == d;
    assert(s.at(kc, unit) == d);
    let kb = choose|k: int| 0 <= k < 9 && #[trigger] block[k] == d;
    assert(in_grid(br + kb / 3, bc + kb % 3) && s.at(br + kb / 3, bc + kb % 3) == d);
}

/// Nine distinct digits from 1 to 9 include each digit.
proof fn lemma_distinct_digits_cover(v: Seq<int>, d: int)
    requires
        v.len() == 9,
        forall|k: int| 0 <= k < 9 ==> 1 <= #[trigger] v[k] <= 9,
        forall|k: int, l: int| 0 <= k < l < 9 ==> #[trigger] v[k] != #[trigger] v[l],
        1 <= d <= 9,
    ensures
        exists|k: int| 0 <= k < 9 && #[trigger] v[k] == d,
{
    if !(exists|k: int| 0 <= k < 9 && #[trigger] v[k] == d) {
        let t = Seq::new(9, |k: int| below(v[k], d));
        assert forall|k: int| 0 <= k < t.len() implies 1 <= #[trigger] t[k] <= 8 by {
            assert(1 <= v[k] <= 9 && v[k] != d);
        }
        assert forall|k: int, l: int| 0 <= k < l < t.len() implies #[trigger] t[k]
            != #[trigger] t[l] by {
            assert(v[k] != v[l] && v[k] != d && v[l] != d);
        }
        lemma_distinct_count(t, 8);
    }
}

/// `x` moved down by one where it is above `d`: on the digits other than
/// `d` this maps 1 to 9 onto 1 to 8, one to one.
spec fn below(x: int, d: int) -> int {
    if x > d {
        x - 1
    } else {
        x
    }
}

/// Distinct values between 1 and `m` are at most `m` in number.
proof fn lemma_distinct_count(s: Seq<int>, m: int)
    requires
        m >= 0,
        forall|k: int| 0 <= k < s.len() ==> 1 <= #[trigger] s[k] <= m,
        forall|k: int, l: int| 0 <= k < l < s.len() ==> #[trigger] s[k] != #[trigger] s[l],
    ensures
        s.len() <= m,
    decreases m,
{
    if s.len() > 0 {
        assert(1 <= s[0] <= m);
        if exists|k: int| 0 <= k < s.len() && #[trigger] s[k] == m {
            let k = choose|k: int| 0 <= k < s.len() && #[trigger] s[k] == m;
            let t = s.remove(k);
            assert forall|x: int| 0 <= x < t.len() implies 1 <= #[trigger] t[x] <= m - 1 by {
                if x < k {
                    assert(t[x] == s[x]);
                } else {
                    assert(t[x] == s[x + 1]);
                }
            }
            assert forall|x: int, y: int| 0 <= x < y < t.len() implies #[trigger] t[x]
                != #[trigger] t[y] by {
                let sx = if x < k { x } else { x + 1 };
                let sy = if y < k { y } else { y + 1 };
                assert(t[x] == s[sx]);
                assert(t[y] == s[sy]);
            }
            lemma_distinct_count(t, m - 1);
        } else {
            lemma_distinct_count(s, m - 1);
        }
    }
}

/// A puzzle has at most one completion that is first in the lexicographic
/// order: two runs of the solver on one puzzle give one grid.
pub proof fn lemma_least_completion_unique(g0: Grid, s1: Grid, s2: Grid)
    requires
        completes(s1, g0),
        completes(s2, g0),
        forall|t: Grid| completes(t, g0) ==> lex_le(s1, t),
        forall|t: Grid| completes(t, g0) ==> lex_le(s2, t),
    ensures
        s1@ == s2@,
{
    lemma_least_agree(g0, s1, s2, 81);
    assert forall|q: int| 0 <= q < 81 implies s1@[q] == s2@[q] by {
        let r = q / 9;
        let c = q % 9;
        assert(in_grid(r, c) && pos(r, c) == q);
        assert(s1.at(r, c) == s2.at(r, c));
    }
    assert(s1@ =~= s2@);
}

/// A full grid has an empty work list, completes itself, and has no other
/// completion.
pub proof fn lemma_full_grid_is_fixed(g0: Grid)
    requires
        g0.wf(),
        full(g0),
    ensures
        completes(g0, g0),
        forall|w: Seq<(u8, u8)>| is_work_list(w, g0) ==> w.len() == 0,
        forall|s: Grid| completes(s, g0) ==> s@ == g0@,
{
    assert forall|w: Seq<(u8, u8)>| is_work_list(w, g0) implies w.len() == 0 by {
        if w.len() > 0 {
            let (r, c) = w[0];
            assert(g0.at(r as int, c as int) == 0);
        }
    }
    assert forall|s: Grid| completes(s, g0) implies s@ == g0@ by {
        assert forall|q: int| 0 <= q < 81 implies s@[q] == g0@[q] by {
            let r = q / 9;
            let c = q % 9;
            assert(in_grid(r, c) && pos(r, c) == q);
            assert(s.at(r, c) == g0.at(r, c));
        }
        assert(s@ =~= g0@);
    }
}

/// Where the peers of a cell hold every digit but `m`, and `start` is not
/// above `m`, `m` is the one feasible color, so it is the one that
/// candidate computation writes.
pub proof fn lemma_single_missing_color(g: Grid, row: int, col: int, start: int, m: int)
    requires
        in_grid(row, col),
        1 <= m <= 9,
        start <= m,
        !used(g, row, col, m),
        forall|d: int| 1 <= d <= 9 && d != m ==> used(g, row, col, d),
    ensures
        feasible(g, row, col, start, m),
        forall|d: int| feasible(g, row, col, start, d) ==> d == m,
{
}

} // verus!
