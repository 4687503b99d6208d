//! The textual forms of a grid: the list of given cells that is read, and
//! the nine rows of digits that are written.

use vstd::prelude::*;
use crate::grid::{Grid, blank, pos};

verus! {

/// The input is not in the expected format.
#[derive(Clone, Copy, Debug, PartialEq, Eq, Structural)]
pub enum FormatError {
    /// The first line is not `9,9`, or a field of a line with three or more
    /// fields is not a number in its range.
    Malformed,
}

/// What one line of the input says.
#[derive(Clone, Copy, Debug, PartialEq, Eq, Structural)]
pub enum Line {
    /// Fewer than three comma-separated fields: the line is ignored.
    Blank,
    /// `row,col,color`: the cell gets that color.
    Cell { row: u8, col: u8, color: u8 },
    /// Three or more fields, one of the first three not a number in its
    /// range.
    Malformed,
}

/// Space, tab, line feed, vertical tab, form feed or carriage return.
pub open spec fn is_space(b: u8) -> bool {
    b == 32 || 9 <= b <= 13
}

/// An ASCII digit.
pub open spec fn is_digit(b: u8) -> bool {
    48 <= b <= 57
}

/// Index of the first `b` in `s[lo..hi]`, or `hi` where there is none.
pub open spec fn next_byte(s: Seq<u8>, b: u8, lo: int, hi: int) -> int
    decreases hi - lo,
{
    if lo >= hi {
        hi
    } else if s[lo] == b {
        lo
    } else {
        next_byte(s, b, lo + 1, hi)
    }
}

/// Index of the first byte of `s[lo..hi]` that is no white space, or `hi`.
pub open spec fn lead(s: Seq<u8>, lo: int, hi: int) -> int
    decreases hi - lo,
{
    if lo >= hi {
        hi
    } else if is_space(s[lo]) {
        lead(s, lo + 1, hi)
    } else {
        lo
    }
}

/// Index after the last byte of `s[lo..hi]` that is no white space, or `lo`.
pub open spec fn trail(s: Seq<u8>, lo: int, hi: int) -> int
    decreases hi - lo,
{
    if hi <= lo {
        lo
    } else if is_space(s[hi - 1]) {
        trail(s, lo, hi - 1)
    } else {
        hi
    }
}

/// The value of the decimal digits `s[lo..hi]`.
pub open spec fn decimal(s: Seq<u8>, lo: int, hi: int) -> int
    decreases hi - lo,
{
    if hi <= lo {
        0
    } else {
        decimal(s, lo, hi - 1) * 10 + (s[hi - 1] - 48)
    }
}

/// The number that `s[lo..hi]` spells: one or more decimal digits with a
/// value of at most `max`.
pub open spec fn number(s: Seq<u8>, lo: int, hi: int, max: u8) -> Option<u8> {
    if lo < hi && (forall|k: int| lo <= k < hi ==> is_digit(#[trigger] s[k])) && decimal(s, lo, hi)
        <= max {
        Some(decimal(s, lo, hi) as u8)
    } else {
        None
    }
}

/// What the line `s[lo..hi]` says. The line is trimmed of white space at
/// both ends and split at commas; the first three fields are the row (0 to
/// 8), the column (0 to 8) and the color (0 to 9), further fields are not
/// looked at.
pub open spec fn line_of(s: Seq<u8>, lo: int, hi: int) -> Line {
    let a = lead(s, lo, hi);
    let z = trail(s, a, hi);
    let c1 = next_byte(s, 44, a, z);
    let c2 = next_byte(s, 44, c1 + 1, z);
    let c3 = next_byte(s, 44, c2 + 1, z);
    if c1 >= z || c2 >= z {
        Line::Blank
    } else {
        match (number(s, a, c1, 8), number(s, c1 + 1, c2, 8), number(s, c2 + 1, c3, 9)) {
            (Some(row), Some(col), Some(color)) => Line::Cell { row, col, color },
            _ => Line::Malformed,
        }
    }
}

/// The colors after a line was applied to `cells`, or `None` where the line
/// is malformed.
pub open spec fn apply_line(cells: Seq<u8>, line: Line) -> Option<Seq<u8>> {
    match line {
        Line::Blank => Some(cells),
        Line::Cell { row, col, color } => Some(cells.update(pos(row as int, col as int), color)),
        Line::Malformed => None,
    }
}

/// The colors after the lines of `s` from index `i` on were applied to
/// `cells` in turn, or `None` where one of them is malformed.
pub open spec fn read_lines(s: Seq<u8>, i: int, cells: Seq<u8>) -> Option<Seq<u8>>
    decreases s.len() - i,
    via read_lines_decreases
{
    if i >= s.len() {
        Some(cells)
    } else {
        let e = next_byte(s, 10, i, s.len() as int);
        match apply_line(cells, line_of(s, i, e)) {
            None => None,
            Some(next) => if e >= s.len() {
                Some(next)
            } else {
                read_lines(s, e + 1, next)
            },
        }
    }
}

#[via_fn]
proof fn read_lines_decreases(s: Seq<u8>, i: int, cells: Seq<u8>) {
    if i < s.len() {
        lemma_next_byte_range(s, 10, i, s.len() as int);
    }
}

/// A search for a byte ends inside the range that it was started on.
proof fn lemma_next_byte_range(s: Seq<u8>, b: u8, lo: int, hi: int)
    requires
        lo <= hi,
    ensures
        lo <= next_byte(s, b, lo, hi) <= hi,
    decreases hi - lo,
{
    if lo < hi && s[lo] != b {
        lemma_next_byte_range(s, b, lo + 1, hi);
    }
}

/// The colors that the text `s` describes: a first line `9,9`, then lines
/// that are applied in turn to the empty grid. `None` where the first line
/// is another or a later line is malformed.
pub open spec fn parsed(s: Seq<u8>) -> Option<Seq<u8>> {
    if next_byte(s, 10, 0, s.len() as int) == 3 && s[0] == 57 && s[1] == 44 && s[2] == 57 {
        read_lines(s, 4, blank())
    } else {
        None
    }
}

/// The text of a grid: nine lines of nine digits, separated by single
/// spaces, each line ended by a line feed.
pub open spec fn rendered(g: Grid) -> Seq<u8> {
    Seq::new(
        162,
        |k: int|
            if k % 2 == 0 {
                (48 + g.at(k / 18, (k % 18) / 2)) as u8
            } else if k % 18 == 17 {
                10u8
            } else {
                32u8
            },
    )
}

fn find_byte(s: &[u8], b: u8, lo: usize, hi: usize) -> (k: usize)
    requires
        lo <= hi <= s@.len(),
    ensures
        k == next_byte(s@, b, lo as int, hi as int),
        lo <= k <= hi,
{
    let mut k: usize = lo;
    while k < hi && s[k] != b
        invariant
            lo <= k <= hi <= s@.len(),
            next_byte(s@, b, lo as int, hi as int) == next_byte(s@, b, k as int, hi as int),
        decreases hi - k,
    {
        k = k + 1;
    }
    k
}

fn space(b: u8) -> (yes: bool)
    ensures
        yes == is_space(b),
{
    b == 32 || (9 <= b && b <= 13)
}

fn skip_lead(s: &[u8], lo: usize, hi: usize) -> (k: usize)
    requires
        lo <= hi <= s@.len(),
    ensures
        k == lead(s@, lo as int, hi as int),
        lo <= k <= hi,
{
    let mut k: usize = lo;
    while k < hi && space(s[k])
        invariant
            lo <= k <= hi <= s@.len(),
            lead(s@, lo as int, hi as int) == lead(s@, k as int, hi as int),
        decreases hi - k,
    {
        k = k + 1;
    }
    k
}

fn skip_trail(s: &[u8], lo: usize, hi: usize) -> (k: usize)
    requires
        lo <= hi <= s@.len(),
    ensures
        k == trail(s@, lo as int, hi as int),
        lo <= k <= hi,
{
    let mut k: usize = hi;
    while k > lo && space(s[k - 1])
        invariant
            lo <= k <= hi <= s@.len(),
            trail(s@, lo as int, hi as int) == trail(s@, lo as int, k as int),
        decreases k - lo,
    {
        k = k - 1;
    }
    k
}

/// Reads the number that `s[lo..hi]` spells, if it is one of at most `max`.
fn read_number(s: &[u8], lo: usize, hi: usize, max: u8) -> (out: Option<u8>)
    requires
        lo <= hi <= s@.len(),
        max <= 9,
    ensures
        out == number(s@, lo as int, hi as int, max),
        out matches Some(v) ==> v <= max,
{
    if lo >= hi {
        return None;
    }
    let mut acc: u8 = 0;
    let mut k: usize = lo;
    while k < hi
        invariant
            lo <= k <= hi <= s@.len(),
            forall|j: int| lo <= j < k ==> is_digit(#[trigger] s@[j]),
            0 <= decimal(s@, lo as int, k as int),
            acc <= 10,
            acc < 10 ==> acc == decimal(s@, lo as int, k as int),
            acc == 10 ==> decimal(s@, lo as int, k as int) >= 10,
        decreases hi - k,
    {
        let b = s[k];
        if b < 48 || b > 57 {
            return None;
        }
        if acc == 0 {
            acc = b - 48;
        } else {
            acc = 10;
        }
        k = k + 1;
    }
    if acc <= max {
        Some(acc)
    } else {
        None
    }
}

/// Reads the line `s[lo..hi]`.
pub fn parse_line(s: &[u8], lo: usize, hi: usize) -> (line: Line)
    requires
        lo <= hi <= s@.len(),
    ensures
        line == line_of(s@, lo as int, hi as int),
        line matches Line::Cell { row, col, color } ==> row < 9 && col < 9 && color <= 9,
{
    let a = skip_lead(s, lo, hi);
    let z = skip_trail(s, a, hi);
    let c1 = find_byte(s, 44, a, z);
    if c1 >= z {
        return Line::Blank;
    }
    let c2 = find_byte(s, 44, c1 + 1, z);
    if c2 >= z {
        return Line::Blank;
    }
    let c3 = find_byte(s, 44, c2 + 1, z);
    let row = read_number(s, a, c1, 8);
    let col = read_number(s, c1 + 1, c2, 8);
    let color = read_number(s, c2 + 1, c3, 9);
    match (row, col, color) {
        (Some(row), Some(col), Some(color)) => Line::Cell { row, col, color },
        _ => Line::Malformed,
    }
}

/// Reads a puzzle from its text: the line `9,9`, then one line
/// `row,col,color` for each given cell. Cells that no line names are empty;
/// of two lines for one cell the later counts.
pub fn read_grid(input: &[u8]) -> (outcome: Result<Grid, FormatError>)
    ensures
        match parsed(input@) {
            Some(cells) => outcome is Ok && outcome->Ok_0@ == cells && outcome->Ok_0.wf(),
            None => outcome == Err::<Grid, FormatError>(FormatError::Malformed),
        },
{
    let n = input.len();
    let first = find_byte(input, 10, 0, n);
    if first != 3 || input[0] != 57 || input[1] != 44 || input[2] != 57 {
        return Err(FormatError::Malformed);
    }
    let mut g = Grid::new();
    let mut i: usize = if n < 4 {
        n
    } else {
        4
    };
    while i < n
        invariant
            n == input@.len(),
            i <= n,
            g.wf(),
            parsed(input@) == read_lines(input@, i as int, g@),
        decreases n - i,
    {
        let e = find_byte(input, 10, i, n);
        match parse_line(input, i, e) {
            Line::Blank => {},
            Line::Cell { row, col, color } => {
                g.set(row, col, color);
            },
            Line::Malformed => {
                return Err(FormatError::Malformed);
            },
        }
        i = if e < n {
            e + 1
        } else {
            n
        };
    }
    Ok(g)
}

/// Writes the grid as text: one line per row, its nine digits separated by
/// single spaces.
pub fn write_grid(g: &Grid) -> (out: Vec<u8>)
    requires
        g.wf(),
    ensures
        out@ == rendered(*g),
{
    let mut out: Vec<u8> = Vec::new();
    let mut row: u8 = 0;
    while row < 9
        invariant
            g.wf(),
            row <= 9,
            out@.len() == row * 18,
            forall|k: int| 0 <= k < out@.len() ==> #[trigger] out@[k] == rendered(*g)[k],
        decreases 9 - row,
    {
        let mut col: u8 = 0;
        while col < 9
            invariant
                g.wf(),
                row < 9,
                col <= 9,
                out@.len() == row * 18 + col * 2,
                forall|k: int| 0 <= k < out@.len() ==> #[trigger] out@[k] == rendered(*g)[k],
            decreases 9 - col,
        {
            let color = g.get(row, col);
            assert(g@[pos(row as int, col as int)] <= 9);
            out.push(48 + color);
            out.push(if col == 8 {
                10
            } else {
                32
            });
            col = col + 1;
        }
        row = row + 1;
    }
    assert(out@ =~= rendered(*g));
    out
}

} // verus!
