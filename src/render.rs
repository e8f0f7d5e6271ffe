//! The grid as text: one line per row, `.` for an unset cell.

use crate::grid::Grid;
use crate::line::N;
use vstd::prelude::*;

verus! {

/// The character printed for an unset cell: `.`.
pub const FILLER: u8 = 0x2e;

/// The byte printed for a cell: its symbol, or the filler when unset.
pub open spec fn glyph(cell: Option<u8>) -> u8 {
    match cell {
        Some(c) => c,
        None => FILLER,
    }
}

/// A row as the bytes to print, left to right.
pub open spec fn row_text(row: Seq<Option<u8>>) -> Seq<u8> {
    row.map_values(|c: Option<u8>| glyph(c))
}

/// The bytes to print for one row.
pub fn render_row(row: &[Option<u8>; N]) -> (r: Vec<u8>)
    ensures
        r@ == row_text(row@),
{
    let mut r: Vec<u8> = Vec::new();
    let mut c: usize = 0;
    while c < N
        invariant
            c <= N,
            r@ == row_text(row@).take(c as int),
        decreases N - c,
    {
        let b: u8 = match row[c] {
            Some(v) => v,
            None => FILLER,
        };
        r.push(b);
        c = c + 1;
        assert(r@ =~= row_text(row@).take(c as int));
    }
    assert(r@ =~= row_text(row@));
    r
}

/// The grid as text: `N` lines of `N` bytes each, top to bottom.
pub fn render(g: &Grid) -> (lines: Vec<Vec<u8>>)
    ensures
        lines@.len() == N,
        forall|i: int| 0 <= i < N ==> (#[trigger] lines@[i])@ == row_text(g@[i]@),
{
    let mut lines: Vec<Vec<u8>> = Vec::new();
    let mut r: usize = 0;
    while r < N
        invariant
            r <= N,
            lines@.len() == r,
            forall|i: int| 0 <= i < r ==> (#[trigger] lines@[i])@ == row_text(g@[i]@),
        decreases N - r,
    {
        let text = render_row(&g[r]);
        lines.push(text);
        r = r + 1;
    }
    lines
}

} // verus!
