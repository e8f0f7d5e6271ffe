//! The square toroidal grid: reading its columns, writing a sequence along a
//! row or a column, and counting its unset cells.

use crate::line::{write_into, write_line, N};
use vstd::prelude::*;

verus! {

/// The grid, row by row; a cell is unset (`None`) or holds one symbol.
pub type Grid = [[Option<u8>; N]; N];

/// The grid as a sequence of rows, each a sequence of cells.
pub open spec fn cells(g: Grid) -> Seq<Seq<Option<u8>>> {
    Seq::new(N as nat, |r: int| g@[r]@)
}

/// A model grid has `N` rows of `N` cells.
pub open spec fn square(g: Seq<Seq<Option<u8>>>) -> bool {
    g.len() == N && forall|r: int| 0 <= r < N ==> (#[trigger] g[r]).len() == N
}

/// The grid with every cell unset.
pub open spec fn blank() -> Seq<Seq<Option<u8>>> {
    Seq::new(N as nat, |r: int| Seq::new(N as nat, |c: int| None::<u8>))
}

/// Column `c` of the grid, read top to bottom.
pub open spec fn column(g: Seq<Seq<Option<u8>>>, c: int) -> Seq<Option<u8>> {
    Seq::new(N as nat, |r: int| g[r][c])
}

/// The line that a candidate lies on: row `k`, or column `k` when `vertical`.
pub open spec fn line_of(g: Seq<Seq<Option<u8>>>, vertical: bool, k: int) -> Seq<Option<u8>> {
    if vertical {
        column(g, k)
    } else {
        g[k]
    }
}

/// The grid after `s` is written along row `k` (or column `k` when
/// `vertical`) from offset `p`.
pub open spec fn write_grid(
    g: Seq<Seq<Option<u8>>>,
    s: Seq<u8>,
    vertical: bool,
    k: int,
    p: int,
) -> Seq<Seq<Option<u8>>> {
    if vertical {
        Seq::new(
            N as nat,
            |r: int|
                Seq::new(
                    N as nat,
                    |c: int|
                        if c == k {
                            write_line(column(g, k), s, p)[r]
                        } else {
                            g[r][c]
                        },
                ),
        )
    } else {
        g.update(k, write_line(g[k], s, p))
    }
}

/// Number of unset cells among the first `k` cells of a line.
pub open spec fn line_unset(line: Seq<Option<u8>>, k: int) -> nat
    decreases k,
{
    if k <= 0 {
        0
    } else {
        line_unset(line, k - 1) + if line[k - 1] is None {
            1nat
        } else {
            0nat
        }
    }
}

/// Number of unset cells in the first `k` rows.
pub open spec fn rows_unset(g: Seq<Seq<Option<u8>>>, k: int) -> nat
    decreases k,
{
    if k <= 0 {
        0
    } else {
        rows_unset(g, k - 1) + line_unset(g[k - 1], N as int)
    }
}

/// Number of unset cells of the grid.
pub open spec fn unset_cells(g: Seq<Seq<Option<u8>>>) -> nat {
    rows_unset(g, N as int)
}

proof fn lemma_line_unset_bound(line: Seq<Option<u8>>, k: int)
    requires
        0 <= k,
    ensures
        line_unset(line, k) <= k,
    decreases k,
{
    if k > 0 {
        lemma_line_unset_bound(line, k - 1);
    }
}

proof fn lemma_rows_unset_bound(g: Seq<Seq<Option<u8>>>, k: int)
    requires
        0 <= k,
    ensures
        rows_unset(g, k) <= k * N,
    decreases k,
{
    if k > 0 {
        lemma_rows_unset_bound(g, k - 1);
        lemma_line_unset_bound(g[k - 1], N as int);
    }
}

/// A grid has at most `N * N` unset cells.
pub proof fn lemma_unset_cells_bound(g: Seq<Seq<Option<u8>>>)
    ensures
        unset_cells(g) <= N * N,
{
    lemma_rows_unset_bound(g, N as int);
}

proof fn lemma_line_unset_blank(k: int)
    requires
        0 <= k <= N,
    ensures
        line_unset(blank()[0], k) == k,
    decreases k,
{
    if k > 0 {
        lemma_line_unset_blank(k - 1);
    }
}

proof fn lemma_rows_unset_blank(k: int)
    requires
        0 <= k <= N,
    ensures
        rows_unset(blank(), k) == k * N,
    decreases k,
{
    if k > 0 {
        lemma_rows_unset_blank(k - 1);
        lemma_line_unset_blank(N as int);
        assert(blank()[k - 1] =~= blank()[0]);
    }
}

/// Every cell of the blank grid is unset.
pub proof fn lemma_unset_cells_blank()
    ensures
        unset_cells(blank()) == N * N,
{
    lemma_rows_unset_blank(N as int);
}

/// A grid with every cell unset.
pub fn blank_grid() -> (g: Grid)
    ensures
        cells(g) == blank(),
{
    let g: Grid = [[None; N]; N];
    assert(cells(g) =~= blank()) by {
        assert forall|r: int| 0 <= r < N implies #[trigger] cells(g)[r] =~= blank()[r] by {}
    }
    g
}

/// Copies column `c` of the grid, top to bottom.
pub fn read_column(g: &Grid, c: usize) -> (col: [Option<u8>; N])
    requires
        c < N,
    ensures
        col@ == column(cells(*g), c as int),
{
    let mut col: [Option<u8>; N] = [None; N];
    let mut r: usize = 0;
    while r < N
        invariant
            c < N,
            r <= N,
            col@.len() == N,
            forall|i: int| 0 <= i < r ==> #[trigger] col@[i] == g@[i]@[c as int],
        decreases N - r,
    {
        col[r] = g[r][c];
        r = r + 1;
    }
    assert(col@ =~= column(cells(*g), c as int));
    col
}

/// Writes `s` along row `k` (or column `k` when `vertical`) from offset `p`.
pub fn write_sequence(g: &mut Grid, s: &[u8], vertical: bool, k: usize, p: usize)
    requires
        k < N,
        p < N,
        s@.len() <= N,
    ensures
        cells(*final(g)) == write_grid(cells(*old(g)), s@, vertical, k as int, p as int),
{
    let ghost start = cells(*g);
    if vertical {
        let mut col = read_column(g, k);
        write_into(&mut col, s, p);
        let mut r: usize = 0;
        while r < N
            invariant
                k < N,
                r <= N,
                col@ == write_line(column(start, k as int), s@, p as int),
                forall|i: int|
                    0 <= i < N ==> (#[trigger] cells(*g)[i]) == if i < r {
                        start[i].update(k as int, col@[i])
                    } else {
                        start[i]
                    },
            decreases N - r,
        {
            let ghost before = *g;
            let mut row = g[r];
            row[k] = col[r];
            g[r] = row;
            assert forall|i: int| 0 <= i < N implies (#[trigger] cells(*g)[i]) == if i < r + 1 {
                start[i].update(k as int, col@[i])
            } else {
                start[i]
            } by {
                assert(cells(*g)[i] == g@[i]@);
                assert(cells(before)[i] == before@[i]@);
                if i != r {
                    assert(g@[i] == before@[i]);
                }
            }
            r = r + 1;
        }
        assert(cells(*g) =~= write_grid(start, s@, true, k as int, p as int)) by {
            assert forall|i: int| 0 <= i < N implies #[trigger] cells(*g)[i] =~= write_grid(
                start,
                s@,
                true,
                k as int,
                p as int,
            )[i] by {}
        }
    } else {
        let mut row = g[k];
        write_into(&mut row, s, p);
        g[k] = row;
        assert(cells(*g) =~= write_grid(start, s@, false, k as int, p as int));
    }
}

/// Counts the unset cells of the grid.
pub fn count_unset(g: &Grid) -> (d: usize)
    ensures
        d == unset_cells(cells(*g)),
{
    let mut d: usize = 0;
    let mut r: usize = 0;
    while r < N
        invariant
            r <= N,
            d == rows_unset(cells(*g), r as int),
            d <= r * N,
        decreases N - r,
    {
        let mut c: usize = 0;
        let mut e: usize = 0;
        proof {
            lemma_rows_unset_bound(cells(*g), r as int);
        }
        while c < N
            invariant
                r < N,
                c <= N,
                e <= c,
                e == line_unset(g@[r as int]@, c as int),
                d == rows_unset(cells(*g), r as int),
                d <= r * N,
            decreases N - c,
        {
            if g[r][c].is_none() {
                e = e + 1;
            }
            c = c + 1;
        }
        assert(cells(*g)[r as int] == g@[r as int]@);
        d = d + e;
        r = r + 1;
    }
    d
}

} // verus!
