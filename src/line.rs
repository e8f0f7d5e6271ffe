//! One line of the grid (a row, or a column read top to bottom) and the test
//! of whether a sequence fits into it at a given offset.

use vstd::prelude::*;

verus! {

/// Side length of the square grid.
pub const N: usize = 20;

/// Index of the cell that symbol `i` of a sequence started at `p` lands on:
/// lines are toroidal, so the index wraps past the last cell back to 0.
pub open spec fn wrap(p: int, i: int) -> int {
    (p + i) % (N as int)
}

/// A cell can take `sym` when it is unset or already holds `sym`.
pub open spec fn cell_fits(cell: Option<u8>, sym: u8) -> bool {
    cell is None || cell == Some(sym)
}

/// Symbol `i` of `s`, started at `p`, can be written into `line`.
pub open spec fn fits_at(line: Seq<Option<u8>>, s: Seq<u8>, p: int, i: int) -> bool {
    cell_fits(line[wrap(p, i)], s[i])
}

/// The candidate at offset `p` is valid: every cell it touches fits.
pub open spec fn fits(line: Seq<Option<u8>>, s: Seq<u8>, p: int) -> bool {
    forall|i: int| 0 <= i < s.len() ==> #[trigger] fits_at(line, s, p, i)
}

/// Number of unset cells among the first `k` cells touched from offset `p`.
pub open spec fn unset_upto(line: Seq<Option<u8>>, p: int, k: int) -> nat
    decreases k,
{
    if k <= 0 {
        0
    } else {
        unset_upto(line, p, k - 1) + if line[wrap(p, k - 1)] is None {
            1nat
        } else {
            0nat
        }
    }
}

/// The cost of a candidate: how many unset cells the sequence would fill.
pub open spec fn cost(line: Seq<Option<u8>>, s: Seq<u8>, p: int) -> nat {
    unset_upto(line, p, s.len() as int)
}

/// Within one line, the wrapped index is the plain one until the edge, and
/// `N` less after it.
pub proof fn lemma_wrap_index(p: int, i: int)
    requires
        0 <= p < N,
        0 <= i < N,
    ensures
        wrap(p, i) == if p + i < N {
            p + i
        } else {
            p + i - N
        },
        0 <= wrap(p, i) < N,
{
}

/// Tests whether `s` fits into `row` at offset `x`, wrapping at the edge;
/// returns the number of unset cells it would fill, or `None` when some
/// touched cell holds another symbol.
pub fn empty_count(x: usize, s: &[u8], row: &[Option<u8>; N]) -> (r: Option<usize>)
    requires
        x < N,
        s@.len() <= N,
    ensures
        r is Some <==> fits(row@, s@, x as int),
        r is Some ==> r->0 == cost(row@, s@, x as int),
{
    let mut count: usize = 0;
    let mut i: usize = 0;
    while i < s.len()
        invariant
            x < N,
            s@.len() <= N,
            i <= s@.len(),
            count <= i,
            count == unset_upto(row@, x as int, i as int),
            forall|j: int| 0 <= j < i ==> #[trigger] fits_at(row@, s@, x as int, j),
        decreases s@.len() - i,
    {
        proof {
            lemma_wrap_index(x as int, i as int);
        }
        let c: usize = if x + i < N {
            x + i
        } else {
            x + i - N
        };
        let cell = row[c];
        match cell {
            None => {
                count = count + 1;
            },
            Some(v) => {
                if v != s[i] {
                    assert(!fits_at(row@, s@, x as int, i as int));
                    return None;
                }
            },
        }
        i = i + 1;
    }
    Some(count)
}


/// `line` after `s` is written into it from offset `p`: each touched cell
/// takes its symbol, every other cell keeps its value.
pub open spec fn write_line(line: Seq<Option<u8>>, s: Seq<u8>, p: int) -> Seq<Option<u8>> {
    Seq::new(
        N as nat,
        |c: int|
            if (c - p) % (N as int) < s.len() {
                Some(s[(c - p) % (N as int)])
            } else {
                line[c]
            },
    )
}

/// Writes `s` into `line` from offset `x`, wrapping at the edge.
pub fn write_into(line: &mut [Option<u8>; N], s: &[u8], x: usize)
    requires
        x < N,
        s@.len() <= N,
    ensures
        final(line)@ == write_line(old(line)@, s@, x as int),
{
    let ghost start = line@;
    let mut i: usize = 0;
    while i < s.len()
        invariant
            x < N,
            s@.len() <= N,
            i <= s@.len(),
            line@.len() == N,
            forall|c: int|
                0 <= c < N ==> #[trigger] line@[c] == if (c - x) % (N as int) < i {
                    Some(s@[(c - x) % (N as int)])
                } else {
                    start[c]
                },
        decreases s@.len() - i,
    {
        proof {
            lemma_wrap_index(x as int, i as int);
        }
        let c: usize = if x + i < N {
            x + i
        } else {
            x + i - N
        };
        line[c] = Some(s[i]);
        i = i + 1;
    }
    assert(line@ =~= write_line(start, s@, x as int));
}

/// A candidate is valid exactly when every cell it touches is unset or
/// already holds the matching symbol, so one mismatched cell rejects it whole.
pub proof fn lemma_fits_cellwise(line: Seq<Option<u8>>, s: Seq<u8>, p: int)
    ensures
        fits(line, s, p) <==> forall|i: int|
            0 <= i < s.len() ==> cell_fits(#[trigger] line[wrap(p, i)], s[i]),
        forall|i: int|
            0 <= i < s.len() && !cell_fits(#[trigger] line[wrap(p, i)], s[i]) ==> !fits(line, s, p),
{
    assert forall|i: int| 0 <= i < s.len() && !cell_fits(#[trigger] line[wrap(p, i)], s[i]) implies !fits(
        line,
        s,
        p,
    ) by {
        assert(!fits_at(line, s, p, i));
    }
    if forall|i: int| 0 <= i < s.len() ==> cell_fits(#[trigger] line[wrap(p, i)], s[i]) {
        assert forall|i: int| 0 <= i < s.len() implies #[trigger] fits_at(line, s, p, i) by {
            assert(cell_fits(line[wrap(p, i)], s[i]));
        }
    }
}

/// A sequence of length `len` started at `p` runs over `p..N-1` and, when it
/// passes the edge, goes on over `0..p+len-N-1`; checking and writing use
/// these same cells.
pub proof fn lemma_wrapped_cells(line: Seq<Option<u8>>, s: Seq<u8>, p: int)
    requires
        0 <= p < N,
        s.len() <= N,
        line.len() == N,
    ensures
        forall|i: int|
            0 <= i < s.len() ==> #[trigger] wrap(p, i) == if p + i < N {
                p + i
            } else {
                p + i - N
            },
        forall|i: int|
            0 <= i < s.len() ==> #[trigger] write_line(line, s, p)[wrap(p, i)] == Some(s[i]),
        forall|c: int|
            0 <= c < N && !(p <= c || c < p + s.len() - N) ==> #[trigger] write_line(line, s, p)[c]
                == line[c],
        forall|i: int|
            0 <= i < s.len() ==> (#[trigger] fits_at(line, s, p, i) <==> cell_fits(
                line[wrap(p, i)],
                s[i],
            )),
{
    assert forall|i: int| 0 <= i < s.len() implies #[trigger] write_line(line, s, p)[wrap(p, i)] == Some(
        s[i],
    ) by {
        lemma_wrap_index(p, i);
    }
}

proof fn lemma_unset_upto_all(line: Seq<Option<u8>>, p: int, k: int, none: bool)
    requires
        0 <= k,
        forall|i: int| 0 <= i < k ==> (#[trigger] line[wrap(p, i)] is None) == none,
    ensures
        unset_upto(line, p, k) == if none {
            k as nat
        } else {
            0nat
        },
    decreases k,
{
    if k > 0 {
        lemma_unset_upto_all(line, p, k - 1, none);
    }
}

/// A candidate whose cells all hold its symbols already costs nothing.
pub proof fn lemma_cost_full_reuse(line: Seq<Option<u8>>, s: Seq<u8>, p: int)
    requires
        forall|i: int| 0 <= i < s.len() ==> #[trigger] line[wrap(p, i)] == Some(s[i]),
    ensures
        fits(line, s, p),
        cost(line, s, p) == 0,
{
    assert forall|i: int| 0 <= i < s.len() implies #[trigger] fits_at(line, s, p, i) by {
        assert(line[wrap(p, i)] == Some(s[i]));
    }
    lemma_unset_upto_all(line, p, s.len() as int, false);
}

/// A candidate over cells that are all unset fits, and costs its length.
pub proof fn lemma_cost_all_unset(line: Seq<Option<u8>>, s: Seq<u8>, p: int)
    requires
        forall|i: int| 0 <= i < s.len() ==> #[trigger] line[wrap(p, i)] is None,
    ensures
        fits(line, s, p),
        cost(line, s, p) == s.len(),
{
    assert forall|i: int| 0 <= i < s.len() implies #[trigger] fits_at(line, s, p, i) by {
        assert(line[wrap(p, i)] is None);
    }
    lemma_unset_upto_all(line, p, s.len() as int, true);
}

} // verus!
