//! The placement engine: each sequence in turn goes to the cheapest valid
//! slot over every row and every column, scanned in a given order.

use crate::grid::{
    blank, blank_grid, cells, lemma_unset_cells_blank, line_of, read_column, unset_cells, write_grid,
    write_sequence, Grid,
};
use crate::line::{cost, empty_count, fits, N};
use crate::score::{grid_score, lemma_score_nothing_to_place, score_of, SCALE};
use vstd::arithmetic::div_mod::lemma_fundamental_div_mod_converse;
use vstd::prelude::*;

verus! {

/// Number of candidate slots for one sequence: each of the `N` lines at each
/// of the `N` offsets, first along rows, then along columns.
pub open spec fn num_candidates() -> int {
    2 * N * N
}

/// A visiting order: `N` indices, each a valid line or offset.
pub open spec fn valid_order(v: Seq<usize>) -> bool {
    v.len() == N && forall|i: int| 0 <= i < N ==> #[trigger] v[i] < N
}

/// The `k`-th candidate scanned: whether it is vertical, its line and its
/// offset. Lines are visited in the order `lines`, and within a line the
/// offsets in the order `offsets`; all rows come before all columns.
pub open spec fn candidate(lines: Seq<usize>, offsets: Seq<usize>, k: int) -> (bool, int, int) {
    let j = k % (N * N) as int;
    (k >= N * N, lines[j / N as int] as int, offsets[j % N as int] as int)
}

/// The cost of the `k`-th candidate, or `None` when it is not valid.
pub open spec fn candidate_cost(
    g: Seq<Seq<Option<u8>>>,
    s: Seq<u8>,
    lines: Seq<usize>,
    offsets: Seq<usize>,
    k: int,
) -> Option<nat> {
    let (v, l, p) = candidate(lines, offsets, k);
    if fits(line_of(g, v, l), s, p) {
        Some(cost(line_of(g, v, l), s, p))
    } else {
        None
    }
}

/// The best of the first `k` candidates, with its cost: the lowest cost,
/// and among equal costs the one scanned first.
pub open spec fn best_upto(
    g: Seq<Seq<Option<u8>>>,
    s: Seq<u8>,
    lines: Seq<usize>,
    offsets: Seq<usize>,
    k: int,
) -> Option<(int, nat)>
    decreases k,
{
    if k <= 0 {
        None
    } else {
        let b = best_upto(g, s, lines, offsets, k - 1);
        match candidate_cost(g, s, lines, offsets, k - 1) {
            Some(c) => {
                let better = match b {
                    Some(prev) => prev.1 > c,
                    None => true,
                };
                if better {
                    Some((k - 1, c))
                } else {
                    b
                }
            },
            None => b,
        }
    }
}

/// What the scan picks among the first `k` candidates: nothing exactly when
/// none is valid; otherwise a valid one whose cost no other valid candidate
/// undercuts, and which every earlier valid candidate exceeds in cost.
pub proof fn lemma_best_is_first_minimum(
    g: Seq<Seq<Option<u8>>>,
    s: Seq<u8>,
    lines: Seq<usize>,
    offsets: Seq<usize>,
    k: int,
)
    requires
        0 <= k,
    ensures
        best_upto(g, s, lines, offsets, k) is None <==> forall|j: int|
            0 <= j < k ==> (#[trigger] candidate_cost(g, s, lines, offsets, j)) is None,
        best_upto(g, s, lines, offsets, k) is Some ==> {
            let b = best_upto(g, s, lines, offsets, k)->0;
            &&& 0 <= b.0 < k
            &&& candidate_cost(g, s, lines, offsets, b.0) == Some(b.1)
            &&& forall|j: int|
                0 <= j < k && (#[trigger] candidate_cost(g, s, lines, offsets, j)) is Some
                    ==> b.1 <= candidate_cost(g, s, lines, offsets, j)->0
            &&& forall|j: int|
                0 <= j < b.0 && (#[trigger] candidate_cost(g, s, lines, offsets, j)) is Some
                    ==> b.1 < candidate_cost(g, s, lines, offsets, j)->0
        },
    decreases k,
{
    if k > 0 {
        lemma_best_is_first_minimum(g, s, lines, offsets, k - 1);
    }
}

/// The grid after one sequence is placed at its best candidate, or `None`
/// when no candidate is valid (the grid then stays as it is).
pub open spec fn place_step(
    g: Seq<Seq<Option<u8>>>,
    s: Seq<u8>,
    lines: Seq<usize>,
    offsets: Seq<usize>,
) -> Option<Seq<Seq<Option<u8>>>> {
    match best_upto(g, s, lines, offsets, num_candidates()) {
        Some(b) => {
            let (v, l, p) = candidate(lines, offsets, b.0);
            Some(write_grid(g, s, v, l, p))
        },
        None => None,
    }
}

/// The grid and the number of sequences placed after the sequences of `ss`
/// are tried in turn on a blank grid.
pub open spec fn engine(ss: Seq<Seq<u8>>, lines: Seq<usize>, offsets: Seq<usize>) -> (
    Seq<Seq<Option<u8>>>,
    nat,
)
    decreases ss.len(),
{
    if ss.len() == 0 {
        (blank(), 0)
    } else {
        let (g, n) = engine(ss.drop_last(), lines, offsets);
        match place_step(g, ss.last(), lines, offsets) {
            Some(h) => (h, n + 1),
            None => (g, n),
        }
    }
}

/// The symbol sequences held by `ss`.
pub open spec fn seqs(ss: Seq<Vec<u8>>) -> Seq<Seq<u8>> {
    ss.map_values(|v: Vec<u8>| v@)
}

/// Every sequence is at most `N` symbols long.
pub open spec fn short_enough(ss: Seq<Seq<u8>>) -> bool {
    forall|i: int| 0 <= i < ss.len() ==> (#[trigger] ss[i]).len() <= N
}

proof fn lemma_decode(lines: Seq<usize>, offsets: Seq<usize>, vertical: bool, li: int, oi: int)
    requires
        0 <= li < N,
        0 <= oi < N,
    ensures
        candidate(lines, offsets, (if vertical { N * N } else { 0 }) + li * N + oi) == (
            vertical,
            lines[li] as int,
            offsets[oi] as int,
        ),
{
    let j = li * N + oi;
    let k = (if vertical { N * N } else { 0 }) + j;
    assert(0 <= j < N * N) by (nonlinear_arith)
        requires
            0 <= li < N,
            0 <= oi < N,
            j == li * N + oi,
    ;
    lemma_fundamental_div_mod_converse(k, (N * N) as int, if vertical { 1 } else { 0 }, j);
    lemma_fundamental_div_mod_converse(j, N as int, li, oi);
}

/// Places `s` at its best candidate, scanning rows then columns in the given
/// orders; returns whether it was placed. The grid is left as it was when no
/// candidate is valid.
pub fn place_one(g: &mut Grid, s: &[u8], lines: &[usize], offsets: &[usize]) -> (placed: bool)
    requires
        s@.len() <= N,
        valid_order(lines@),
        valid_order(offsets@),
    ensures
        placed == place_step(cells(*old(g)), s@, lines@, offsets@) is Some,
        placed ==> cells(*final(g)) == place_step(cells(*old(g)), s@, lines@, offsets@)->0,
        !placed ==> *final(g) == *old(g),
{
    let ghost m = cells(*g);
    let mut best: Option<usize> = None;
    let mut best_pos: (bool, usize, usize) = (false, 0, 0);
    let ghost mut best_k: int = 0;
    let mut pass: usize = 0;
    while pass < 2
        invariant
            pass <= 2,
            s@.len() <= N,
            valid_order(lines@),
            valid_order(offsets@),
            m == cells(*g),
            best_upto(m, s@, lines@, offsets@, pass * N * N) == match best {
                None => None,
                Some(c) => Some((best_k, c as nat)),
            },
            best is Some ==> candidate(lines@, offsets@, best_k) == (
                best_pos.0,
                best_pos.1 as int,
                best_pos.2 as int,
            ),
            best_pos.1 < N,
            best_pos.2 < N,
        decreases 2 - pass,
    {
        let vertical = pass == 1;
        let mut li: usize = 0;
        while li < N
            invariant
                li <= N,
                pass < 2,
                vertical == (pass == 1),
                s@.len() <= N,
                valid_order(lines@),
                valid_order(offsets@),
                m == cells(*g),
                best_upto(m, s@, lines@, offsets@, pass * N * N + li * N) == match best {
                    None => None,
                    Some(c) => Some((best_k, c as nat)),
                },
                best is Some ==> candidate(lines@, offsets@, best_k) == (
                    best_pos.0,
                    best_pos.1 as int,
                    best_pos.2 as int,
                ),
                best_pos.1 < N,
                best_pos.2 < N,
            decreases N - li,
        {
            let l = lines[li];
            let line: [Option<u8>; N] = if vertical {
                read_column(g, l)
            } else {
                g[l]
            };
            assert(line@ == line_of(m, vertical, l as int));
            let mut oi: usize = 0;
            while oi < N
                invariant
                    li < N,
                    oi <= N,
                    pass < 2,
                    l == lines@[li as int],
                    l < N,
                    vertical == (pass == 1),
                    line@ == line_of(m, vertical, l as int),
                    s@.len() <= N,
                    valid_order(lines@),
                    valid_order(offsets@),
                    m == cells(*g),
                    best_upto(m, s@, lines@, offsets@, pass * N * N + li * N + oi) == match best {
                        None => None,
                        Some(c) => Some((best_k, c as nat)),
                    },
                    best is Some ==> candidate(lines@, offsets@, best_k) == (
                        best_pos.0,
                        best_pos.1 as int,
                        best_pos.2 as int,
                    ),
                    best_pos.1 < N,
                    best_pos.2 < N,
                decreases N - oi,
            {
                let p = offsets[oi];
                let ghost k = pass * N * N + li * N + oi;
                proof {
                    lemma_decode(lines@, offsets@, vertical, li as int, oi as int);
                    assert(k == (if vertical { N * N } else { 0 }) + li * N + oi);
                }
                let r = empty_count(p, s, &line);
                if let Some(c) = r {
                    let better = match best {
                        None => true,
                        Some(b) => b > c,
                    };
                    if better {
                        best = Some(c);
                        best_pos = (vertical, l, p);
                        proof {
                            best_k = k;
                        }
                    }
                }
                oi = oi + 1;
            }
            li = li + 1;
        }
        pass = pass + 1;
    }
    match best {
        None => false,
        Some(_) => {
            write_sequence(g, s, best_pos.0, best_pos.1, best_pos.2);
            true
        },
    }
}

/// Tries every sequence of `ss` in turn on a blank grid; returns the number
/// placed and the grid.
pub fn place_sequences(ss: &[Vec<u8>], lines: &[usize], offsets: &[usize]) -> (r: (usize, Grid))
    requires
        short_enough(seqs(ss@)),
        valid_order(lines@),
        valid_order(offsets@),
    ensures
        r.0 == engine(seqs(ss@), lines@, offsets@).1,
        cells(r.1) == engine(seqs(ss@), lines@, offsets@).0,
        r.0 <= ss@.len(),
{
    let mut g = blank_grid();
    let mut count: usize = 0;
    let mut i: usize = 0;
    while i < ss.len()
        invariant
            i <= ss@.len(),
            count <= i,
            short_enough(seqs(ss@)),
            valid_order(lines@),
            valid_order(offsets@),
            count == engine(seqs(ss@.take(i as int)), lines@, offsets@).1,
            cells(g) == engine(seqs(ss@.take(i as int)), lines@, offsets@).0,
        decreases ss@.len() - i,
    {
        let s = &ss[i];
        assert(seqs(ss@.take(i + 1)).drop_last() =~= seqs(ss@.take(i as int)));
        assert(seqs(ss@.take(i + 1)).last() == s@);
        assert(seqs(ss@)[i as int] == s@);
        if place_one(&mut g, s.as_slice(), lines, offsets) {
            count = count + 1;
        }
        i = i + 1;
    }
    assert(ss@.take(ss@.len() as int) =~= ss@);
    (count, g)
}

/// The score of trying the sequences of `ss` in turn on a blank grid.
pub open spec fn attempt_score(ss: Seq<Seq<u8>>, lines: Seq<usize>, offsets: Seq<usize>) -> int {
    let (g, n) = engine(ss, lines, offsets);
    score_of(n as int, ss.len() as int, unset_cells(g) as int)
}

/// Tries every sequence of `ss` in turn on a blank grid, with the given scan
/// orders; returns the score and the grid.
pub fn place_all(ss: &[Vec<u8>], lines: &[usize], offsets: &[usize]) -> (r: (u64, Grid))
    requires
        short_enough(seqs(ss@)),
        valid_order(lines@),
        valid_order(offsets@),
    ensures
        r.0 == attempt_score(seqs(ss@), lines@, offsets@),
        cells(r.1) == engine(seqs(ss@), lines@, offsets@).0,
{
    let (count, g) = place_sequences(ss, lines, offsets);
    let sc = grid_score(count, ss.len(), &g);
    (sc, g)
}

/// Placing is a function of its inputs: two attempts with the same
/// sequences and the same scan orders give the same grid and score.
pub proof fn lemma_attempt_deterministic(
    ss1: Seq<Seq<u8>>,
    ss2: Seq<Seq<u8>>,
    lines1: Seq<usize>,
    lines2: Seq<usize>,
    offsets1: Seq<usize>,
    offsets2: Seq<usize>,
)
    requires
        ss1 == ss2,
        lines1 == lines2,
        offsets1 == offsets2,
    ensures
        engine(ss1, lines1, offsets1) == engine(ss2, lines2, offsets2),
        attempt_score(ss1, lines1, offsets1) == attempt_score(ss2, lines2, offsets2),
{
}

/// With no sequences the grid stays blank, and the attempt counts as
/// complete: it scores `2 * SCALE`.
pub proof fn lemma_attempt_empty(lines: Seq<usize>, offsets: Seq<usize>)
    ensures
        engine(Seq::empty(), lines, offsets).0 == blank(),
        attempt_score(Seq::empty(), lines, offsets) == 2 * SCALE,
{
    lemma_unset_cells_blank();
    lemma_score_nothing_to_place();
}

} // verus!
