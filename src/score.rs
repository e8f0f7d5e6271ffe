//! Scoring a finished grid.

use crate::grid::{cells, count_unset, lemma_unset_cells_bound, unset_cells, Grid};
use crate::line::N;
use vstd::arithmetic::div_mod::lemma_fundamental_div_mod_converse;
use vstd::prelude::*;

verus! {

/// The score of a grid with every sequence placed and no cell unset.
pub const SCALE: u64 = 100000000;

/// `a / b` rounded to the nearest integer, halves rounded up.
pub open spec fn round_div(a: int, b: int) -> int {
    (2 * a + b) / (2 * b)
}

/// The score of an attempt that placed `placed` of `total` sequences and
/// left `unset` cells unset. When all were placed, a denser grid scores
/// higher: `SCALE * 2N² / (2N² - unset)`; otherwise the score is the share
/// placed, `SCALE * placed / total`; both rounded.
pub open spec fn score_of(placed: int, total: int, unset: int) -> int {
    if placed == total {
        round_div(SCALE * (2 * N * N), 2 * N * N - unset)
    } else {
        round_div(SCALE * placed, total)
    }
}

/// Computes the score of an attempt (see `score_of`).
pub fn score(placed: usize, total: usize, unset: usize) -> (r: u64)
    requires
        placed <= total,
        unset <= N * N,
    ensures
        r == score_of(placed as int, total as int, unset as int),
{
    if placed == total {
        let n2: u64 = (2 * N * N) as u64;
        let a: u64 = SCALE * n2;
        let b: u64 = n2 - unset as u64;
        (2 * a + b) / (2 * b)
    } else {
        let a: u128 = SCALE as u128 * placed as u128;
        let b: u128 = total as u128;
        assert(a <= SCALE * b - SCALE) by (nonlinear_arith)
            requires
                a == SCALE * placed,
                b == total,
                placed + 1 <= total,
        ;
        let q: u128 = (2 * a + b) / (2 * b);
        assert(q <= SCALE) by (nonlinear_arith)
            requires
                q == (2 * a + b) / (2 * b),
                a <= SCALE * b - SCALE,
                b >= 1,
        ;
        q as u64
    }
}

/// With every sequence placed and no cell left unset, the score is exactly
/// `SCALE`.
pub proof fn lemma_score_complete(m: int)
    ensures
        score_of(m, m, 0) == SCALE,
{
    lemma_fundamental_div_mod_converse(
        2 * (SCALE * (2 * N * N)) + 2 * N * N,
        2 * (2 * N * N),
        SCALE as int,
        2 * N * N,
    );
}

/// With `k` of `m` sequences placed, `k < m`, the score is `SCALE * k / m`
/// rounded; it never exceeds the score of any attempt that placed them all.
pub proof fn lemma_score_partial(k: int, m: int, d: int, e: int)
    requires
        0 <= k < m,
        0 <= e <= N * N,
    ensures
        score_of(k, m, d) == round_div(SCALE * k, m),
        score_of(k, m, d) <= SCALE,
        SCALE <= score_of(m, m, e),
{
    let a = SCALE * k;
    assert(a <= SCALE * m - SCALE) by (nonlinear_arith)
        requires
            a == SCALE * k,
            k + 1 <= m,
    ;
    assert((2 * a + m) / (2 * m) <= SCALE) by (nonlinear_arith)
        requires
            a <= SCALE * m - SCALE,
            m >= 1,
    ;
    let b = 2 * N * N - e;
    assert(SCALE <= (2 * (SCALE * (2 * N * N)) + b) / (2 * b)) by (nonlinear_arith)
        requires
            1 <= b <= 2 * N * N,
    ;
}

/// Among attempts that placed every sequence, fewer unset cells never
/// score less.
pub proof fn lemma_score_denser_not_lower(m: int, d1: int, d2: int)
    requires
        0 <= d1 <= d2 <= N * N,
    ensures
        score_of(m, m, d1) <= score_of(m, m, d2),
{
    let a = SCALE * (2 * N * N);
    let b1 = 2 * N * N - d1;
    let b2 = 2 * N * N - d2;
    let q1 = (2 * a + b1) / (2 * b1);
    let q2 = (2 * a + b2) / (2 * b2);
    assert(q1 * (2 * b1) <= 2 * a + b1) by (nonlinear_arith)
        requires
            q1 == (2 * a + b1) / (2 * b1),
            b1 >= 1,
    ;
    assert(q1 >= 1) by (nonlinear_arith)
        requires
            q1 == (2 * a + b1) / (2 * b1),
            1 <= b1 <= 2 * N * N,
            a == SCALE * (2 * N * N),
    ;
    assert(q1 * (2 * b2) <= 2 * a + b2) by (nonlinear_arith)
        requires
            q1 * (2 * b1) <= 2 * a + b1,
            q1 >= 1,
            1 <= b2 <= b1,
    ;
    assert(q1 <= q2) by (nonlinear_arith)
        requires
            q1 * (2 * b2) <= 2 * a + b2,
            q2 == (2 * a + b2) / (2 * b2),
            b2 >= 1,
            q1 >= 0,
    ;
}

/// An attempt with nothing to place counts as complete on a blank grid,
/// and scores `2 * SCALE`.
pub proof fn lemma_score_nothing_to_place()
    ensures
        score_of(0, 0, N * N) == 2 * SCALE,
{
    assert(2 * (SCALE * (2 * N * N)) + N * N == 160000000400);
    lemma_fundamental_div_mod_converse(160000000400, 800, 200000000, 400);
}

/// Scores a finished grid: `placed` of `total` sequences were placed.
pub fn grid_score(placed: usize, total: usize, g: &Grid) -> (r: u64)
    requires
        placed <= total,
    ensures
        r == score_of(placed as int, total as int, unset_cells(cells(*g)) as int),
{
    let d = count_unset(g);
    proof {
        lemma_unset_cells_bound(cells(*g));
    }
    score(placed, total, d)
}

} // verus!
