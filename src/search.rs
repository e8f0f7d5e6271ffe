//! The search driver: repeated attempts under random scan orders and
//! sequence orders, keeping the best grid found.

use crate::engine::{attempt_score, engine, place_all, seqs, short_enough, valid_order};
use crate::grid::{blank, blank_grid, cells, Grid};
use crate::line::N;
use rand::seq::SliceRandom;
use rand_pcg::Mcg128Xsl64;
use vstd::prelude::*;

verus! {

#[verifier::external_type_specification]
#[verifier::external_body]
pub struct ExMcg128Xsl64(rand_pcg::Mcg128Xsl64);

/// Relies on rand_pcg's Mcg128Xsl64::new: a generator seeded from `state`.
pub assume_specification[ rand_pcg::Mcg128Xsl64::new ](state: u128) -> Mcg128Xsl64;

/// Relies on rand's SliceRandom::shuffle, which only swaps items: the result
/// holds the same items, in an order drawn from `rng`.
#[verifier::external_body]
fn shuffle<T>(rng: &mut Mcg128Xsl64, v: &mut Vec<T>)
    ensures
        final(v)@.to_multiset() == old(v)@.to_multiset(),
{
    v.as_mut_slice().shuffle(rng)
}

/// The indices `0..N` in increasing order.
pub open spec fn indices() -> Seq<usize> {
    Seq::new(N as nat, |i: int| i as usize)
}

/// `v` is an order of visit: a permutation of `0..N`.
pub open spec fn is_order(v: Seq<usize>) -> bool {
    v.to_multiset() == indices().to_multiset()
}

proof fn lemma_order_valid(v: Seq<usize>)
    requires
        is_order(v),
    ensures
        valid_order(v),
{
    broadcast use vstd::seq_lib::group_to_multiset_ensures;

    assert(v.len() == v.to_multiset().len());
    assert(indices().len() == indices().to_multiset().len());
    assert forall|i: int| 0 <= i < N implies #[trigger] v[i] < N by {
        assert(v.to_multiset().count(v[i]) > 0);
        assert(indices().contains(v[i]));
    }
}

proof fn lemma_shuffle_short(a: Seq<Vec<u8>>, b: Seq<Vec<u8>>)
    requires
        a.to_multiset() == b.to_multiset(),
        short_enough(seqs(a)),
    ensures
        short_enough(seqs(b)),
        a.len() == b.len(),
{
    broadcast use vstd::seq_lib::group_to_multiset_ensures;

    assert(a.len() == a.to_multiset().len());
    assert(b.len() == b.to_multiset().len());
    assert forall|i: int| 0 <= i < b.len() implies (#[trigger] seqs(b)[i]).len() <= N by {
        assert(b.to_multiset().count(b[i]) > 0);
        assert(a.contains(b[i]));
        let j = choose|j: int| 0 <= j < a.len() && a[j] == b[i];
        assert(seqs(a)[j].len() <= N);
    }
}

/// The indices `0..N`, shuffled by `rng`.
fn random_order(rng: &mut Mcg128Xsl64) -> (v: Vec<usize>)
    ensures
        is_order(v@),
        valid_order(v@),
{
    let mut v: Vec<usize> = Vec::new();
    let mut i: usize = 0;
    while i < N
        invariant
            i <= N,
            v@ == indices().take(i as int),
        decreases N - i,
    {
        v.push(i);
        i = i + 1;
        assert(v@ =~= indices().take(i as int));
    }
    assert(v@ =~= indices());
    shuffle(rng, &mut v);
    proof {
        lemma_order_valid(v@);
    }
    v
}

/// One attempt: draws the offset order, then the line order, from `rng`, and
/// places the sequences of `ss` in turn; returns the score and the grid.
pub fn match_dna(rng: &mut Mcg128Xsl64, ss: &[Vec<u8>]) -> (r: (u64, Grid))
    requires
        short_enough(seqs(ss@)),
    ensures
        exists|lines: Seq<usize>, offsets: Seq<usize>|
            is_order(lines) && is_order(offsets) && r.0 == attempt_score(seqs(ss@), lines, offsets)
                && cells(r.1) == engine(seqs(ss@), lines, offsets).0,
{
    let offsets = random_order(rng);
    let lines = random_order(rng);
    let r = place_all(ss, lines.as_slice(), offsets.as_slice());
    assert(is_order(lines@) && is_order(offsets@) && r.0 == attempt_score(seqs(ss@), lines@, offsets@)
        && cells(r.1) == engine(seqs(ss@), lines@, offsets@).0);
    r
}

/// The state of a search: the random source and the best result so far.
pub struct Search {
    pub rng: Mcg128Xsl64,
    pub best_score: u64,
    pub best_grid: Grid,
}

impl Search {
    /// A search seeded with `seed`, with a blank grid of score 0 as its best.
    pub fn new(seed: u128) -> (s: Search)
        ensures
            s.best_score == 0,
            cells(s.best_grid) == blank(),
    {
        Search { rng: Mcg128Xsl64::new(seed), best_score: 0, best_grid: blank_grid() }
    }

    /// Runs one attempt on `ss` as it stands, keeps its grid when it scores
    /// strictly higher than the best so far, then shuffles `ss` for the next
    /// attempt. Returns whether the best improved.
    pub fn step(&mut self, ss: &mut Vec<Vec<u8>>) -> (improved: bool)
        requires
            short_enough(seqs(old(ss)@)),
        ensures
            exists|lines: Seq<usize>, offsets: Seq<usize>|
                is_order(lines) && is_order(offsets) && improved == (attempt_score(
                    seqs(old(ss)@),
                    lines,
                    offsets,
                ) > old(self).best_score) && (improved ==> final(self).best_score
                    == attempt_score(seqs(old(ss)@), lines, offsets) && cells(final(self).best_grid)
                    == (#[trigger] engine(seqs(old(ss)@), lines, offsets)).0),
            !improved ==> final(self).best_score == old(self).best_score && final(self).best_grid
                == old(self).best_grid,
            final(ss)@.to_multiset() == old(ss)@.to_multiset(),
            short_enough(seqs(final(ss)@)),
    {
        let (sc, g) = match_dna(&mut self.rng, ss.as_slice());
        let improved = sc > self.best_score;
        if improved {
            self.best_score = sc;
            self.best_grid = g;
        }
        let ghost before = ss@;
        shuffle(&mut self.rng, ss);
        proof {
            lemma_shuffle_short(before, ss@);
        }
        improved
    }
}

} // verus!
