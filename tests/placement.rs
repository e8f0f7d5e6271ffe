use dna_grid::{
    blank_grid, count_unset, grid_score, match_dna, place_all, place_one, read_column, render,
    render_row, score, write_sequence, Grid, Search, N, SCALE,
};
use rand_pcg::Mcg128Xsl64;

fn identity() -> Vec<usize> {
    (0..N).collect()
}

fn filled(g: &Grid) -> usize {
    g.iter().map(|r| r.iter().filter(|c| c.is_some()).count()).sum()
}

#[test]
fn single_symbol_scores_from_unset_cells() {
    let ss = vec![vec![b'A']];
    let (sc, g) = place_all(&ss, &identity(), &identity());
    assert_eq!(g[0][0], Some(b'A'));
    assert_eq!(filled(&g), 1);
    assert_eq!(count_unset(&g), 399);
    assert_eq!(sc, 199501247);
}

#[test]
fn nothing_to_place_gives_blank_grid() {
    let ss: Vec<Vec<u8>> = Vec::new();
    let (sc, g) = place_all(&ss, &identity(), &identity());
    assert_eq!(g, [[None; N]; N]);
    assert_eq!(sc, 2 * SCALE);
    assert_eq!(sc, 200000000);
}

#[test]
fn second_sequence_reuses_overlap_first_in_scan_order() {
    let ss = vec![vec![b'A', b'B'], vec![b'B', b'A']];
    let (sc, g) = place_all(&ss, &identity(), &identity());
    assert_eq!(g[0][0], Some(b'A'));
    assert_eq!(g[0][1], Some(b'B'));
    assert_eq!(g[0][2], Some(b'A'));
    assert_eq!(filled(&g), 3);
    assert_eq!(sc, 198511166);
}

#[test]
fn scan_order_decides_ties() {
    let ss = vec![vec![b'Z']];
    let mut lines = identity();
    lines.swap(0, 7);
    let mut offsets = identity();
    offsets.swap(0, 3);
    let (_, g) = place_all(&ss, &lines, &offsets);
    assert_eq!(g[7][3], Some(b'Z'));
    assert_eq!(filled(&g), 1);
}

#[test]
fn column_chosen_when_cheaper() {
    let mut g = blank_grid();
    write_sequence(&mut g, &[b'X', b'Y', b'Z'], true, 4, 0);
    assert_eq!(g[0][4], Some(b'X'));
    assert_eq!(g[2][4], Some(b'Z'));
    let col = read_column(&g, 4);
    assert_eq!(col[1], Some(b'Y'));
    assert!(place_one(&mut g, &[b'Y', b'Z', b'W'], &identity(), &identity()));
    assert_eq!(g[3][4], Some(b'W'));
    assert_eq!(count_unset(&g), 396);
}

#[test]
fn vertical_write_wraps_to_top() {
    let mut g = blank_grid();
    write_sequence(&mut g, &[b'A', b'B', b'C'], true, 2, 19);
    assert_eq!(g[19][2], Some(b'A'));
    assert_eq!(g[0][2], Some(b'B'));
    assert_eq!(g[1][2], Some(b'C'));
    assert_eq!(count_unset(&g), 397);
}

#[test]
fn unplaceable_sequence_is_skipped() {
    let mut g = blank_grid();
    for r in 0..N {
        for c in 0..N {
            g[r][c] = Some(b'Q');
        }
    }
    let before = g;
    assert!(!place_one(&mut g, &[b'R'], &identity(), &identity()));
    assert_eq!(g, before);
    assert_eq!(grid_score(0, 1, &g), 0);
}

#[test]
fn partial_placement_scores_share_placed() {
    let ss = vec![vec![b'A'; N], vec![b'B'; N]];
    let mut g = blank_grid();
    for r in 0..N {
        for c in 0..N {
            g[r][c] = Some(b'A');
        }
    }
    assert_eq!(count_unset(&g), 0);
    assert!(place_one(&mut g, &ss[0], &identity(), &identity()));
    assert!(!place_one(&mut g, &ss[1], &identity(), &identity()));
    assert_eq!(grid_score(1, 2, &g), 50000000);
}

#[test]
fn score_formula_values() {
    assert_eq!(score(3, 3, 0), SCALE);
    assert_eq!(score(1, 3, 0), 33333333);
    assert_eq!(score(2, 3, 17), 66666667);
    assert_eq!(score(1, 512, 0), 195313);
    assert_eq!(score(0, 5, 400), 0);
    assert_eq!(score(1, 1, 399), 199501247);
    assert_eq!(score(0, 0, 400), 200000000);
}

#[test]
fn render_marks_unset_cells() {
    let mut g = blank_grid();
    g[0][0] = Some(b'C');
    g[5][19] = Some(b'T');
    let text = render(&g);
    assert_eq!(text.len(), N);
    assert_eq!(text[0][0], b'C');
    assert_eq!(text[0][1], b'.');
    assert_eq!(text[5][19], b'T');
    assert_eq!(render_row(&g[1]), vec![b'.'; N]);
}

#[test]
fn random_attempt_places_all_that_fit() {
    let ss = vec![vec![b'A', b'C'], vec![b'G', b'T', b'T']];
    let mut rng = Mcg128Xsl64::new(1);
    let (sc, g) = match_dna(&mut rng, &ss);
    assert_eq!(filled(&g), 5);
    assert_eq!(sc, score(2, 2, 395));
}

#[test]
fn search_is_deterministic_for_a_seed() {
    let input = vec![vec![b'A', b'B', b'C'], vec![b'C', b'D'], vec![b'B', b'C', b'D', b'E']];
    let mut ss1 = input.clone();
    let mut ss2 = input.clone();
    let mut a = Search::new(1);
    let mut b = Search::new(1);
    assert!(a.step(&mut ss1));
    assert!(b.step(&mut ss2));
    assert_eq!(a.best_score, b.best_score);
    assert_eq!(a.best_grid, b.best_grid);
    assert_eq!(ss1, ss2);
    let mut sorted = ss1.clone();
    sorted.sort();
    let mut expected = input.clone();
    expected.sort();
    assert_eq!(sorted, expected);
}

#[test]
fn search_keeps_best_on_ties() {
    let mut ss = vec![vec![b'A']];
    let mut s = Search::new(7);
    assert!(s.step(&mut ss));
    let kept = s.best_grid;
    assert_eq!(s.best_score, 199501247);
    assert!(!s.step(&mut ss));
    assert_eq!(s.best_grid, kept);
}

#[test]
fn random_orders_move_the_first_slot() {
    let ss = vec![vec![b'A']];
    let mut rng = Mcg128Xsl64::new(1);
    let (_, g) = match_dna(&mut rng, &ss);
    assert_eq!(filled(&g), 1);
    assert_eq!(g[0][0], None);
}

#[test]
fn step_reorders_the_sequences() {
    let input: Vec<Vec<u8>> = (0..8u8).map(|i| vec![b'A' + i]).collect();
    let mut ss = input.clone();
    let mut s = Search::new(1);
    s.step(&mut ss);
    assert_ne!(ss, input);
    let mut sorted = ss.clone();
    sorted.sort();
    assert_eq!(sorted, input);
}
