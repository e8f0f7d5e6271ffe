use dna_grid::{empty_count, write_into, N};

#[test]
fn test_row_contain_all_none() {
    let s = vec![b'A'; 12];
    for x in 0..N {
        assert_eq!(empty_count(x, &s, &[None; N]), Some(12));
    }
}

#[test]
fn test_row_contain_trivial() {
    let s = vec![b'A', b'B', b'C'];
    let row = [
        Some(b'A'), Some(b'B'), Some(b'C'), None, None,
        None, None, None, None, None,
        None, None, None, None, None,
        None, None, None, None, None,
    ];
    assert_eq!(empty_count(0, &s, &row), Some(0));
    assert_eq!(empty_count(1, &s, &row), None);
    assert_eq!(empty_count(2, &s, &row), None);
    assert_eq!(empty_count(18, &s, &row), None);
    assert_eq!(empty_count(19, &s, &row), None);
}

#[test]
fn test_row_contain_wrap() {
    let s = vec![b'H', b'A', b'B', b'C'];
    let row = [
        Some(b'B'), Some(b'C'), None, None, None,
        None, None, None, None, None,
        None, None, None, None, None,
        None, None, None, Some(b'H'), Some(b'A'),
    ];
    assert_eq!(empty_count(18, &s, &row), Some(0));
    assert_eq!(empty_count(17, &s, &row), None);
    assert_eq!(empty_count(19, &s, &row), None);
    assert_eq!(empty_count(0, &s, &row), None);
    assert_eq!(empty_count(1, &s, &row), None);
}

#[test]
fn test_row_contain_wrap2() {
    let s = vec![b'H', b'A', b'F', b'C', b'H', b'D'];
    let row = [
        None, Some(b'A'), Some(b'F'), None, None,
        None, None, None, None, None,
        None, None, None, None, None,
        None, None, None, None, None,
    ];
    assert_eq!(empty_count(0, &s, &row), Some(4));
    assert_eq!(empty_count(1, &s, &row), None);
    assert_eq!(empty_count(18, &s, &row), None);
    assert_eq!(empty_count(19, &s, &row), None);
}

#[test]
fn single_mismatch_rejects_whole_candidate() {
    let s = vec![b'A', b'B', b'C', b'D'];
    let mut row = [None; N];
    row[5] = Some(b'A');
    row[6] = Some(b'B');
    row[8] = Some(b'X');
    assert_eq!(empty_count(5, &s, &row), None);
    row[8] = Some(b'D');
    assert_eq!(empty_count(5, &s, &row), Some(1));
}

#[test]
fn wrapped_write_touches_tail_then_head() {
    let s = vec![b'P', b'Q', b'R', b'S', b'T'];
    let mut row = [None; N];
    write_into(&mut row, &s, 17);
    assert_eq!(row[17], Some(b'P'));
    assert_eq!(row[18], Some(b'Q'));
    assert_eq!(row[19], Some(b'R'));
    assert_eq!(row[0], Some(b'S'));
    assert_eq!(row[1], Some(b'T'));
    assert_eq!(row[2], None);
    assert_eq!(row[16], None);
    assert_eq!(empty_count(17, &s, &row), Some(0));
    assert_eq!(empty_count(18, &s, &row), None);
}

#[test]
fn exact_fit_at_last_cell_does_not_wrap() {
    let s = vec![b'K', b'L'];
    let mut row = [None; N];
    write_into(&mut row, &s, 18);
    assert_eq!(row[18], Some(b'K'));
    assert_eq!(row[19], Some(b'L'));
    assert_eq!(row[0], None);
}

#[test]
fn cost_of_reuse_is_zero_and_of_fresh_region_is_length() {
    let s = vec![b'G', b'A', b'T', b'C', b'A'];
    let mut row = [None; N];
    assert_eq!(empty_count(3, &s, &row), Some(5));
    write_into(&mut row, &s, 3);
    assert_eq!(empty_count(3, &s, &row), Some(0));
}

#[test]
fn conflicting_pair_rejected_on_overlap_accepted_apart() {
    let first = vec![b'A', b'B', b'C'];
    let second = vec![b'C', b'B', b'A'];
    let mut row = [None; N];
    write_into(&mut row, &first, 0);
    assert_eq!(empty_count(0, &second, &row), None);
    assert_eq!(empty_count(2, &second, &row), Some(2));
    assert_eq!(empty_count(5, &second, &row), Some(3));
}
