use tiles2048::row::{
    align_row, align_to_left, align_to_right, is_legal, join_pairs, join_pairs_left, merges_fit,
    to_left, to_right, Bias, Phase,
};

fn sum(row: &[i16]) -> i32 {
    row.iter().map(|v| *v as i32).sum()
}

fn tiles(row: &[i16]) -> usize {
    row.iter().filter(|v| **v != 0).count()
}

#[test]
fn left_move_of_spaced_pair_phase_by_phase() {
    let mut row = [2i16, 0, 2, 0];
    assert!(align_to_left(&mut row));
    assert_eq!(row, [2, 2, 0, 0]);
    assert!(join_pairs_left(&mut row));
    assert_eq!(row, [4, 0, 0, 0]);
    assert!(!align_to_left(&mut row));
    assert_eq!(row, [4, 0, 0, 0]);
}

#[test]
fn left_move_merges_spaced_pair() {
    let mut row = [2i16, 0, 2, 0];
    let changed = to_left(&mut row);
    assert_eq!(row, [4, 0, 0, 0]);
    assert!(changed);
}

#[test]
fn right_move_of_four_equal_tiles_phase_by_phase() {
    let mut row = [2i16, 2, 2, 2];
    assert!(!align_to_right(&mut row));
    assert_eq!(row, [2, 2, 2, 2]);
    assert!(join_pairs(&mut row));
    assert_eq!(row, [0, 4, 0, 4]);
    assert!(align_to_right(&mut row));
    assert_eq!(row, [0, 0, 4, 4]);
}

#[test]
fn right_move_merges_nearest_pairs_first() {
    let mut row = [2i16, 2, 2, 2];
    let changed = to_right(&mut row);
    assert_eq!(row, [0, 0, 4, 4]);
    assert!(changed);
}

#[test]
fn empty_row_is_left_alone_by_either_move() {
    let mut row = [0i16, 0, 0, 0];
    assert!(!to_left(&mut row));
    assert_eq!(row, [0, 0, 0, 0]);
    assert!(!to_right(&mut row));
    assert_eq!(row, [0, 0, 0, 0]);
}

#[test]
fn three_equal_tiles_merge_at_the_bias_end() {
    let mut row = [2i16, 2, 2, 0];
    assert!(to_right(&mut row));
    assert_eq!(row, [0, 0, 2, 4]);
    let mut row = [2i16, 2, 2, 0];
    assert!(to_left(&mut row));
    assert_eq!(row, [4, 2, 0, 0]);
    let mut row = [0i16, 2, 2, 2];
    assert!(join_pairs(&mut row));
    assert_eq!(row, [0, 2, 0, 4]);
    let mut row = [2i16, 2, 2, 0];
    assert!(join_pairs_left(&mut row));
    assert_eq!(row, [4, 0, 2, 0]);
}

#[test]
fn compacting_twice_is_compacting_once() {
    let rows: [[i16; 5]; 4] =
        [[0, 2, 0, 4, 0], [8, 0, 0, 0, 2], [0, 0, 0, 0, 0], [2, 4, 8, 16, 32]];
    for start in rows {
        let mut once = start;
        align_to_left(&mut once);
        let mut twice = once;
        assert!(!align_to_left(&mut twice));
        assert_eq!(twice, once);
        let mut once = start;
        align_to_right(&mut once);
        let mut twice = once;
        assert!(!align_to_right(&mut twice));
        assert_eq!(twice, once);
    }
}

#[test]
fn compaction_keeps_the_order_of_tiles() {
    let mut row = [0i16, 2, 0, 4, 8, 0];
    assert!(align_to_left(&mut row));
    assert_eq!(row, [2, 4, 8, 0, 0, 0]);
    let mut row = [0i16, 2, 0, 4, 8, 0];
    assert!(align_to_right(&mut row));
    assert_eq!(row, [0, 0, 0, 2, 4, 8]);
}

#[test]
fn settled_row_without_equal_neighbours_stays() {
    let mut row = [2i16, 4, 8, 0];
    assert!(!to_left(&mut row));
    assert_eq!(row, [2, 4, 8, 0]);
    let mut row = [0i16, 2, 4, 2];
    assert!(!to_right(&mut row));
    assert_eq!(row, [0, 2, 4, 2]);
    let mut row = [2i16, 4, 2, 4];
    assert!(!to_left(&mut row));
    assert!(!to_right(&mut row));
    assert_eq!(row, [2, 4, 2, 4]);
}

#[test]
fn row_with_a_blank_on_the_bias_side_moves() {
    let mut row = [0i16, 2, 0, 0];
    assert!(to_left(&mut row));
    assert_eq!(row, [2, 0, 0, 0]);
    let mut row = [2i16, 4, 8, 0];
    assert!(to_right(&mut row));
    assert_eq!(row, [0, 2, 4, 8]);
}

#[test]
fn merge_pass_keeps_the_sum_and_drops_one_tile_per_merge() {
    let mut row = [4i16, 4, 8, 8, 2, 0, 2];
    let before = row;
    assert!(join_pairs_left(&mut row));
    assert_eq!(row, [8, 0, 16, 0, 2, 0, 2]);
    assert_eq!(sum(&row), sum(&before));
    assert_eq!(tiles(&row), tiles(&before) - 2);
    let mut row = before;
    assert!(join_pairs(&mut row));
    assert_eq!(row, [0, 8, 0, 16, 2, 0, 2]);
    assert_eq!(sum(&row), sum(&before));
    assert_eq!(tiles(&row), tiles(&before) - 2);
}

#[test]
fn move_keeps_the_sum_of_a_row() {
    let mut row = [2i16, 2, 4, 4, 8, 0, 8, 16];
    let before = row;
    assert!(to_left(&mut row));
    assert_eq!(row, [4, 8, 16, 16, 0, 0, 0, 0]);
    assert_eq!(sum(&row), sum(&before));
    let mut row = before;
    assert!(to_right(&mut row));
    assert_eq!(row, [0, 0, 0, 0, 4, 8, 16, 16]);
    assert_eq!(sum(&row), sum(&before));
}

#[test]
fn merged_tile_is_not_merged_again_in_the_same_move() {
    let mut row = [2i16, 2, 4, 0];
    assert!(to_left(&mut row));
    assert_eq!(row, [4, 4, 0, 0]);
    let mut row = [0i16, 4, 2, 2];
    assert!(to_right(&mut row));
    assert_eq!(row, [0, 0, 4, 4]);
    let mut row = [4i16, 4, 8, 16];
    assert!(to_left(&mut row));
    assert_eq!(row, [8, 8, 16, 0]);
}

#[test]
fn merge_pass_without_equal_neighbours_changes_nothing() {
    let mut row = [2i16, 0, 2, 4];
    assert!(!join_pairs(&mut row));
    assert!(!join_pairs_left(&mut row));
    assert_eq!(row, [2, 0, 2, 4]);
}

#[test]
fn align_row_runs_the_pass_that_is_named() {
    let mut row = [0i16, 2, 2, 0];
    assert!(align_row(&mut row, Phase::Compact, Bias::Left));
    assert_eq!(row, [2, 2, 0, 0]);
    assert!(align_row(&mut row, Phase::Compact, Bias::Right));
    assert_eq!(row, [0, 0, 2, 2]);
    assert!(align_row(&mut row, Phase::Merge, Bias::Left));
    assert_eq!(row, [0, 0, 4, 0]);
    let mut row = [0i16, 2, 2, 0];
    assert!(align_row(&mut row, Phase::Merge, Bias::Right));
    assert_eq!(row, [0, 0, 4, 0]);
    assert!(!align_row(&mut row, Phase::Merge, Bias::Right));
}

#[test]
fn rows_of_no_cell_and_of_one_cell_stay() {
    let mut none: [i16; 0] = [];
    assert!(!to_left(&mut none));
    assert!(!to_right(&mut none));
    assert!(!align_to_left(&mut none));
    assert!(!align_to_right(&mut none));
    assert!(!join_pairs(&mut none));
    assert!(!join_pairs_left(&mut none));
    let mut one = [8i16];
    assert!(!to_left(&mut one));
    assert!(!to_right(&mut one));
    assert_eq!(one, [8]);
}

#[test]
fn moves_work_on_a_vector_as_on_an_array() {
    let mut row = vec![0i16, 4, 4, 8, 8, 0];
    assert!(to_left(&mut row));
    assert_eq!(row, vec![8, 16, 0, 0, 0, 0]);
}

#[test]
fn largest_merge_that_fits() {
    let mut row = [8192i16, 8192, 0, 0];
    assert!(merges_fit(&row));
    assert!(to_left(&mut row));
    assert_eq!(row, [16384, 0, 0, 0]);
}

#[test]
fn merges_fit_tells_the_merge_that_is_too_large() {
    assert!(!merges_fit(&[16384, 16384]));
    assert!(!merges_fit(&[16384, 0, 0, 16384]));
    assert!(!merges_fit(&[2, 16384, 0, 16384, 4]));
    assert!(merges_fit(&[16384, 2, 16384]));
    assert!(merges_fit(&[16384, 8192, 4096]));
    assert!(merges_fit(&[]));
    assert!(merges_fit(&[0, 0]));
    assert!(merges_fit(&[-16384, -16384]));
    assert!(!merges_fit(&[-16385, -16385]));
    assert!(merges_fit(&[16383, 16383]));
}

#[test]
fn legal_values_are_zero_and_the_powers_of_two_from_two() {
    let mut power: i16 = 2;
    loop {
        assert!(is_legal(power));
        if power == 16384 {
            break;
        }
        power *= 2;
    }
    assert!(is_legal(0));
    for v in [1i16, 3, 5, 6, 7, 12, 100, 1000, 32767, -1, -2, -4, -32768] {
        assert!(!is_legal(v));
    }
}
