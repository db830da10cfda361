use a2048::{merge_2048, sort_zeros, Placement};

#[test]
fn merge_toward_end_example() {
    let arr = vec![2, 2, 0, 2, 2, 8, 0, 0, 8, 4, 0, 4, 8];
    let (merged, points) = merge_2048(&arr, Placement::End);
    assert_eq!(merged, vec![0, 0, 0, 0, 0, 0, 0, 0, 4, 4, 16, 8, 8]);
    assert_eq!(points, 32);
}

#[test]
fn merge_toward_start_example() {
    let arr = vec![2, 2, 0, 2, 2, 8, 0, 0, 8, 4, 0, 4, 8];
    let (merged, points) = merge_2048(&arr, Placement::Start);
    assert_eq!(merged, vec![4, 4, 16, 8, 8, 0, 0, 0, 0, 0, 0, 0, 0]);
    assert_eq!(points, 32);
}

#[test]
fn merge_compacts_zeros_without_merging() {
    let arr = vec![0, 2, 1, 8, 0, 0, 3, 4, 0];
    let (merged, points) = merge_2048(&arr, Placement::End);
    assert_eq!(merged, vec![0, 0, 0, 0, 2, 1, 8, 3, 4]);
    assert_eq!(points, 0);
}

#[test]
fn sort_zeros_toward_end_puts_zeros_first() {
    let mut arr = vec![0, 2, 1, 8, 0, 0, 3, 4, 0];
    sort_zeros(&mut arr, Placement::End);
    assert_eq!(arr, vec![0, 0, 0, 0, 2, 1, 8, 3, 4]);
}

#[test]
fn sort_zeros_toward_start_puts_zeros_last() {
    let mut arr = vec![0, 2, 1, 8, 0, 0, 3, 4, 0];
    sort_zeros(&mut arr, Placement::Start);
    assert_eq!(arr, vec![2, 1, 8, 3, 4, 0, 0, 0, 0]);
}

#[test]
fn merge_conserves_the_sum() {
    let arr = vec![2, 2, 0, 2, 2, 8, 0, 0, 8, 4, 0, 4, 8];
    let before: usize = arr.iter().sum();
    for dir in [Placement::Start, Placement::End] {
        let (merged, _) = merge_2048(&arr, dir);
        let after: usize = merged.iter().sum();
        assert_eq!(before, after);
    }
}

#[test]
fn points_equal_sum_minus_unmerged_values() {
    // Of [2,2,0,2,2,8,0,0,8,4,0,4,8] merged toward the end, only the last 8
    // comes through unmerged; every other tile takes part in a merge.
    let arr = vec![2, 2, 0, 2, 2, 8, 0, 0, 8, 4, 0, 4, 8];
    let input_sum: usize = arr.iter().sum();
    let (_, points) = merge_2048(&arr, Placement::End);
    assert_eq!(points, input_sum - 8);
}

#[test]
fn settled_line_is_unchanged_with_zero_points() {
    let arr = vec![0, 0, 2, 4, 2];
    let (once, points_once) = merge_2048(&arr, Placement::End);
    assert_eq!(once, arr);
    assert_eq!(points_once, 0);
    let (twice, points_twice) = merge_2048(&once, Placement::End);
    assert_eq!(twice, once);
    assert_eq!(points_twice, 0);
}

#[test]
fn direction_symmetry_on_a_sample_line() {
    let arr = vec![4, 4, 2, 0, 2, 16, 16, 0, 4];
    let (toward_end, points_end) = merge_2048(&arr, Placement::End);
    let mut reversed: Vec<usize> = arr.clone();
    reversed.reverse();
    let (mut mirrored, points_start) = merge_2048(&reversed, Placement::Start);
    mirrored.reverse();
    assert_eq!(toward_end, mirrored);
    assert_eq!(points_end, points_start);
}

#[test]
fn three_equal_tiles_merge_only_once() {
    let arr = vec![2, 2, 2];
    let (merged, points) = merge_2048(&arr, Placement::End);
    assert_eq!(merged, vec![0, 2, 4]);
    assert_eq!(points, 4);

    let (merged, points) = merge_2048(&arr, Placement::Start);
    assert_eq!(merged, vec![4, 2, 0]);
    assert_eq!(points, 4);
}

#[test]
fn four_equal_tiles_merge_twice() {
    let arr = vec![2, 2, 2, 2];
    let (merged, points) = merge_2048(&arr, Placement::End);
    assert_eq!(merged, vec![0, 0, 4, 4]);
    assert_eq!(points, 8);
}

#[test]
fn merge_keeps_length_on_empty_and_single_lines() {
    let (merged, points) = merge_2048(&vec![], Placement::End);
    assert_eq!(merged, Vec::<usize>::new());
    assert_eq!(points, 0);

    let (merged, points) = merge_2048(&vec![2], Placement::Start);
    assert_eq!(merged, vec![2]);
    assert_eq!(points, 0);
}
