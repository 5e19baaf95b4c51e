use exercises::algorithm::insertion_sort_analysis::{
    insertion_sort, merge_and_count, merge_sort_and_count,
};

#[test]
fn insertion_sort_analysis_01() {
    let result = insertion_sort(&[1, 1, 1, 2, 2]);
    assert_eq!(result, 0);
}

#[test]
fn insertion_sort_analysis_02() {
    let result = insertion_sort(&[2, 1, 3, 1, 2]);
    assert_eq!(result, 4);
}

#[test]
fn insertion_sort_analysis_03() {
    // Empty array
    assert_eq!(insertion_sort(&[]), 0);
}

#[test]
fn insertion_sort_analysis_04() {
    // Single element
    assert_eq!(insertion_sort(&[5]), 0);
}

#[test]
fn insertion_sort_analysis_05() {
    // Already sorted
    assert_eq!(insertion_sort(&[1, 2, 3, 4, 5]), 0);
}

#[test]
fn insertion_sort_analysis_06() {
    // Reverse sorted (maximum inversions)
    assert_eq!(insertion_sort(&[5, 4, 3, 2, 1]), 10);
}

#[test]
fn insertion_sort_analysis_07() {
    // All same elements
    assert_eq!(insertion_sort(&[3, 3, 3, 3]), 0);
}

fn inversions_by_pairs(arr: &[i32]) -> u64 {
    let mut n = 0;
    for i in 0..arr.len() {
        for j in i + 1..arr.len() {
            if arr[i] > arr[j] {
                n += 1;
            }
        }
    }
    n
}

#[test]
fn inversions_agree_with_counting_pairs() {
    let mut seed: u64 = 12345;
    for len in 0..40usize {
        let arr: Vec<i32> = (0..len)
            .map(|_| {
                seed = seed.wrapping_mul(6364136223846793005).wrapping_add(1442695040888963407);
                ((seed >> 33) % 17) as i32 - 8
            })
            .collect();
        assert_eq!(insertion_sort(&arr), inversions_by_pairs(&arr), "{:?}", arr);
    }
    assert_eq!(insertion_sort(&[i32::MAX, i32::MIN, 0, i32::MIN, i32::MAX]), 4);
}

#[test]
fn long_reversed_input_needs_more_than_32_bits() {
    let arr: Vec<i32> = (0..100_000).rev().collect();
    assert_eq!(insertion_sort(&arr), 4_999_950_000);
}

#[test]
fn merge_sort_sorts_the_range_and_leaves_the_rest() {
    let mut arr = vec![9, 5, 4, 3, 2, 1, 0];
    assert_eq!(merge_sort_and_count(&mut arr, 1, 4), 6);
    assert_eq!(arr, vec![9, 2, 3, 4, 5, 1, 0]);
    assert_eq!(merge_sort_and_count(&mut arr, 3, 3), 0);
    assert_eq!(merge_sort_and_count(&mut arr, 5, 2), 0);
    assert_eq!(arr, vec![9, 2, 3, 4, 5, 1, 0]);
    assert_eq!(merge_sort_and_count(&mut arr, 0, 6), 6 + 4 + 5);
    assert_eq!(arr, vec![0, 1, 2, 3, 4, 5, 9]);
}

#[test]
fn merge_counts_pairs_across_the_runs() {
    let mut arr = vec![7, 1, 4, 6, 2, 3, 5, 0];
    // runs [1, 4, 6] and [2, 3, 5]
    assert_eq!(merge_and_count(&mut arr, 1, 3, 6), 2 + 2 + 1);
    assert_eq!(arr, vec![7, 1, 2, 3, 4, 5, 6, 0]);
    let mut same = vec![1, 1, 1, 1];
    assert_eq!(merge_and_count(&mut same, 0, 1, 3), 0);
    let mut single = vec![2, 1];
    assert_eq!(merge_and_count(&mut single, 0, 0, 1), 1);
    assert_eq!(single, vec![1, 2]);
    let mut lone = vec![3, 4];
    assert_eq!(merge_and_count(&mut lone, 0, 1, 1), 0);
    assert_eq!(lone, vec![3, 4]);
}
