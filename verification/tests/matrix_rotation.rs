use exercises::algorithm::matrix_rotation::{matrix_rotation, spiral_traversal};
use exercises::algorithm::spiral_data::SpiralData;

#[test]
fn matrix_rotation_01() {
    let result = matrix_rotation(
        &[
            vec![1, 2, 3, 4],
            vec![5, 6, 7, 8],
            vec![9, 10, 11, 12],
            vec![13, 14, 15, 16],
        ],
        2,
    );
    assert_eq!(
        result,
        vec![
            vec![3, 4, 8, 12],
            vec![2, 11, 10, 16],
            vec![1, 7, 6, 15],
            vec![5, 9, 13, 14],
        ]
    );
}

#[test]
fn matrix_rotation_02() {
    let result = matrix_rotation(
        &[
            vec![1, 2, 3, 4],
            vec![7, 8, 9, 10],
            vec![13, 14, 15, 16],
            vec![19, 20, 21, 22],
            vec![25, 26, 27, 28],
        ],
        7,
    );
    assert_eq!(
        result,
        vec![
            vec![28, 27, 26, 25],
            vec![22, 9, 15, 19],
            vec![16, 8, 21, 13],
            vec![10, 14, 20, 7],
            vec![4, 3, 2, 1],
        ]
    );
}

#[test]
fn matrix_rotation_03() {
    let result = matrix_rotation(&[vec![1, 1], vec![1, 1]], 3);
    assert_eq!(result, vec![vec![1, 1], vec![1, 1]]);
}

#[test]
fn rotation_by_a_full_turn_changes_nothing() {
    let matrix = [vec![1, 2, 3], vec![4, 5, 6], vec![7, 8, 9]];
    // the outer ring has eight places, the inner ring one
    assert_eq!(matrix_rotation(&matrix, 8), matrix.to_vec());
    assert_eq!(matrix_rotation(&matrix, 0), matrix.to_vec());
    assert_eq!(
        matrix_rotation(&matrix, 1),
        vec![vec![2, 3, 6], vec![1, 5, 9], vec![4, 7, 8]]
    );
    assert_eq!(matrix_rotation(&matrix, 9), matrix_rotation(&matrix, 1));
}

#[test]
fn rotation_of_thin_and_empty_matrices() {
    assert_eq!(matrix_rotation(&[], 3), Vec::<Vec<i32>>::new());
    assert_eq!(matrix_rotation(&[vec![], vec![]], 3), Vec::<Vec<i32>>::new());
    assert_eq!(matrix_rotation(&[vec![5]], 3), vec![vec![5]]);
    assert_eq!(matrix_rotation(&[vec![1, 2, 3]], 1), vec![vec![2, 3, 1]]);
    assert_eq!(matrix_rotation(&[vec![1], vec![2], vec![3]], 1), vec![vec![2], vec![3], vec![1]]);
    assert_eq!(
        matrix_rotation(&[vec![1, 2], vec![3, 4], vec![5, 6]], 1),
        vec![vec![2, 4], vec![1, 6], vec![3, 5]]
    );
}

#[test]
fn spiral_layers_run_clockwise_from_the_top_left() {
    let layers = spiral_traversal(vec![
        vec![1, 2, 3, 4],
        vec![5, 6, 7, 8],
        vec![9, 10, 11, 12],
        vec![13, 14, 15, 16],
    ]);
    assert_eq!(
        layers,
        vec![vec![1, 2, 3, 4, 8, 12, 16, 15, 14, 13, 9, 5], vec![6, 7, 11, 10]]
    );
    assert_eq!(spiral_traversal(Vec::<Vec<u8>>::new()), Vec::<Vec<u8>>::new());
    assert_eq!(spiral_traversal(vec![vec!['a', 'b', 'c']]), vec![vec!['a', 'b', 'c']]);
    assert_eq!(spiral_traversal(vec![vec![1], vec![2], vec![3]]), vec![vec![1, 2, 3]]);
    assert_eq!(
        spiral_traversal(vec![vec![1, 2, 3], vec![4, 5, 6], vec![7, 8, 9]]),
        vec![vec![1, 2, 3, 6, 9, 8, 7, 4], vec![5]]
    );
    assert_eq!(
        spiral_traversal(vec![vec![1, 2, 3, 4, 5], vec![6, 7, 8, 9, 10], vec![11, 12, 13, 14, 15]]),
        vec![vec![1, 2, 3, 4, 5, 10, 15, 14, 13, 12, 11, 6], vec![7, 8, 9]]
    );
}

#[test]
fn spiral_data_round_trip() {
    for h in 0..7usize {
        for w in 0..7usize {
            let matrix: Vec<Vec<u32>> =
                (0..h).map(|r| (0..w).map(|c| (r * 10 + c) as u32).collect()).collect();
            let spiral = SpiralData::from_matrix(matrix.clone());
            let back = spiral.to_matrix();
            assert_eq!(spiral.to_matrix_unsafe(), back);
            if h == 0 || w == 0 {
                assert_eq!(back, Vec::<Vec<u32>>::new());
            } else {
                assert_eq!(back, matrix);
            }
        }
    }
}

#[test]
fn spiral_data_slide_turns_each_ring() {
    let matrix = vec![vec![1, 2, 3, 4], vec![5, 6, 7, 8], vec![9, 10, 11, 12]];
    let mut spiral = SpiralData::from_matrix(matrix.clone());
    spiral.slide(1);
    assert_eq!(
        spiral.to_matrix(),
        vec![vec![2, 3, 4, 8], vec![1, 7, 6, 12], vec![5, 9, 10, 11]]
    );
    // the outer ring has ten places, the inner ring two
    spiral.slide(9);
    assert_eq!(spiral.to_matrix(), matrix);
    spiral.slide(usize::MAX);
    spiral.slide(1);
    // usize::MAX + 1 places: a multiple of two; 2^64 mod 10 is 6
    let mut other = SpiralData::from_matrix(matrix);
    other.slide(6);
    assert_eq!(spiral.to_matrix(), other.to_matrix());
    assert_eq!(
        other.into_layers(),
        vec![vec![11, 10, 9, 5, 1, 2, 3, 4, 8, 12], vec![6, 7]]
    );
}

#[test]
fn longer_rows_are_read_up_to_the_first_rows_length() {
    let spiral = SpiralData::from_matrix(vec![vec![1, 2], vec![3, 4, 99]]);
    assert_eq!(spiral.to_matrix(), vec![vec![1, 2], vec![3, 4]]);
}
