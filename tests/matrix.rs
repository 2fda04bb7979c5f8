use matrix_server::matrix::{
    calculate, copy_matrix, merge_rows, simple_sum, thread_sum, zeros, Matrix,
};

fn example() -> (Matrix, Matrix) {
    (
        vec![vec![1, 2, 3], vec![4, 5, 6], vec![7, 8, 9]],
        vec![vec![9, 8, 7], vec![6, 5, 4], vec![3, 2, 1]],
    )
}

#[test]
fn calculate_sums_for_every_worker_count() {
    let (a, b) = example();
    let want = vec![vec![10u32, 10, 10], vec![10, 10, 10], vec![10, 10, 10]];
    for workers in [0usize, 1, 2, 3, 4, 7] {
        assert_eq!(calculate(&a, &b, workers), want);
    }
}

#[test]
fn calculate_wraps_on_overflow() {
    let a = vec![vec![u32::MAX, 1], vec![2, u32::MAX - 1]];
    let b = vec![vec![2, 3], vec![u32::MAX, 5]];
    let want = vec![vec![1u32, 4], vec![1, 3]];
    assert_eq!(calculate(&a, &b, 0), want);
    assert_eq!(calculate(&a, &b, 4), want);
}

#[test]
fn calculate_empty_matrix() {
    let a: Matrix = Vec::new();
    let b: Matrix = Vec::new();
    assert_eq!(calculate(&a, &b, 4), Matrix::new());
    assert_eq!(calculate(&a, &b, 0), Matrix::new());
}

#[test]
fn thread_sum_stripes_rows() {
    let n = 5usize;
    let a: Matrix = (0..n).map(|i| vec![i as u32; n]).collect();
    let b: Matrix = (0..n).map(|_| vec![100u32; n]).collect();
    let part = thread_sum(&a, &b, 1, 2);
    assert_eq!(part.indices, vec![1, 3]);
    assert_eq!(part.sum, vec![vec![101u32; 5], vec![103u32; 5]]);
    let none = thread_sum(&a, &b, 6, 4);
    assert!(none.indices.is_empty());
    assert!(none.sum.is_empty());
}

#[test]
fn merge_rows_places_rows_by_index() {
    let (a, b) = example();
    let parts = vec![thread_sum(&a, &b, 0, 2), thread_sum(&a, &b, 1, 2)];
    assert_eq!(parts[0].indices, vec![0, 2]);
    assert_eq!(merge_rows(&a, &b, 2, parts), calculate(&a, &b, 0));
}

#[test]
fn simple_sum_fills_rows() {
    let (a, b) = example();
    let mut sum = zeros(3);
    simple_sum(&a, &b, &mut sum);
    assert_eq!(sum, vec![vec![10u32, 10, 10]; 3]);
}

#[test]
fn zeros_and_copy() {
    assert_eq!(zeros(2), vec![vec![0u32, 0], vec![0, 0]]);
    let (a, _) = example();
    assert_eq!(copy_matrix(&a), a);
}

#[test]
fn simple_sum_writes_in_place() {
    let a = vec![vec![1u32, 2], vec![3, 4]];
    let b = vec![vec![10u32, 20], vec![30, 40]];
    let mut sum = vec![vec![7u32, 7, 7], vec![8, 8], vec![9]];
    simple_sum(&a, &b, &mut sum);
    assert_eq!(sum, vec![vec![11u32, 22, 7], vec![33, 44], vec![9]]);
}
