use matrix_server::store::{MatrixStore, ResultStore};

#[test]
fn submit_assigns_ids_in_order() {
    let mut jobs = MatrixStore::new();
    for k in 0..4u32 {
        assert_eq!(jobs.len(), k as usize);
        assert_eq!(jobs.submit(vec![vec![k]], vec![vec![1]]), Some(k));
    }
    assert_eq!(jobs.len(), 4);
}

#[test]
fn get_returns_the_pair_or_none() {
    let mut jobs = MatrixStore::new();
    assert_eq!(jobs.get(0), None);
    jobs.submit(vec![vec![1, 2], vec![3, 4]], vec![vec![5, 6], vec![7, 8]]);
    let (a, b) = jobs.get(0).unwrap();
    assert_eq!(a, vec![vec![1, 2], vec![3, 4]]);
    assert_eq!(b, vec![vec![5, 6], vec![7, 8]]);
    assert_eq!(jobs.get(1), None);
    assert_eq!(jobs.get(u32::MAX), None);
}

#[test]
fn result_store_put_and_overwrite() {
    let mut results = ResultStore::new();
    assert_eq!(results.try_get(3), None);
    results.put(3, vec![vec![1]]);
    assert_eq!(results.try_get(3), Some(vec![vec![1]]));
    assert_eq!(results.try_get(2), None);
    results.put(3, vec![vec![9]]);
    assert_eq!(results.try_get(3), Some(vec![vec![9]]));
}
