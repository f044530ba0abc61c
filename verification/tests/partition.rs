use rsds::partition::partition_data;

#[test]
fn one_worker_gets_everything() {
    assert_eq!(partition_data(vec![1, 2, 3], 1), vec![vec![1, 2, 3]]);
    assert_eq!(partition_data(Vec::<u8>::new(), 1), vec![Vec::<u8>::new()]);
}

#[test]
fn even_split() {
    assert_eq!(
        partition_data(vec![1, 2, 3, 4, 5, 6], 3),
        vec![vec![1, 2], vec![3, 4], vec![5, 6]]
    );
}

#[test]
fn remainder_goes_to_a_short_last_run() {
    assert_eq!(
        partition_data(vec![1, 2, 3, 4, 5, 6, 7], 3),
        vec![vec![1, 2], vec![3, 4], vec![5, 6], vec![7]]
    );
    assert_eq!(partition_data(vec![1, 2, 3], 2), vec![vec![1], vec![2], vec![3]]);
}

#[test]
fn fewer_values_than_workers_make_one_run() {
    assert_eq!(partition_data(vec![1, 2, 3], 5), vec![vec![1, 2, 3]]);
    assert_eq!(partition_data(Vec::<u8>::new(), 4), Vec::<Vec<u8>>::new());
}
