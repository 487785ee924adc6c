use ctxvault::batching::{clamped_len, flatten_padded, pack_sub_batches, sort_by_length, sub_batch_width};

#[test]
fn texts_sort_stably_by_token_count() {
    assert_eq!(sort_by_length(&[5, 2, 5, 1, 2]), vec![3, 1, 4, 0, 2]);
    assert_eq!(sort_by_length(&[]), Vec::<usize>::new());
}

#[test]
fn sub_batches_respect_the_allowed_size() {
    assert_eq!(pack_sub_batches(&[2, 2, 2, 2, 2]), vec![vec![0, 1], vec![2, 3], vec![4]]);
    assert_eq!(pack_sub_batches(&[16, 16, 1, 1]), vec![vec![0, 1], vec![2], vec![3]]);
    assert_eq!(pack_sub_batches(&[0, 0]), vec![vec![0], vec![1]]);
    assert!(pack_sub_batches(&[]).is_empty());
}

#[test]
fn widths_are_clamped_to_the_model() {
    assert_eq!(clamped_len(0, 8192), 1);
    assert_eq!(clamped_len(9000, 8192), 8192);
    assert_eq!(clamped_len(37, 8192), 37);
    assert_eq!(sub_batch_width(&[3, 9, 4], 8), 8);
    assert_eq!(sub_batch_width(&[3, 5, 4], 8), 5);
    assert_eq!(sub_batch_width(&[], 8), 1);
}

#[test]
fn rows_are_padded_or_cut_to_the_width() {
    let rows = vec![vec![7u32, 8, 9], vec![5u32]];
    assert_eq!(flatten_padded(&rows, 2), vec![7, 8, 5, 0]);
    assert_eq!(flatten_padded(&rows, 4), vec![7, 8, 9, 0, 5, 0, 0, 0]);
}
