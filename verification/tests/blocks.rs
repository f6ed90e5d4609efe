use bell103::split_blocks;

#[test]
fn exact_multiple_splits_evenly() {
    let samples: Vec<i16> = vec![1, 2, 3, 4, 5, 6];
    let blocks = split_blocks(&samples, 3);
    assert_eq!(blocks, vec![vec![1, 2, 3], vec![4, 5, 6]]);
}

#[test]
fn partial_final_block_is_kept_shorter() {
    let samples: Vec<i16> = vec![1, 2, 3, 4, 5, 6, 7];
    let blocks = split_blocks(&samples, 3);
    assert_eq!(blocks, vec![vec![1, 2, 3], vec![4, 5, 6], vec![7]]);
}

#[test]
fn no_samples_yield_no_blocks() {
    let samples: Vec<i16> = Vec::new();
    let blocks = split_blocks(&samples, 160);
    assert!(blocks.is_empty());
}

#[test]
fn fewer_samples_than_one_block_yield_one_short_block() {
    let samples: Vec<i16> = vec![-5, 0, 5];
    let blocks = split_blocks(&samples, 160);
    assert_eq!(blocks, vec![vec![-5, 0, 5]]);
}
