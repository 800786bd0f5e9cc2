use ssort::{build_tree, classify, classify_in_chunks, create_classification_tree, CHUNK_SIZE};

#[test]
fn test_create_classification_tree() {
    let mut data: Vec<u64> = vec![4, 1, 6, 8, 3, 7, 4];
    let mut result: Vec<u64> = vec![0; 7];
    create_classification_tree(&mut data, 1, &mut result);
    assert_eq!(data, vec![1, 3, 4, 4, 6, 7, 8]);
    assert_eq!(result, [4, 0, 0, 0, 0, 0, 0]);
    create_classification_tree(&mut data, 2, &mut result);
    assert_eq!(result, [4, 3, 7, 0, 0, 0, 0]);
    create_classification_tree(&mut data, 3, &mut result);
    assert_eq!(result, [4, 3, 7, 1, 4, 6, 8]);
}

#[test]
fn test_classify() {
    let data: Vec<u64> = vec![0, 1, 2, 3, 4, 5, 6, 7, 8, 9, 0, 1, 2, 3, 4, 5, 6, 7, 8, 9];
    let tree: Vec<u64> = vec![4, 3, 7, 1, 4, 6, 8];
    let buckets = classify(&data, 3, &tree);
    let result: Vec<(u64, u8)> = buckets
        .iter()
        .enumerate()
        .map(|(pos, &bucket)| (data[pos], bucket))
        .collect();
    assert_eq!(
        result,
        vec![
            (0, 0),
            (1, 1),
            (2, 1),
            (3, 2),
            (4, 4),
            (5, 4),
            (6, 5),
            (7, 6),
            (8, 7),
            (9, 7),
            (0, 0),
            (1, 1),
            (2, 1),
            (3, 2),
            (4, 4),
            (5, 4),
            (6, 5),
            (7, 6),
            (8, 7),
            (9, 7),
        ]
    );
}

#[test]
fn build_tree_levels_from_sorted_sample() {
    let sample: Vec<u64> = vec![1, 3, 4, 4, 6, 7, 8];
    let mut tree: Vec<u64> = vec![9; 7];
    build_tree(&sample, 1, &mut tree);
    assert_eq!(tree, vec![4, 9, 9, 9, 9, 9, 9]);
    build_tree(&sample, 2, &mut tree);
    assert_eq!(tree, vec![4, 3, 7, 9, 9, 9, 9]);
    build_tree(&sample, 3, &mut tree);
    assert_eq!(tree, vec![4, 3, 7, 1, 4, 6, 8]);
}

#[test]
fn build_tree_depth_zero_and_longer_output() {
    let sample: Vec<u64> = vec![10, 20, 30];
    let mut tree: Vec<u64> = vec![5, 5, 5, 5];
    build_tree(&sample, 0, &mut tree);
    assert_eq!(tree, vec![5, 5, 5, 5]);
    build_tree(&sample, 2, &mut tree);
    assert_eq!(tree, vec![20, 10, 30, 5]);
}

#[test]
fn build_tree_fifteen_elements() {
    let sample: Vec<u64> = (0..15u64).collect();
    let mut tree: Vec<u64> = vec![0; 15];
    build_tree(&sample, 4, &mut tree);
    assert_eq!(tree, vec![7, 3, 11, 1, 5, 9, 13, 0, 2, 4, 6, 8, 10, 12, 14]);
}

#[test]
fn classify_twice_gives_same_buckets() {
    let data: Vec<u64> = (0..500u64).map(|i| (i * 7919) % 101).collect();
    let mut sample: Vec<u64> = (0..15u64).map(|i| i * 7).collect();
    let mut tree: Vec<u64> = vec![0; 15];
    create_classification_tree(&mut sample, 4, &mut tree);
    let first = classify(&data, 4, &tree);
    let second = classify(&data, 4, &tree);
    assert_eq!(first, second);
}

#[test]
fn classify_independent_of_chunk_size() {
    let data: Vec<u64> = (0..(CHUNK_SIZE as u64 * 3 + 17)).map(|i| (i * 2654435761) % 1000).collect();
    let mut sample: Vec<u64> = (0..31u64).map(|i| (i * 37) % 1000).collect();
    let mut tree: Vec<u64> = vec![0; 31];
    create_classification_tree(&mut sample, 5, &mut tree);
    let reference = classify(&data, 5, &tree);
    assert_eq!(reference.len(), data.len());
    for chunk in [1usize, 2, 7, 64, 160, 161, 1000, 5000] {
        assert_eq!(classify_in_chunks(&data, 5, &tree, chunk), reference);
    }
    let front = classify(&data[..100].to_vec(), 5, &tree);
    let back = classify(&data[100..].to_vec(), 5, &tree);
    let joined: Vec<u8> = front.into_iter().chain(back).collect();
    assert_eq!(joined, reference);
}

#[test]
fn classify_bucket_counts_sample_elements_at_most_x() {
    let mut sample: Vec<u64> = (0..127u64).map(|i| i * 2).collect();
    let sorted = sample.clone();
    let mut tree: Vec<u64> = vec![0; 127];
    create_classification_tree(&mut sample, 7, &mut tree);
    let data: Vec<u64> = (0..300u64).collect();
    let buckets = classify(&data, 7, &tree);
    for (x, b) in data.iter().zip(buckets.iter()) {
        let expected = sorted.iter().filter(|&&s| s <= *x).count();
        assert_eq!(*b as usize, expected);
    }
    assert_eq!(buckets[0], 1);
    assert_eq!(buckets[299], 127);
}

#[test]
fn classify_depth_zero_and_empty() {
    let data: Vec<u64> = vec![5, 1, 9];
    assert_eq!(classify(&data, 0, &vec![]), vec![0, 0, 0]);
    assert_eq!(classify(&vec![], 3, &vec![1, 2, 3, 4, 5, 6, 7]), Vec::<u8>::new());
}

#[test]
fn classify_single_level() {
    let data: Vec<u64> = vec![1, 2, 3];
    assert_eq!(classify(&data, 1, &vec![2]), vec![0, 1, 1]);
}
