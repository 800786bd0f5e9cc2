use ssort::{insertion_sort, move_sample_to_front, apply_sample_swaps};
use rand::rngs::StdRng;
use rand::SeedableRng;

#[test]
fn test_insertion_sort() {
    let mut data: Vec<u64> = vec![4, 1, 6, 8, 3, 7, 4, 7];
    insertion_sort(&mut data);
    assert_eq!(data, vec![1, 3, 4, 4, 6, 7, 7, 8]);
}

#[test]
fn insertion_sort_empty_and_single() {
    let mut empty: Vec<u64> = vec![];
    insertion_sort(&mut empty);
    assert_eq!(empty, Vec::<u64>::new());
    let mut one: Vec<u64> = vec![42];
    insertion_sort(&mut one);
    assert_eq!(one, vec![42]);
}

#[test]
fn insertion_sort_reverse_and_extremes() {
    let mut data: Vec<u64> = vec![u64::MAX, 9, 8, 7, 0, u64::MAX, 0];
    insertion_sort(&mut data);
    assert_eq!(data, vec![0, 0, 7, 8, 9, u64::MAX, u64::MAX]);
}

#[test]
fn insertion_sort_keeps_multiset() {
    let mut data: Vec<u64> = (0..50u64).map(|i| (i * 37 + 11) % 13).collect();
    let mut expected = data.clone();
    expected.sort();
    insertion_sort(&mut data);
    assert_eq!(data, expected);
}

#[test]
fn insertion_sort_already_sorted_and_all_equal() {
    let mut sorted: Vec<u64> = vec![1, 2, 3, 4, 5];
    insertion_sort(&mut sorted);
    assert_eq!(sorted, vec![1, 2, 3, 4, 5]);
    let mut equal: Vec<u64> = vec![5, 5, 5, 5];
    insertion_sort(&mut equal);
    assert_eq!(equal, vec![5, 5, 5, 5]);
}

#[test]
fn apply_sample_swaps_exact() {
    let mut data: Vec<u64> = vec![10, 20, 30, 40];
    apply_sample_swaps(&mut data, &vec![2, 3]);
    assert_eq!(data, vec![30, 40, 10, 20]);
    let mut same: Vec<u64> = vec![10, 20, 30];
    apply_sample_swaps(&mut same, &vec![0, 1, 2]);
    assert_eq!(same, vec![10, 20, 30]);
}

#[test]
fn move_sample_to_front_keeps_elements() {
    let mut rng = StdRng::seed_from_u64(7);
    let mut data: Vec<u64> = (0..20u64).collect();
    move_sample_to_front(&mut data, 5, &mut rng);
    let mut check = data.clone();
    check.sort();
    assert_eq!(check, (0..20u64).collect::<Vec<u64>>());
    let mut small: Vec<u64> = vec![3, 1, 2];
    move_sample_to_front(&mut small, 10, &mut rng);
    small.sort();
    assert_eq!(small, vec![1, 2, 3]);
}

#[test]
fn move_sample_to_front_draws_vary() {
    let mut moved = false;
    for seed in 0..64u64 {
        let mut rng = StdRng::seed_from_u64(seed);
        let mut data: Vec<u64> = (0..10u64).collect();
        move_sample_to_front(&mut data, 3, &mut rng);
        if data != (0..10u64).collect::<Vec<u64>>() {
            moved = true;
        }
    }
    assert!(moved);
}

#[test]
fn move_sample_to_front_same_seed_same_result() {
    let mut a: Vec<u64> = (0..30u64).collect();
    let mut b: Vec<u64> = (0..30u64).collect();
    move_sample_to_front(&mut a, 7, &mut StdRng::seed_from_u64(99));
    move_sample_to_front(&mut b, 7, &mut StdRng::seed_from_u64(99));
    assert_eq!(a, b);
}

#[test]
fn sample_selection_is_uniform() {
    // n = 5, k = 2: ten subsets, each expected in a tenth of the trials.
    let trials: usize = 20000;
    let mut counts = [0usize; 32];
    let mut rng = StdRng::seed_from_u64(2024);
    for _ in 0..trials {
        let mut data: Vec<u64> = (0..5u64).collect();
        move_sample_to_front(&mut data, 2, &mut rng);
        let mask = (1usize << data[0]) | (1usize << data[1]);
        counts[mask] += 1;
    }
    let mut subsets = 0;
    for mask in 0..32usize {
        if mask.count_ones() == 2 {
            subsets += 1;
            let c = counts[mask];
            assert!(c > 1800 && c < 2200, "subset {:b} drawn {} times", mask, c);
        } else {
            assert_eq!(counts[mask], 0);
        }
    }
    assert_eq!(subsets, 10);
}
