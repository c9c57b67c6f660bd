use kmeans_pp::distance::UNITS_PER_ONE;
use kmeans_pp::seeding::{kmeans_plus_plus, seeding_weights, select_by_weight, total_weight};
use rand::SeedableRng;
use rand_chacha::ChaCha8Rng;

const U: i64 = UNITS_PER_ONE;

#[test]
fn seeding_returns_k_distinct_points_of_the_data() {
    let data = vec![vec![0, 0], vec![U, 0], vec![0, U], vec![5 * U, 5 * U], vec![9 * U, 0]];
    for seed in 0..30u64 {
        let mut rng = ChaCha8Rng::seed_from_u64(seed);
        for k in 1..=data.len() {
            let cs = kmeans_plus_plus(&data, k, &mut rng);
            assert_eq!(cs.len(), k);
            for (i, c) in cs.iter().enumerate() {
                assert!(data.contains(c));
                assert!(!cs[..i].contains(c));
            }
        }
    }
}

#[test]
fn seeding_with_coinciding_points_is_degenerate() {
    let data = vec![vec![2 * U, 3 * U], vec![2 * U, 3 * U], vec![2 * U, 3 * U]];
    let mut rng = ChaCha8Rng::seed_from_u64(3);
    let cs = kmeans_plus_plus(&data, 3, &mut rng);
    assert_eq!(cs, vec![vec![2 * U, 3 * U]; 3]);
}

#[test]
fn seeding_is_reproducible_from_a_seed() {
    let data = vec![vec![0], vec![U], vec![2 * U], vec![30 * U], vec![31 * U]];
    let a = kmeans_plus_plus(&data, 3, &mut ChaCha8Rng::seed_from_u64(11));
    let b = kmeans_plus_plus(&data, 3, &mut ChaCha8Rng::seed_from_u64(11));
    assert_eq!(a, b);
}

#[test]
fn seeding_with_zero_or_too_many_clusters_is_empty() {
    let data = vec![vec![0, 0], vec![U, U]];
    let mut rng = ChaCha8Rng::seed_from_u64(5);
    assert!(kmeans_plus_plus(&data, 0, &mut rng).is_empty());
    assert!(kmeans_plus_plus(&data, 3, &mut rng).is_empty());
    let none: Vec<Vec<i64>> = Vec::new();
    assert!(kmeans_plus_plus(&none, 1, &mut rng).is_empty());
}

#[test]
fn weights_are_distances_to_the_nearest_centroid() {
    let data = vec![vec![0, 0], vec![3, 4], vec![10, 0], vec![1, 1]];
    let centroids = vec![vec![0, 0], vec![10, 1]];
    assert_eq!(seeding_weights(&data, &centroids), vec![0, 5, 1, 1]);
}

#[test]
fn total_weight_sums_all() {
    assert_eq!(total_weight(&vec![]), 0);
    assert_eq!(total_weight(&vec![3, 0, 4]), 7);
    assert_eq!(total_weight(&vec![u64::MAX, u64::MAX]), 2 * u64::MAX as u128);
}

#[test]
fn selection_follows_running_sums() {
    let w = vec![0, 3, 0, 2];
    assert_eq!(select_by_weight(&w, 0), Some(1));
    assert_eq!(select_by_weight(&w, 2), Some(1));
    assert_eq!(select_by_weight(&w, 3), Some(3));
    assert_eq!(select_by_weight(&w, 4), Some(3));
    assert_eq!(select_by_weight(&w, 5), None);
    assert_eq!(select_by_weight(&vec![], 0), None);
}
