use kmeans_pp::kmeans::{
    actualizar_centroides, asignar_a_clusters, iterar_hasta_optimo, lloyd_iterations,
};
use kmeans_pp::distance::UNITS_PER_ONE;
use rand::SeedableRng;
use rand_chacha::ChaCha8Rng;

const U: i64 = UNITS_PER_ONE;

fn four_points() -> Vec<Vec<i64>> {
    vec![vec![0, 0], vec![U, U], vec![10 * U, 10 * U], vec![11 * U, 11 * U]]
}

#[test]
fn assignment_picks_nearest_centroid() {
    let data = vec![vec![0, 0], vec![9 * U, 9 * U], vec![4 * U, 4 * U]];
    let centroids = vec![vec![10 * U, 10 * U], vec![0, 0]];
    let r = asignar_a_clusters(&data, &centroids);
    assert_eq!(r, vec![1, 0, 1]);
}

#[test]
fn assignment_breaks_ties_to_lowest_index() {
    let data = vec![vec![5 * U], vec![2 * U]];
    let centroids = vec![vec![4 * U], vec![6 * U], vec![4 * U]];
    assert_eq!(asignar_a_clusters(&data, &centroids), vec![0, 0]);
}

#[test]
fn assignment_has_one_valid_entry_per_point() {
    let data = four_points();
    let centroids = vec![vec![U, 0], vec![0, U], vec![5 * U, 5 * U]];
    let r = asignar_a_clusters(&data, &centroids);
    assert_eq!(r.len(), data.len());
    assert!(r.iter().all(|&c| c < centroids.len()));
}

#[test]
fn assignment_of_empty_inputs_is_empty() {
    let none: Vec<Vec<i64>> = Vec::new();
    assert!(asignar_a_clusters(&none, &vec![vec![0, 0]]).is_empty());
    assert!(asignar_a_clusters(&four_points(), &none).is_empty());
}

#[test]
fn update_takes_the_exact_mean() {
    let data = vec![vec![0, 0], vec![2 * U, 0]];
    let r = actualizar_centroides(&data, &vec![0, 0], 1);
    assert_eq!(r, vec![vec![U, 0]]);
}

#[test]
fn update_rounds_the_mean_down() {
    let data = vec![vec![-1, 1], vec![0, 2]];
    let r = actualizar_centroides(&data, &vec![0, 0], 1);
    assert_eq!(r, vec![vec![-1, 1]]);
    let data = vec![vec![1], vec![1], vec![2]];
    assert_eq!(actualizar_centroides(&data, &vec![0, 0, 0], 1), vec![vec![1]]);
}

#[test]
fn update_resets_an_empty_cluster_to_zero() {
    let data = vec![vec![3 * U, 4 * U], vec![5 * U, 6 * U]];
    let r = actualizar_centroides(&data, &vec![1, 1], 3);
    assert_eq!(r, vec![vec![0, 0], vec![4 * U, 5 * U], vec![0, 0]]);
}

#[test]
fn update_ignores_identifiers_past_k() {
    let data = vec![vec![3 * U], vec![5 * U]];
    let r = actualizar_centroides(&data, &vec![0, 7], 1);
    assert_eq!(r, vec![vec![3 * U]]);
}

#[test]
fn update_with_mismatched_assignment_gives_zero_vectors() {
    let data = vec![vec![3 * U, 4 * U], vec![5 * U, 6 * U]];
    assert_eq!(actualizar_centroides(&data, &vec![0], 2), vec![vec![0, 0], vec![0, 0]]);
    assert_eq!(actualizar_centroides(&data, &vec![], 1), vec![vec![0, 0]]);
    let none: Vec<Vec<i64>> = Vec::new();
    let empty_rows: Vec<Vec<i64>> = vec![vec![], vec![]];
    assert_eq!(actualizar_centroides(&none, &vec![], 2), empty_rows);
}

#[test]
fn lloyd_from_given_centroids_converges_on_two_groups() {
    let data = four_points();
    let r = lloyd_iterations(&data, vec![vec![0, 0], vec![U, U]], 50);
    assert!(r.converged);
    assert_eq!(r.centroids, vec![vec![U / 2, U / 2], vec![21 * U / 2, 21 * U / 2]]);
    assert_eq!(r.iterations, 3);
}

#[test]
fn lloyd_with_no_budget_returns_its_start() {
    let data = four_points();
    let start = vec![vec![0, 0], vec![U, U]];
    let r = lloyd_iterations(&data, start.clone(), 0);
    assert!(!r.converged);
    assert_eq!(r.iterations, 0);
    assert_eq!(r.centroids, start);
}

#[test]
fn lloyd_stops_when_the_budget_runs_out() {
    let data = four_points();
    let r = lloyd_iterations(&data, vec![vec![0, 0], vec![U, U]], 1);
    assert!(!r.converged);
    assert_eq!(r.iterations, 1);
    assert_eq!(r.centroids, vec![vec![0, 0], vec![22 * U / 3, 22 * U / 3]]);
}

#[test]
fn two_groups_end_to_end() {
    let data = four_points();
    for seed in 0..20u64 {
        let mut rng = ChaCha8Rng::seed_from_u64(seed);
        let r = iterar_hasta_optimo(50, &data, 2, &mut rng);
        assert!(r.converged);
        assert!(r.iterations <= 5);
        let mut cs = r.centroids.clone();
        cs.sort();
        assert_eq!(cs, vec![vec![U / 2, U / 2], vec![21 * U / 2, 21 * U / 2]]);
        let a = asignar_a_clusters(&data, &r.centroids);
        assert_eq!(a[0], a[1]);
        assert_eq!(a[2], a[3]);
        assert_ne!(a[0], a[2]);
    }
}

#[test]
fn converged_result_is_a_fixed_point() {
    let data = vec![
        vec![0, 0],
        vec![U, 3 * U],
        vec![2 * U, U],
        vec![8 * U, 9 * U],
        vec![9 * U, 7 * U],
        vec![-4 * U, 6 * U],
        vec![-5 * U, 5 * U],
    ];
    let mut rng = ChaCha8Rng::seed_from_u64(7);
    let r = iterar_hasta_optimo(100, &data, 3, &mut rng);
    assert!(r.converged);
    let a = asignar_a_clusters(&data, &r.centroids);
    let next = actualizar_centroides(&data, &a, 3);
    for (old, new) in r.centroids.iter().zip(next.iter()) {
        for (x, y) in old.iter().zip(new.iter()) {
            assert!((x - y).abs() <= 1);
        }
    }
}

#[test]
fn k_equal_to_n_gives_every_point_its_own_centroid() {
    let data = vec![vec![0, 0], vec![3 * U, 0], vec![0, 7 * U], vec![-2 * U, -2 * U]];
    for seed in 0..10u64 {
        let mut rng = ChaCha8Rng::seed_from_u64(seed);
        let r = iterar_hasta_optimo(50, &data, 4, &mut rng);
        assert!(r.converged);
        assert_eq!(r.iterations, 1);
        let a = asignar_a_clusters(&data, &r.centroids);
        for (i, &c) in a.iter().enumerate() {
            assert_eq!(r.centroids[c], data[i]);
        }
        let mut sorted = a.clone();
        sorted.sort();
        assert_eq!(sorted, vec![0, 1, 2, 3]);
    }
}

#[test]
fn zero_clusters_or_no_points_give_empty_outputs() {
    let data = four_points();
    let none: Vec<Vec<i64>> = Vec::new();
    let mut rng = ChaCha8Rng::seed_from_u64(1);
    let r = iterar_hasta_optimo(50, &data, 0, &mut rng);
    assert!(r.centroids.is_empty());
    assert_eq!(r.iterations, 0);
    assert!(!r.converged);
    let r = iterar_hasta_optimo(50, &none, 2, &mut rng);
    assert!(r.centroids.is_empty());
    let r = iterar_hasta_optimo(50, &data, 5, &mut rng);
    assert!(r.centroids.is_empty());
    assert!(asignar_a_clusters(&none, &r.centroids).is_empty());
}
