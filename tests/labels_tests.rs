use kmeans_pp::labels::{cluster_counts, default_cluster_label, get_point_label, map_centroids_to_labels};

#[test]
fn labels_follow_positions_then_defaults() {
    let centroids = vec![vec![0], vec![1], vec![2], vec![3]];
    let labels = vec!["A".to_string(), "B".to_string()];
    let m = map_centroids_to_labels(&centroids, &labels);
    assert_eq!(m.len(), 4);
    assert_eq!(m[&0], "A");
    assert_eq!(m[&1], "B");
    assert_eq!(m[&2], "Cluster_2");
    assert_eq!(m[&3], "Cluster_3");
}

#[test]
fn extra_labels_are_ignored() {
    let centroids = vec![vec![0]];
    let labels = vec!["A".to_string(), "B".to_string()];
    let m = map_centroids_to_labels(&centroids, &labels);
    assert_eq!(m.len(), 1);
    assert_eq!(m[&0], "A");
    let none: Vec<Vec<i64>> = Vec::new();
    assert!(map_centroids_to_labels(&none, &labels).is_empty());
}

#[test]
fn default_labels_spell_the_identifier() {
    assert_eq!(default_cluster_label(0), "Cluster_0");
    assert_eq!(default_cluster_label(10), "Cluster_10");
    assert_eq!(default_cluster_label(907), "Cluster_907");
    assert_eq!(default_cluster_label(usize::MAX), format!("Cluster_{}", usize::MAX));
}

#[test]
fn point_label_comes_from_its_cluster() {
    let centroids = vec![vec![0], vec![1], vec![2]];
    let labels = vec!["low".to_string(), "mid".to_string()];
    let m = map_centroids_to_labels(&centroids, &labels);
    let clusters = vec![2, 0, 1, 0];
    assert_eq!(get_point_label(0, &clusters, &m), "Cluster_2");
    assert_eq!(get_point_label(1, &clusters, &m), "low");
    assert_eq!(get_point_label(2, &clusters, &m), "mid");
}

#[test]
fn counts_per_cluster() {
    let clusters = vec![2, 0, 1, 0, 0, 5];
    assert_eq!(cluster_counts(&clusters, 3), vec![3, 1, 1]);
    assert_eq!(cluster_counts(&clusters, 0), Vec::<usize>::new());
    assert_eq!(cluster_counts(&vec![], 2), vec![0, 0]);
}
