use kmeans_pp::dataset::Dataset;
use kmeans_pp::knn::{evaluate_knn, find_k_nearest, k_smallest, matrix_euclidean, predict_class, KnnError};

fn labels(names: &[&str]) -> Vec<String> {
    names.iter().map(|s| s.to_string()).collect()
}

fn training() -> Dataset {
    Dataset::new(
        vec![vec![0, 0], vec![10, 0], vec![0, 3], vec![4, 0], vec![-3, 0]],
        labels(&["x", "y"]),
        labels(&["a", "b", "a", "b", "c"]),
    )
}

#[test]
fn nearest_rows_come_nearest_first_with_ties_in_row_order() {
    let ds = training();
    let r = find_k_nearest(&ds, &[0, 0], 4).unwrap();
    let expected: Vec<(usize, u64, String)> = vec![
        (0, 0, "a".to_string()),
        (2, 3, "a".to_string()),
        (4, 3, "c".to_string()),
        (3, 4, "b".to_string()),
    ];
    assert_eq!(r, expected);
}

#[test]
fn asking_for_more_neighbors_than_rows_lists_them_all() {
    let ds = training();
    let r = find_k_nearest(&ds, &[9, 0], 10).unwrap();
    let order: Vec<usize> = r.iter().map(|n| n.0).collect();
    assert_eq!(order, vec![1, 3, 0, 2, 4]);
    assert_eq!(r[0].1, 1);
}

#[test]
fn neighbor_search_errors() {
    let ds = training();
    assert_eq!(find_k_nearest(&ds, &[0, 0], 0), Err(KnnError::ZeroNeighbors));
    let empty = Dataset::new(vec![], labels(&["x"]), vec![]);
    assert_eq!(find_k_nearest(&empty, &[0], 1), Err(KnnError::EmptyDataset));
}

#[test]
fn k_smallest_ranks_by_key_then_position() {
    assert_eq!(k_smallest(&vec![5, 1, 5, 0, 1], 3), vec![3, 1, 4]);
    assert_eq!(k_smallest(&vec![5, 1, 5, 0, 1], 0), Vec::<usize>::new());
    assert_eq!(k_smallest(&vec![2, 2, 2], 5), vec![0, 1, 2]);
    assert_eq!(k_smallest(&vec![], 2), Vec::<usize>::new());
}

#[test]
fn matrix_lists_neighbors_for_each_target() {
    let target = Dataset::new(vec![vec![0, 0], vec![9, 0]], labels(&["x", "y"]), labels(&["a", "b"]));
    let all = matrix_euclidean(&target, &training(), 2).unwrap();
    assert_eq!(all.len(), 2);
    assert_eq!(all[0].iter().map(|n| n.0).collect::<Vec<_>>(), vec![0, 2]);
    assert_eq!(all[1].iter().map(|n| n.0).collect::<Vec<_>>(), vec![1, 3]);
    let none = matrix_euclidean(&target, &training(), 0).unwrap();
    assert!(none.iter().all(|ns| ns.is_empty()));
}

#[test]
fn matrix_refuses_mismatched_features() {
    let target = Dataset::new(vec![vec![0, 0, 0]], labels(&[]), labels(&["a"]));
    assert_eq!(
        matrix_euclidean(&target, &training(), 2),
        Err(KnnError::FeatureCountMismatch { testing: 3, training: 2 })
    );
}

#[test]
fn matrix_refuses_missing_training_labels() {
    let target = Dataset::new(vec![vec![0, 0]], labels(&[]), labels(&["a"]));
    let tr = Dataset::new(vec![vec![1, 1], vec![2, 2]], labels(&[]), labels(&["a"]));
    assert_eq!(
        matrix_euclidean(&target, &tr, 1),
        Err(KnnError::LabelCountMismatch { samples: 2, labels: 1 })
    );
}

#[test]
fn majority_class_with_ties_to_the_nearest() {
    let n = |i: usize, c: &str| (i, i as u64, c.to_string());
    assert_eq!(predict_class(&[n(0, "b"), n(1, "a"), n(2, "a")]), "a");
    assert_eq!(predict_class(&[n(0, "b"), n(1, "a"), n(2, "a"), n(3, "b")]), "b");
    assert_eq!(predict_class(&[n(0, "c")]), "c");
    assert_eq!(predict_class(&[]), "Unknown");
}

#[test]
fn evaluation_counts_matching_predictions() {
    let target = Dataset::new(vec![vec![0, 1], vec![9, 1], vec![-4, 0]], labels(&["x", "y"]), labels(&["a", "a", "c"]));
    let (correct, preds) = evaluate_knn(&target, &training(), 1).unwrap();
    assert_eq!(preds, labels(&["a", "b", "c"]));
    assert_eq!(correct, 2);
}

#[test]
fn evaluation_needs_target_labels() {
    let target = Dataset::new(vec![vec![0, 1], vec![9, 1]], labels(&["x", "y"]), labels(&["a"]));
    assert_eq!(
        evaluate_knn(&target, &training(), 1),
        Err(KnnError::MissingTargetLabels { samples: 2, labels: 1 })
    );
}

#[test]
fn dataset_shape() {
    assert_eq!(training().shape(), (5, 2));
    let empty = Dataset::new(vec![], labels(&["x", "y", "z"]), vec![]);
    assert_eq!(empty.shape(), (0, 3));
}
