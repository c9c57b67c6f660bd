use kmeans_pp::dataset::Dataset;
use kmeans_pp::generate::{create_lista, create_qualitative_matrix, random_f64_matrix, split_qualitative_dataset};
use rand::SeedableRng;
use rand_chacha::ChaCha8Rng;

#[test]
fn lists_stay_in_range() {
    let mut rng = ChaCha8Rng::seed_from_u64(9);
    let v = create_lista(200, -5, 5, &mut rng);
    assert_eq!(v.len(), 200);
    assert!(v.iter().all(|&x| (-5..5).contains(&x)));
    assert!(v.iter().any(|&x| x != v[0]));
    let one = create_lista(10, 7, 8, &mut rng);
    assert_eq!(one, vec![7; 10]);
}

#[test]
fn matrices_have_the_asked_shape() {
    let mut rng = ChaCha8Rng::seed_from_u64(2);
    let m = random_f64_matrix(3, 4, 0, 100_000_000, &mut rng);
    assert_eq!(m.len(), 4);
    assert!(m.iter().all(|row| row.len() == 3 && row.iter().all(|&x| (0..100_000_000).contains(&x))));
}

#[test]
fn datasets_are_initialised_with_labels_from_the_classes() {
    let mut rng = ChaCha8Rng::seed_from_u64(4);
    let names = vec!["X".to_string(), "Y".to_string()];
    let classes = vec!["A".to_string(), "B".to_string(), "C".to_string()];
    let (testing, training, features) =
        Dataset::initialize_datasets(2, 50, 0, 1_000, names.clone(), classes.clone(), &mut rng);
    assert_eq!(features, names);
    assert_eq!(testing.shape(), (50, 2));
    assert_eq!(training.shape(), (50, 2));
    assert_eq!(training.feature_names, names);
    assert!(training.class_labels.iter().all(|c| classes.contains(c)));
    assert!(testing.class_labels.iter().all(|c| classes.contains(c)));
}

#[test]
fn qualitative_records_split_into_parts() {
    let mut rng = ChaCha8Rng::seed_from_u64(8);
    let data = create_qualitative_matrix(10, &mut rng);
    assert_eq!(data.len(), 10);
    assert!(data.iter().all(|d| ["si", "no"].contains(&d.recomendado.as_str())));
    let (train, test) = split_qualitative_dataset(data.clone(), 300_000, &mut rng);
    assert_eq!(train.len(), 7);
    assert_eq!(test.len(), 3);
    let mut before: Vec<String> = data.iter().map(|d| format!("{:?}", d)).collect();
    let mut after: Vec<String> = train.iter().chain(test.iter()).map(|d| format!("{:?}", d)).collect();
    before.sort();
    after.sort();
    assert_eq!(before, after);
    let (all, none) = split_qualitative_dataset(data.clone(), 0, &mut rng);
    assert_eq!((all.len(), none.len()), (10, 0));
    let (none, all) = split_qualitative_dataset(data, 1_000_000, &mut rng);
    assert_eq!((none.len(), all.len()), (0, 10));
}
