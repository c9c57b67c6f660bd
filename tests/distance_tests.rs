use kmeans_pp::distance::{
    euclidean_distance, floor_sqrt, squared_distance, DimensionMismatch, UNITS_PER_ONE,
};

#[test]
fn distance_of_three_four_five_triangle() {
    let a = vec![0, 0];
    let b = vec![3 * UNITS_PER_ONE, 4 * UNITS_PER_ONE];
    assert_eq!(euclidean_distance(&a, &b), Ok(5 * UNITS_PER_ONE as u64));
}

#[test]
fn distance_is_symmetric_and_zero_on_itself() {
    let a = vec![1_500_000, -2_250_000, 7];
    let b = vec![-3_000_000, 800_000, 12];
    let ab = euclidean_distance(&a, &b).unwrap();
    let ba = euclidean_distance(&b, &a).unwrap();
    assert_eq!(ab, ba);
    assert!(ab > 0);
    assert_eq!(euclidean_distance(&a, &a), Ok(0));
}

#[test]
fn distance_rounds_down() {
    // sqrt(2) units between (0, 0) and (1, 1) rounds down to one unit.
    assert_eq!(euclidean_distance(&[0, 0], &[1, 1]), Ok(1));
    assert_eq!(euclidean_distance(&[0], &[-7]), Ok(7));
}

#[test]
fn distance_of_empty_points_is_zero() {
    assert_eq!(euclidean_distance(&[], &[]), Ok(0));
}

#[test]
fn distance_refuses_mismatched_lengths() {
    let r = euclidean_distance(&[1, 2], &[1, 2, 3]);
    assert_eq!(r, Err(DimensionMismatch::Lengths { left: 2, right: 3 }));
    let r = euclidean_distance(&[], &[5]);
    assert_eq!(r, Err(DimensionMismatch::Lengths { left: 0, right: 1 }));
}

#[test]
fn squared_distance_is_exact() {
    assert_eq!(squared_distance(&[1, 2, 3], &[4, 6, 3]), 25);
    let far = 1_000_000_000_000i64;
    assert_eq!(squared_distance(&[far], &[-far]), 4_000_000_000_000_000_000_000_000u128);
}

#[test]
fn floor_sqrt_rounds_down() {
    assert_eq!(floor_sqrt(0), 0);
    assert_eq!(floor_sqrt(1), 1);
    assert_eq!(floor_sqrt(15), 3);
    assert_eq!(floor_sqrt(16), 4);
    assert_eq!(floor_sqrt(17), 4);
    assert_eq!(floor_sqrt(1u128 << 100), 1u64 << 50);
    assert_eq!(floor_sqrt((1u128 << 100) - 1), (1u64 << 50) - 1);
}
