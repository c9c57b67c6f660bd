use vstd::prelude::*;
use vstd::string::StringExecFns;

use crate::dataset::Dataset;
use crate::distance::{
    floor_sqrt, floor_sqrt_of, lemma_floor_sqrt_of_is, lemma_sq_dist_fits, sq_dist,
    squared_distance, valid_point,
};
use crate::kmeans::{all_valid, points, uniform_dimension};

verus! {

/// Row `a` ranks before row `b`: it is nearer, or as near and comes first.
pub open spec fn closer(key: Seq<u128>, a: int, b: int) -> bool {
    key[a] < key[b] || (key[a] == key[b] && a < b)
}

/// Every listed row ranks before row `i`.
pub open spec fn outranks_all(key: Seq<u128>, r: Seq<usize>, i: int) -> bool {
    forall|a: int| 0 <= a < r.len() ==> closer(key, #[trigger] r[a] as int, i)
}

/// `r` lists, nearest first, the `k` rows among the first `n` that rank first (all `n`
/// when there are fewer), ranking by `key` and then by position.
pub open spec fn nearest_among(key: Seq<u128>, k: nat, n: nat, r: Seq<usize>) -> bool {
    &&& r.len() == if k < n {
        k
    } else {
        n
    }
    &&& forall|a: int| 0 <= a < r.len() ==> #[trigger] r[a] < n
    &&& forall|a: int, b: int|
        0 <= a < b < r.len() ==> closer(key, #[trigger] r[a] as int, #[trigger] r[b] as int)
    &&& r.len() < k ==> forall|i: int| 0 <= i < n ==> #[trigger] r.contains(i as usize)
    &&& forall|i: int| 0 <= i < n && !r.contains(i as usize) ==> #[trigger] outranks_all(key, r, i)
}

/// Inserting row `j` before the first listed row that it ranks before, then dropping the
/// last entry when there are more than `k`, lists the best `k` of the first `j + 1` rows.
proof fn lemma_insert_step(key: Seq<u128>, k: nat, j: nat, r: Seq<usize>, pos: int)
    requires
        nearest_among(key, k, j, r),
        j < key.len(),
        j < usize::MAX,
        0 <= pos <= r.len(),
        forall|a: int| 0 <= a < pos ==> !closer(key, j as int, #[trigger] r[a] as int),
        pos < r.len() ==> closer(key, j as int, r[pos] as int),
    ensures
        ({
            let r1 = r.insert(pos, j as usize);
            nearest_among(
                key,
                k,
                j + 1,
                if r1.len() > k {
                    r1.take(k as int)
                } else {
                    r1
                },
            )
        }),
{
    let r1 = r.insert(pos, j as usize);
    assert(forall|a: int| 0 <= a < pos ==> r1[a] == r[a]);
    assert(r1[pos] == j);
    assert(forall|a: int| pos < a < r1.len() ==> #[trigger] r1[a] == r[a - 1]);
    assert forall|a: int| 0 <= a < pos implies closer(key, #[trigger] r[a] as int, j as int) by {
        assert(r[a] < j);
    }
    assert forall|a: int| pos <= a < r.len() implies closer(key, j as int, #[trigger] r[a] as int) by {
        if a > pos {
            assert(closer(key, r[pos] as int, r[a] as int));
        }
    }
    assert forall|a: int, b: int| 0 <= a < b < r1.len() implies closer(
        key,
        #[trigger] r1[a] as int,
        #[trigger] r1[b] as int,
    ) by {
        if b < pos {
        } else if b == pos {
            assert(closer(key, r[a] as int, j as int));
        } else if a < pos {
            assert(r1[b] == r[b - 1]);
        } else if a == pos {
            assert(r1[b] == r[b - 1]);
            assert(closer(key, j as int, r[b - 1] as int));
        } else {
            assert(r1[a] == r[a - 1]);
            assert(r1[b] == r[b - 1]);
        }
    }
    assert forall|a: int| 0 <= a < r1.len() implies #[trigger] r1[a] < j + 1 by {
        if a > pos {
            assert(r1[a] == r[a - 1]);
        }
    }
    assert forall|i: int| 0 <= i < j && #[trigger] r.contains(i as usize) implies r1.contains(
        i as usize,
    ) by {
        let a = choose|a: int| 0 <= a < r.len() && r[a] == i as usize;
        if a < pos {
            assert(r1[a] == i as usize);
        } else {
            assert(r1[a + 1] == i as usize);
        }
    }
    assert(r1.contains(j as usize)) by {
        assert(r1[pos] == j as usize);
    }
    if r1.len() > k {
        let r2 = r1.take(k as int);
        assert(r.len() == k);
        assert forall|i: int| 0 <= i < j + 1 && !r2.contains(i as usize) implies #[trigger] outranks_all(
            key,
            r2,
            i,
        ) by {
            if i as usize == r1[k as int] {
                assert forall|a: int| 0 <= a < r2.len() implies closer(key, #[trigger] r2[a] as int, i) by {
                    assert(r2[a] == r1[a]);
                }
            } else {
                if r1.contains(i as usize) {
                    let a = choose|a: int| 0 <= a < r1.len() && r1[a] == i as usize;
                    if a < k {
                        assert(r2[a] == i as usize);
                    }
                }
                assert(i != j);
                if r.contains(i as usize) {
                    assert(r1.contains(i as usize));
                }
                assert(outranks_all(key, r, i));
                assert forall|a: int| 0 <= a < r2.len() implies closer(key, #[trigger] r2[a] as int, i) by {
                    assert(r2[a] == r1[a]);
                    if a < pos {
                        assert(r1[a] == r[a]);
                    } else if a == pos {
                        assert(closer(key, r[k - 1] as int, i));
                        if pos < k - 1 {
                            assert(closer(key, j as int, r[k - 1] as int));
                        }
                    } else {
                        assert(r1[a] == r[a - 1]);
                    }
                }
            }
        }
        assert forall|a: int, b: int| 0 <= a < b < r2.len() implies closer(
            key,
            #[trigger] r2[a] as int,
            #[trigger] r2[b] as int,
        ) by {
            assert(r2[a] == r1[a]);
            assert(r2[b] == r1[b]);
        }
        assert forall|a: int| 0 <= a < r2.len() implies #[trigger] r2[a] < j + 1 by {
            assert(r2[a] == r1[a]);
        }
    } else {
        assert(r.len() < k);
        assert forall|i: int| 0 <= i < j + 1 implies #[trigger] r1.contains(i as usize) by {
            if i < j {
                assert(r.contains(i as usize));
            }
        }
    }
}

/// Positions of the `k` rows whose keys rank first, nearest first; ties go to the earlier
/// row. All rows are listed when there are at most `k`.
pub fn k_smallest(key: &Vec<u128>, k: usize) -> (r: Vec<usize>)
    ensures
        nearest_among(key@, k as nat, key@.len(), r@),
{
    let mut r: Vec<usize> = Vec::new();
    let mut j: usize = 0;
    while j < key.len()
        invariant
            j <= key@.len(),
            nearest_among(key@, k as nat, j as nat, r@),
        decreases key@.len() - j,
    {
        let mut pos: usize = 0;
        while pos < r.len() && !(key[j] < key[r[pos]] || (key[j] == key[r[pos]] && j < r[pos]))
            invariant
                pos <= r@.len(),
                j < key@.len(),
                nearest_among(key@, k as nat, j as nat, r@),
                forall|a: int| 0 <= a < pos ==> !closer(key@, j as int, #[trigger] r@[a] as int),
            decreases r@.len() - pos,
        {
            pos = pos + 1;
        }
        proof {
            lemma_insert_step(key@, k as nat, j as nat, r@, pos as int);
        }
        r.insert(pos, j);
        if r.len() > k {
            r.pop();
            assert(r@ =~= r@.take(k as int));
        }
        j = j + 1;
    }
    r
}

/// Squared distance from `t` to each row, the key by which neighbours rank.
pub open spec fn row_keys(rows: Seq<Seq<i64>>, t: Seq<i64>) -> Seq<u128> {
    Seq::new(rows.len(), |j: int| sq_dist(t, rows[j]) as u128)
}

/// A neighbour: the row's position, its distance rounded down, and its class.
pub type Neighbor = (usize, u64, String);

/// `ns` lists, nearest first, the `k` rows nearest to `t` (all rows when there are at most
/// `k`), each with its distance to `t` and its class; equally near rows come in row order.
pub open spec fn lists_nearest(
    rows: Seq<Seq<i64>>,
    labels: Seq<String>,
    t: Seq<i64>,
    k: nat,
    ns: Seq<Neighbor>,
) -> bool {
    &&& nearest_among(row_keys(rows, t), k, rows.len(), ns.map_values(|e: Neighbor| e.0))
    &&& forall|a: int|
        0 <= a < ns.len() ==> #[trigger] ns[a].1 == floor_sqrt_of(sq_dist(t, rows[ns[a].0 as int]))
    &&& forall|a: int| 0 <= a < ns.len() ==> #[trigger] ns[a].2@ == labels[ns[a].0 as int]@
}

/// Why a neighbour search could not run.
#[derive(Debug, Clone, Copy, PartialEq, Eq, Structural)]
pub enum KnnError {
    /// The first rows of the two datasets have different numbers of features.
    FeatureCountMismatch { testing: usize, training: usize },
    /// The training dataset does not have exactly one class label per row.
    LabelCountMismatch { samples: usize, labels: usize },
    /// No neighbour was asked for.
    ZeroNeighbors,
    /// There is no row to search.
    EmptyDataset,
    /// The evaluated dataset does not have exactly one class label per row.
    MissingTargetLabels { samples: usize, labels: usize },
}

/// Every row has `dim` coordinates, all in bounds.
pub open spec fn rows_fit(rows: Seq<Seq<i64>>, dim: nat) -> bool {
    &&& all_valid(rows)
    &&& forall|j: int| 0 <= j < rows.len() ==> #[trigger] rows[j].len() == dim
}

/// Squared distance from `target` to each row.
fn distances_to(rows: &Vec<Vec<i64>>, target: &[i64]) -> (r: Vec<u128>)
    requires
        valid_point(target@),
        rows_fit(points(rows), target@.len()),
    ensures
        r@ == row_keys(points(rows), target@),
{
    let ghost pts = points(rows);
    let mut r: Vec<u128> = Vec::new();
    let mut j: usize = 0;
    while j < rows.len()
        invariant
            j <= pts.len(),
            pts == points(rows),
            valid_point(target@),
            rows_fit(pts, target@.len()),
            r@.len() == j,
            forall|t: int| 0 <= t < j ==> #[trigger] r@[t] == sq_dist(target@, pts[t]) as u128,
        decreases pts.len() - j,
    {
        assert(valid_point(pts[j as int]));
        let d = squared_distance(target, rows[j].as_slice());
        r.push(d);
        j = j + 1;
    }
    assert(r@ =~= row_keys(pts, target@));
    r
}

/// The `k` rows nearest to `target`, each with its distance and class, nearest first.
fn neighbors_of(dataset: &Dataset, target: &[i64], k: usize) -> (r: Vec<Neighbor>)
    requires
        valid_point(target@),
        rows_fit(points(&dataset.rows), target@.len()),
        dataset.class_labels@.len() == dataset.rows@.len(),
    ensures
        lists_nearest(points(&dataset.rows), dataset.class_labels@, target@, k as nat, r@),
{
    let ghost pts = points(&dataset.rows);
    let keys = distances_to(&dataset.rows, target);
    let idx = k_smallest(&keys, k);
    let mut r: Vec<Neighbor> = Vec::new();
    let mut a: usize = 0;
    while a < idx.len()
        invariant
            a <= idx@.len(),
            pts == points(&dataset.rows),
            keys@ == row_keys(pts, target@),
            nearest_among(keys@, k as nat, pts.len(), idx@),
            valid_point(target@),
            rows_fit(pts, target@.len()),
            dataset.class_labels@.len() == pts.len(),
            r@.len() == a,
            forall|b: int| 0 <= b < a ==> (#[trigger] r@[b]).0 == idx@[b],
            forall|b: int|
                0 <= b < a ==> (#[trigger] r@[b]).1 == floor_sqrt_of(
                    sq_dist(target@, pts[r@[b].0 as int]),
                ),
            forall|b: int| 0 <= b < a ==> (#[trigger] r@[b]).2@ == dataset.class_labels@[r@[b].0 as int]@,
        decreases idx@.len() - a,
    {
        let j = idx[a];
        assert(j < pts.len());
        let sq = keys[j];
        proof {
            assert(valid_point(pts[j as int]));
            lemma_sq_dist_fits(target@, pts[j as int]);
        }
        let d = floor_sqrt(sq);
        proof {
            lemma_floor_sqrt_of_is(sq_dist(target@, pts[j as int]), d as int);
        }
        r.push((j, d, dataset.class_labels[j].clone()));
        a = a + 1;
    }
    assert(r@.map_values(|e: Neighbor| e.0) =~= idx@);
    r
}

/// The `k` rows of `dataset` nearest to `target`, nearest first, each with its distance
/// and class; equally near rows come in row order.
///
/// Fails with `ZeroNeighbors` when `k` is zero, and with `EmptyDataset` when there is no row.
pub fn find_k_nearest(dataset: &Dataset, target: &[i64], k: usize) -> (r: Result<
    Vec<Neighbor>,
    KnnError,
>)
    requires
        valid_point(target@),
        rows_fit(points(&dataset.rows), target@.len()),
        dataset.class_labels@.len() == dataset.rows@.len(),
    ensures
        k == 0 ==> r == Err::<Vec<Neighbor>, KnnError>(KnnError::ZeroNeighbors),
        k > 0 && dataset.rows@.len() == 0 ==> r == Err::<Vec<Neighbor>, KnnError>(KnnError::EmptyDataset),
        k > 0 && dataset.rows@.len() > 0 ==> (r matches Ok(ns) && lists_nearest(
            points(&dataset.rows),
            dataset.class_labels@,
            target@,
            k as nat,
            ns@,
        )),
{
    if k == 0 {
        return Err(KnnError::ZeroNeighbors);
    }
    if dataset.rows.len() == 0 {
        return Err(KnnError::EmptyDataset);
    }
    Ok(neighbors_of(dataset, target, k))
}

/// Why a search of `training` for the rows of `target` cannot run, if it cannot: the first
/// rows differ in length, or the training rows do not have one class label each.
pub open spec fn search_error(target: &Dataset, training: &Dataset) -> Option<KnnError> {
    let ts = points(&target.rows);
    let tr = points(&training.rows);
    if ts.len() > 0 && tr.len() > 0 && ts[0].len() != tr[0].len() {
        Some(
            KnnError::FeatureCountMismatch {
                testing: ts[0].len() as usize,
                training: tr[0].len() as usize,
            },
        )
    } else if tr.len() != training.class_labels@.len() {
        Some(
            KnnError::LabelCountMismatch {
                samples: tr.len() as usize,
                labels: training.class_labels@.len() as usize,
            },
        )
    } else {
        None
    }
}

/// `all` holds, for each row of `target`, its `k` nearest rows of `training`.
pub open spec fn lists_all_nearest(
    target: &Dataset,
    training: &Dataset,
    k: nat,
    all: Seq<Vec<Neighbor>>,
) -> bool {
    let ts = points(&target.rows);
    &&& all.len() == ts.len()
    &&& forall|i: int|
        0 <= i < ts.len() ==> lists_nearest(
            points(&training.rows),
            training.class_labels@,
            ts[i],
            k,
            #[trigger] all[i]@,
        )
}

/// For each row of `target_dataset`, its `k` nearest rows of `training_dataset`, as
/// `find_k_nearest` lists them (an empty list when `k` is zero).
///
/// Fails with the error that `search_error` gives, if any.
pub fn matrix_euclidean(target_dataset: &Dataset, training_dataset: &Dataset, k: usize) -> (r:
    Result<Vec<Vec<Neighbor>>, KnnError>)
    requires
        all_valid(points(&target_dataset.rows)),
        all_valid(points(&training_dataset.rows)),
        uniform_dimension(points(&target_dataset.rows)),
        uniform_dimension(points(&training_dataset.rows)),
    ensures
        search_error(target_dataset, training_dataset) matches Some(e) ==> r == Err::<
            Vec<Vec<Neighbor>>,
            KnnError,
        >(e),
        search_error(target_dataset, training_dataset) is None ==> (r matches Ok(all)
            && lists_all_nearest(target_dataset, training_dataset, k as nat, all@)),
{
    let ghost ts = points(&target_dataset.rows);
    let ghost tr = points(&training_dataset.rows);
    if target_dataset.rows.len() > 0 && training_dataset.rows.len() > 0 {
        let testing = target_dataset.rows[0].len();
        let training = training_dataset.rows[0].len();
        if testing != training {
            return Err(KnnError::FeatureCountMismatch { testing, training });
        }
    }
    if training_dataset.rows.len() != training_dataset.class_labels.len() {
        return Err(KnnError::LabelCountMismatch {
            samples: training_dataset.rows.len(),
            labels: training_dataset.class_labels.len(),
        });
    }
    let mut all: Vec<Vec<Neighbor>> = Vec::new();
    let mut i: usize = 0;
    while i < target_dataset.rows.len()
        invariant
            i <= ts.len(),
            ts == points(&target_dataset.rows),
            tr == points(&training_dataset.rows),
            all_valid(ts),
            all_valid(tr),
            uniform_dimension(ts),
            uniform_dimension(tr),
            ts.len() > 0 && tr.len() > 0 ==> ts[0].len() == tr[0].len(),
            tr.len() == training_dataset.class_labels@.len(),
            all@.len() == i,
            forall|t: int|
                0 <= t < i ==> lists_nearest(
                    tr,
                    training_dataset.class_labels@,
                    ts[t],
                    k as nat,
                    #[trigger] all@[t]@,
                ),
        decreases ts.len() - i,
    {
        let target = target_dataset.rows[i].as_slice();
        assert(valid_point(ts[i as int]));
        assert forall|j: int| 0 <= j < tr.len() implies #[trigger] tr[j].len() == target@.len() by {
            assert(ts[i as int].len() == ts[0].len());
            assert(tr[j].len() == tr[0].len());
        }
        let ns = neighbors_of(training_dataset, target, k);
        all.push(ns);
        i = i + 1;
    }
    Ok(all)
}

/// How many of the first `n` classes equal `c`.
pub open spec fn class_count(classes: Seq<Seq<char>>, c: Seq<char>, n: nat) -> nat
    decreases n,
{
    if n == 0 {
        0
    } else {
        class_count(classes, c, (n - 1) as nat) + if classes[n - 1] == c {
            1nat
        } else {
            0nat
        }
    }
}

/// Position of the first entry, among the first `n`, whose class is the most frequent.
pub open spec fn majority_upto(classes: Seq<Seq<char>>, n: nat) -> nat
    decreases n,
{
    if n <= 1 {
        0
    } else {
        let b = majority_upto(classes, (n - 1) as nat);
        let count = |c: Seq<char>| class_count(classes, c, classes.len());
        if count(classes[n - 1]) > count(classes[b as int]) {
            (n - 1) as nat
        } else {
            b
        }
    }
}

/// The most frequent class, the one met first among equally frequent ones, or `Unknown`
/// for no class at all.
pub open spec fn majority_class(classes: Seq<Seq<char>>) -> Seq<char> {
    if classes.len() == 0 {
        "Unknown"@
    } else {
        classes[majority_upto(classes, classes.len()) as int]
    }
}

/// The classes of a list of neighbours, in order.
pub open spec fn neighbor_classes(ns: Seq<Neighbor>) -> Seq<Seq<char>> {
    ns.map_values(|e: Neighbor| e.2@)
}

/// How many neighbours hold class `c`.
fn count_class(neighbors: &[Neighbor], c: &String) -> (r: usize)
    ensures
        r == class_count(neighbor_classes(neighbors@), c@, neighbors@.len()),
{
    let ghost cls = neighbor_classes(neighbors@);
    let mut n: usize = 0;
    let mut i: usize = 0;
    while i < neighbors.len()
        invariant
            i <= neighbors@.len(),
            cls == neighbor_classes(neighbors@),
            n == class_count(cls, c@, i as nat),
            n <= i,
        decreases neighbors@.len() - i,
    {
        if neighbors[i].2 == *c {
            n = n + 1;
        }
        i = i + 1;
    }
    n
}

/// The class that most of the neighbours hold; among equally frequent classes, the one of
/// the nearest neighbour. `Unknown` when there is no neighbour.
pub fn predict_class(neighbors: &[Neighbor]) -> (r: String)
    ensures
        r@ == majority_class(neighbor_classes(neighbors@)),
{
    let ghost cls = neighbor_classes(neighbors@);
    if neighbors.len() == 0 {
        return String::from_str("Unknown");
    }
    let mut best: usize = 0;
    let mut best_count = count_class(neighbors, &neighbors[0].2);
    let mut i: usize = 1;
    while i < neighbors.len()
        invariant
            1 <= i <= neighbors@.len(),
            cls == neighbor_classes(neighbors@),
            best == majority_upto(cls, i as nat),
            best < i,
            best_count == class_count(cls, cls[best as int], cls.len()),
        decreases neighbors@.len() - i,
    {
        let c = count_class(neighbors, &neighbors[i].2);
        if c > best_count {
            best = i;
            best_count = c;
        }
        i = i + 1;
    }
    neighbors[best].2.clone()
}

/// Why an evaluation of `target` against `training` cannot run, if it cannot: the search
/// cannot, or the target rows do not have one class label each.
pub open spec fn evaluation_error(target: &Dataset, training: &Dataset) -> Option<KnnError> {
    match search_error(target, training) {
        Some(e) => Some(e),
        None => if target.rows@.len() != target.class_labels@.len() {
            Some(
                KnnError::MissingTargetLabels {
                    samples: target.rows@.len() as usize,
                    labels: target.class_labels@.len() as usize,
                },
            )
        } else {
            None
        },
    }
}

/// `preds` holds, for each row of `target`, the majority class of its `k` nearest rows of
/// `training`.
pub open spec fn predicts_by_vote(
    target: &Dataset,
    training: &Dataset,
    k: nat,
    preds: Seq<String>,
) -> bool {
    let ts = points(&target.rows);
    &&& preds.len() == ts.len()
    &&& forall|i: int|
        0 <= i < ts.len() ==> voted_class(
            points(&training.rows),
            training.class_labels@,
            ts[i],
            k,
            (#[trigger] preds[i])@,
        )
}

/// Predicts a class for every row of `target_dataset` from its `k` nearest training rows,
/// and counts the predictions that match the row's own label.
///
/// The accuracy is the count divided by the number of rows. Fails with the error that
/// `evaluation_error` gives, if any.
pub fn evaluate_knn(target_dataset: &Dataset, training_dataset: &Dataset, k: usize) -> (r: Result<
    (usize, Vec<String>),
    KnnError,
>)
    requires
        all_valid(points(&target_dataset.rows)),
        all_valid(points(&training_dataset.rows)),
        uniform_dimension(points(&target_dataset.rows)),
        uniform_dimension(points(&training_dataset.rows)),
    ensures
        evaluation_error(target_dataset, training_dataset) matches Some(e) ==> r == Err::<
            (usize, Vec<String>),
            KnnError,
        >(e),
        evaluation_error(target_dataset, training_dataset) is None ==> (r matches Ok(
            (correct, preds),
        ) && predicts_by_vote(target_dataset, training_dataset, k as nat, preds@) && correct
            == matches_upto(preds@, target_dataset.class_labels@, preds@.len())),
{
    let neighbors_result = matrix_euclidean(target_dataset, training_dataset, k);
    let all = match neighbors_result {
        Ok(all) => all,
        Err(e) => {
            return Err(e);
        },
    };
    if target_dataset.class_labels.len() != target_dataset.rows.len() {
        return Err(KnnError::MissingTargetLabels {
            samples: target_dataset.rows.len(),
            labels: target_dataset.class_labels.len(),
        });
    }
    let ghost ts = points(&target_dataset.rows);
    let ghost tr = points(&training_dataset.rows);
    let mut predictions: Vec<String> = Vec::new();
    let mut correct: usize = 0;
    let mut i: usize = 0;
    while i < all.len()
        invariant
            i <= all@.len(),
            all@.len() == ts.len(),
            ts == points(&target_dataset.rows),
            tr == points(&training_dataset.rows),
            target_dataset.class_labels@.len() == ts.len(),
            lists_all_nearest(target_dataset, training_dataset, k as nat, all@),
            predictions@.len() == i,
            forall|t: int|
                0 <= t < i ==> (#[trigger] predictions@[t])@ == majority_class(
                    neighbor_classes(all@[t]@),
                ),
            correct == matches_upto(predictions@, target_dataset.class_labels@, i as nat),
            correct <= i,
        decreases all@.len() - i,
    {
        let predicted = predict_class(all[i].as_slice());
        let hit = predicted == target_dataset.class_labels[i];
        let ghost before = predictions@;
        predictions.push(predicted);
        proof {
            assert(predictions@.take(i as int) =~= before);
            assert(before.take(i as int) =~= before);
            lemma_matches_upto_prefix(predictions@, before, target_dataset.class_labels@, i as nat);
        }
        if hit {
            correct = correct + 1;
        }
        i = i + 1;
    }
    proof {
        assert forall|t: int| 0 <= t < ts.len() implies voted_class(
            tr,
            training_dataset.class_labels@,
            ts[t],
            k as nat,
            (#[trigger] predictions@[t])@,
        ) by {
            assert(lists_nearest(tr, training_dataset.class_labels@, ts[t], k as nat, all@[t]@));
        }
    }
    Ok((correct, predictions))
}

/// `p` is the majority class of the `k` rows nearest to `t`.
pub open spec fn voted_class(
    rows: Seq<Seq<i64>>,
    labels: Seq<String>,
    t: Seq<i64>,
    k: nat,
    p: Seq<char>,
) -> bool {
    exists|ns: Seq<Neighbor>|
        lists_nearest(rows, labels, t, k, ns) && p == majority_class(neighbor_classes(ns))
}

/// How many of the first `n` predictions equal the label at the same position.
pub open spec fn matches_upto(preds: Seq<String>, labels: Seq<String>, n: nat) -> nat
    decreases n,
{
    if n == 0 {
        0
    } else {
        matches_upto(preds, labels, (n - 1) as nat) + if preds[n - 1]@ == labels[n - 1]@ {
            1nat
        } else {
            0nat
        }
    }
}

/// The count of matches over a prefix depends on that prefix alone.
proof fn lemma_matches_upto_prefix(p: Seq<String>, q: Seq<String>, labels: Seq<String>, n: nat)
    requires
        n <= q.len(),
        n <= p.len(),
        p.take(n as int) == q.take(n as int),
    ensures
        matches_upto(p, labels, n) == matches_upto(q, labels, n),
    decreases n,
{
    if n > 0 {
        assert(p[n - 1] == p.take(n as int)[n - 1]);
        assert(q[n - 1] == q.take(n as int)[n - 1]);
        assert(p.take(n - 1) =~= p.take(n as int).take(n - 1));
        assert(q.take(n - 1) =~= q.take(n as int).take(n - 1));
        lemma_matches_upto_prefix(p, q, labels, (n - 1) as nat);
    }
}

} // verus!
