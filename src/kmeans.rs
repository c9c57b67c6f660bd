use rand_chacha::ChaCha8Rng;
use vstd::arithmetic::div_mod::{lemma_fundamental_div_mod, lemma_fundamental_div_mod_converse};
use vstd::prelude::*;

use crate::distance::{
    sq_dist, squared_distance, valid_point, COORD_LIMIT, MAX_DIMENSION,
};
use crate::seeding::{is_one_of, is_seeding, kmeans_plus_plus};

verus! {

/// The points held by a vector of rows.
pub open spec fn points(v: &Vec<Vec<i64>>) -> Seq<Seq<i64>> {
    v@.map_values(|p: Vec<i64>| p@)
}

/// Every point is one that the distance computations accept.
pub open spec fn all_valid(pts: Seq<Seq<i64>>) -> bool {
    forall|i: int| 0 <= i < pts.len() ==> valid_point(#[trigger] pts[i])
}

/// Every point of `pts` has as many coordinates as every point of `cs`.
pub open spec fn same_dimension(pts: Seq<Seq<i64>>, cs: Seq<Seq<i64>>) -> bool {
    forall|i: int, c: int|
        0 <= i < pts.len() && 0 <= c < cs.len() ==> #[trigger] pts[i].len() == #[trigger] cs[c].len()
}

/// All points have exactly `dim` coordinates.
pub open spec fn all_of_dimension(pts: Seq<Seq<i64>>, dim: nat) -> bool {
    forall|i: int| 0 <= i < pts.len() ==> #[trigger] pts[i].len() == dim
}

/// Index of the closest of the first `n` centroids; the first one wins a tie.
pub open spec fn nearest_upto(p: Seq<i64>, cs: Seq<Seq<i64>>, n: nat) -> nat
    decreases n,
{
    if n <= 1 {
        0
    } else {
        let b = nearest_upto(p, cs, (n - 1) as nat);
        if sq_dist(p, cs[n - 1]) < sq_dist(p, cs[b as int]) {
            (n - 1) as nat
        } else {
            b
        }
    }
}

/// Index of the centroid closest to `p`, the lowest one among equals.
pub open spec fn nearest(p: Seq<i64>, cs: Seq<Seq<i64>>) -> nat {
    nearest_upto(p, cs, cs.len())
}

/// `c` is the lowest index of a centroid at the least distance from `p`.
pub open spec fn is_nearest(p: Seq<i64>, cs: Seq<Seq<i64>>, c: int) -> bool {
    &&& 0 <= c < cs.len()
    &&& forall|j: int| 0 <= j < cs.len() ==> sq_dist(p, cs[c]) <= sq_dist(p, #[trigger] cs[j])
    &&& forall|j: int| 0 <= j < c ==> sq_dist(p, cs[c]) < sq_dist(p, #[trigger] cs[j])
}

/// The assignment of every point to its nearest centroid; empty when there is no centroid.
pub open spec fn assignment(pts: Seq<Seq<i64>>, cs: Seq<Seq<i64>>) -> Seq<usize> {
    if cs.len() == 0 {
        Seq::empty()
    } else {
        Seq::new(pts.len(), |i: int| nearest(pts[i], cs) as usize)
    }
}

/// The scan over the first `n` centroids picks the lowest index of a closest one.
proof fn lemma_nearest_upto(p: Seq<i64>, cs: Seq<Seq<i64>>, n: nat)
    requires
        1 <= n <= cs.len(),
    ensures
        nearest_upto(p, cs, n) < n,
        forall|j: int|
            0 <= j < n ==> sq_dist(p, cs[nearest_upto(p, cs, n) as int]) <= sq_dist(
                p,
                #[trigger] cs[j],
            ),
        forall|j: int|
            0 <= j < nearest_upto(p, cs, n) ==> sq_dist(p, cs[nearest_upto(p, cs, n) as int])
                < sq_dist(p, #[trigger] cs[j]),
    decreases n,
{
    if n > 1 {
        lemma_nearest_upto(p, cs, (n - 1) as nat);
    }
}

/// The recursive scan picks exactly the index that `is_nearest` describes.
pub proof fn lemma_nearest_is_nearest(p: Seq<i64>, cs: Seq<Seq<i64>>)
    requires
        cs.len() > 0,
    ensures
        is_nearest(p, cs, nearest(p, cs) as int),
{
    lemma_nearest_upto(p, cs, cs.len());
}

/// Index of the centroid nearest to `p`, the lowest one among equals.
fn nearest_centroid(p: &[i64], centroids: &Vec<Vec<i64>>) -> (r: usize)
    requires
        centroids@.len() > 0,
        valid_point(p@),
        all_valid(points(centroids)),
        forall|c: int| 0 <= c < centroids@.len() ==> #[trigger] centroids@[c]@.len() == p@.len(),
    ensures
        r == nearest(p@, points(centroids)),
        r < centroids@.len(),
{
    let ghost cs = points(centroids);
    assert(valid_point(cs[0]));
    let mut best: usize = 0;
    let mut best_d: u128 = squared_distance(p, centroids[0].as_slice());
    let mut c: usize = 1;
    while c < centroids.len()
        invariant
            1 <= c <= cs.len(),
            cs == points(centroids),
            valid_point(p@),
            all_valid(cs),
            forall|c: int| 0 <= c < cs.len() ==> #[trigger] cs[c].len() == p@.len(),
            best == nearest_upto(p@, cs, c as nat),
            best_d == sq_dist(p@, cs[best as int]),
        decreases cs.len() - c,
    {
        proof {
            lemma_nearest_upto(p@, cs, c as nat);
        }
        assert(valid_point(cs[c as int]));
        let d = squared_distance(p, centroids[c].as_slice());
        if d < best_d {
            best = c;
            best_d = d;
        }
        c = c + 1;
    }
    proof {
        lemma_nearest_upto(p@, cs, c as nat);
    }
    best
}

/// Assigns every point to the index of its nearest centroid.
///
/// Ties go to the lowest index. With no point or no centroid the result is empty.
pub fn asignar_a_clusters(data: &Vec<Vec<i64>>, centroides: &Vec<Vec<i64>>) -> (r: Vec<usize>)
    requires
        all_valid(points(data)),
        all_valid(points(centroides)),
        same_dimension(points(data), points(centroides)),
    ensures
        r@ == assignment(points(data), points(centroides)),
        centroides@.len() > 0 ==> r@.len() == data@.len(),
        forall|i: int| 0 <= i < r@.len() ==> #[trigger] r@[i] < centroides@.len(),
        forall|i: int|
            0 <= i < r@.len() ==> is_nearest(
                points(data)[i],
                points(centroides),
                #[trigger] r@[i] as int,
            ),
{
    let ghost pts = points(data);
    let ghost cs = points(centroides);
    let mut r: Vec<usize> = Vec::new();
    if data.len() == 0 || centroides.len() == 0 {
        assert(r@ =~= assignment(pts, cs));
        return r;
    }
    let mut i: usize = 0;
    while i < data.len()
        invariant
            i <= pts.len(),
            cs.len() > 0,
            pts == points(data),
            cs == points(centroides),
            all_valid(pts),
            all_valid(cs),
            same_dimension(pts, cs),
            r@.len() == i,
            forall|t: int| 0 <= t < i ==> #[trigger] r@[t] == nearest(pts[t], cs) as usize,
            forall|t: int| 0 <= t < i ==> is_nearest(pts[t], cs, #[trigger] r@[t] as int),
        decreases pts.len() - i,
    {
        assert(valid_point(pts[i as int]));
        assert forall|c: int| 0 <= c < centroides@.len() implies #[trigger] centroides@[c]@.len()
            == data@[i as int]@.len() by {
            assert(pts[i as int].len() == cs[c].len());
        }
        let b = nearest_centroid(data[i].as_slice(), centroides);
        proof {
            lemma_nearest_is_nearest(pts[i as int], cs);
        }
        r.push(b);
        i = i + 1;
    }
    assert(r@ =~= assignment(pts, cs));
    r
}

/// Every point has as many coordinates as the first one.
pub open spec fn uniform_dimension(pts: Seq<Seq<i64>>) -> bool {
    forall|i: int| 0 <= i < pts.len() ==> #[trigger] pts[i].len() == pts[0].len()
}

/// Number of coordinates of the points: that of the first one, or zero when there is none.
pub open spec fn dimension_of(pts: Seq<Seq<i64>>) -> nat {
    if pts.len() > 0 {
        pts[0].len()
    } else {
        0
    }
}

/// How many of the first `n` entries of `asg` name cluster `c`.
pub open spec fn member_count(asg: Seq<usize>, c: int, n: nat) -> nat
    decreases n,
{
    if n == 0 {
        0
    } else {
        member_count(asg, c, (n - 1) as nat) + if asg[n - 1] == c {
            1nat
        } else {
            0nat
        }
    }
}

/// Sum of coordinate `j` over the first `n` points that `asg` puts in cluster `c`.
pub open spec fn coord_sum(pts: Seq<Seq<i64>>, asg: Seq<usize>, c: int, j: int, n: nat) -> int
    decreases n,
{
    if n == 0 {
        0
    } else {
        coord_sum(pts, asg, c, j, (n - 1) as nat) + if asg[n - 1] == c {
            pts[n - 1][j] as int
        } else {
            0
        }
    }
}

/// Coordinate `j` of the mean of cluster `c`, rounded down; zero for a cluster with no point.
pub open spec fn mean_coord(pts: Seq<Seq<i64>>, asg: Seq<usize>, c: int, j: int) -> int {
    let n = member_count(asg, c, asg.len());
    if n == 0 {
        0
    } else {
        coord_sum(pts, asg, c, j, asg.len()) / (n as int)
    }
}

/// The `k` centroids recomputed from an assignment.
///
/// Each is the coordinate-wise mean of its points, rounded down; a cluster with no point
/// gets the zero vector. When there is no point, or the assignment does not have one entry
/// per point, all `k` centroids are zero vectors.
pub open spec fn centroid_update(pts: Seq<Seq<i64>>, asg: Seq<usize>, k: nat) -> Seq<Seq<i64>> {
    let dim = dimension_of(pts);
    if pts.len() == 0 || pts.len() != asg.len() {
        Seq::new(k, |c: int| Seq::new(dim, |j: int| 0i64))
    } else {
        Seq::new(k, |c: int| Seq::new(dim, |j: int| mean_coord(pts, asg, c, j) as i64))
    }
}

/// A cluster's sum of bounded coordinates is bounded by its size times the bound.
proof fn lemma_coord_sum_bounds(pts: Seq<Seq<i64>>, asg: Seq<usize>, c: int, j: int, n: nat)
    requires
        n <= pts.len(),
        n <= asg.len(),
        all_valid(pts),
        0 <= j,
        forall|i: int| 0 <= i < pts.len() ==> j < #[trigger] pts[i].len(),
    ensures
        -(member_count(asg, c, n) * COORD_LIMIT) <= coord_sum(pts, asg, c, j, n) <= member_count(
            asg,
            c,
            n,
        ) * COORD_LIMIT,
        member_count(asg, c, n) <= n,
    decreases n,
{
    if n > 0 {
        lemma_coord_sum_bounds(pts, asg, c, j, (n - 1) as nat);
        let m = member_count(asg, c, (n - 1) as nat);
        assert(valid_point(pts[n - 1]));
        assert(j < pts[n - 1].len());
        assert(-COORD_LIMIT <= pts[n - 1][j] <= COORD_LIMIT);
        assert((m + 1) * COORD_LIMIT == m * COORD_LIMIT + COORD_LIMIT) by (nonlinear_arith);
    }
}

/// Dividing a sum of `n` bounded values by `n`, rounding down, stays within the bound.
proof fn lemma_floor_div_bounds(s: int, n: int)
    requires
        n > 0,
        -(n * COORD_LIMIT) <= s <= n * COORD_LIMIT,
    ensures
        -COORD_LIMIT <= s / n <= COORD_LIMIT,
{
    lemma_fundamental_div_mod(s, n);
    let q = s / n;
    let r = s % n;
    assert(0 <= r < n);
    assert(-COORD_LIMIT <= q <= COORD_LIMIT) by (nonlinear_arith)
        requires
            n > 0,
            s == n * q + r,
            0 <= r < n,
            -(n * COORD_LIMIT) <= s <= n * COORD_LIMIT,
    ;
}

/// The mean of bounded coordinates is bounded the same way.
proof fn lemma_mean_coord_bounds(pts: Seq<Seq<i64>>, asg: Seq<usize>, c: int, j: int)
    requires
        pts.len() == asg.len(),
        all_valid(pts),
        0 <= j,
        forall|i: int| 0 <= i < pts.len() ==> j < #[trigger] pts[i].len(),
    ensures
        -COORD_LIMIT <= mean_coord(pts, asg, c, j) <= COORD_LIMIT,
{
    lemma_coord_sum_bounds(pts, asg, c, j, asg.len());
    let n = member_count(asg, c, asg.len());
    if n > 0 {
        lemma_floor_div_bounds(coord_sum(pts, asg, c, j, asg.len()), n as int);
    }
}

/// A recomputed centroid of a cluster that has points is their mean rounded down: each
/// coordinate `v` satisfies `n * v <= sum < n * (v + 1)`, for the `n` points of the cluster
/// and the `sum` of their coordinates. It is the exact mean whenever `n` divides `sum`.
pub proof fn lemma_update_is_rounded_mean(
    pts: Seq<Seq<i64>>,
    asg: Seq<usize>,
    k: nat,
    c: int,
    j: int,
)
    requires
        pts.len() > 0,
        pts.len() == asg.len(),
        all_valid(pts),
        uniform_dimension(pts),
        0 <= c < k,
        0 <= j < dimension_of(pts),
        member_count(asg, c, asg.len()) > 0,
    ensures
        ({
            let v = centroid_update(pts, asg, k)[c][j] as int;
            let n = member_count(asg, c, asg.len()) as int;
            let sum = coord_sum(pts, asg, c, j, asg.len());
            &&& n * v <= sum < n * (v + 1)
            &&& sum % n == 0 ==> v * n == sum
        }),
{
    assert forall|i: int| 0 <= i < pts.len() implies j < #[trigger] pts[i].len() by {}
    lemma_mean_coord_bounds(pts, asg, c, j);
    let n = member_count(asg, c, asg.len()) as int;
    let sum = coord_sum(pts, asg, c, j, asg.len());
    lemma_fundamental_div_mod(sum, n);
    let v = sum / n;
    assert(centroid_update(pts, asg, k)[c][j] as int == v);
    assert(n * v <= sum < n * (v + 1)) by (nonlinear_arith)
        requires
            sum == n * v + sum % n,
            0 <= sum % n < n,
    ;
}

/// `s` divided by `n`, rounded down.
fn floor_div(s: i128, n: usize) -> (q: i64)
    requires
        n > 0,
        -(n * COORD_LIMIT) <= s <= n * COORD_LIMIT,
    ensures
        q == s as int / n as int,
{
    proof {
        lemma_floor_div_bounds(s as int, n as int);
    }
    if s >= 0 {
        let q = (s as u128) / (n as u128);
        proof {
            lemma_fundamental_div_mod(s as int, n as int);
        }
        q as i64
    } else {
        let m: u128 = (-s) as u128;
        let nn: u128 = n as u128;
        let up: u128 = (m + nn - 1) / nn;
        proof {
            let x = m + nn - 1;
            lemma_fundamental_div_mod(x as int, nn as int);
            let r = x as int % nn as int;
            assert(s as int == (-(up as int)) * (n as int) + (nn - 1 - r)) by (nonlinear_arith)
                requires
                    x == nn * up + r,
                    x == m + nn - 1,
                    s == -m,
                    nn == n,
            ;
            lemma_fundamental_div_mod_converse(s as int, n as int, -(up as int), nn - 1 - r);
        }
        -(up as i64)
    }
}

/// Mean of the points assigned to cluster `c`, rounded down; zeros when it has none.
fn cluster_mean(data: &Vec<Vec<i64>>, clusters: &Vec<usize>, c: usize, dim: usize) -> (row: Vec<
    i64,
>)
    requires
        data@.len() == clusters@.len(),
        all_valid(points(data)),
        all_of_dimension(points(data), dim as nat),
    ensures
        row@ == Seq::new(dim as nat, |j: int| mean_coord(points(data), clusters@, c as int, j) as i64),
{
    let ghost pts = points(data);
    let ghost asg = clusters@;
    let mut sums: Vec<i128> = Vec::new();
    let mut j: usize = 0;
    while j < dim
        invariant
            j <= dim,
            sums@.len() == j,
            forall|t: int| 0 <= t < j ==> #[trigger] sums@[t] == 0,
        decreases dim - j,
    {
        sums.push(0);
        j = j + 1;
    }
    let mut count: usize = 0;
    let mut i: usize = 0;
    while i < data.len()
        invariant
            i <= pts.len(),
            pts == points(data),
            asg == clusters@,
            pts.len() == asg.len(),
            all_valid(pts),
            all_of_dimension(pts, dim as nat),
            sums@.len() == dim,
            count == member_count(asg, c as int, i as nat),
            count <= i,
            forall|t: int|
                0 <= t < dim ==> #[trigger] sums@[t] == coord_sum(pts, asg, c as int, t, i as nat),
        decreases pts.len() - i,
    {
        if clusters[i] == c {
            let row_i = &data[i];
            assert(valid_point(pts[i as int]));
            assert(pts[i as int].len() == dim);
            let mut t: usize = 0;
            while t < dim
                invariant
                    t <= dim,
                    i < pts.len(),
                    pts == points(data),
                    asg == clusters@,
                    pts.len() == asg.len(),
                    all_valid(pts),
                    all_of_dimension(pts, dim as nat),
                    row_i@ == pts[i as int],
                    asg[i as int] == c,
                    sums@.len() == dim,
                    forall|u: int|
                        0 <= u < t ==> #[trigger] sums@[u] == coord_sum(
                            pts,
                            asg,
                            c as int,
                            u,
                            (i + 1) as nat,
                        ),
                    forall|u: int|
                        t <= u < dim ==> #[trigger] sums@[u] == coord_sum(pts, asg, c as int, u, i as nat),
                decreases dim - t,
            {
                proof {
                    lemma_coord_sum_bounds(pts, asg, c as int, t as int, i as nat);
                    assert(-COORD_LIMIT <= pts[i as int][t as int] <= COORD_LIMIT);
                    let m = member_count(asg, c as int, i as nat);
                    assert(m * COORD_LIMIT <= 0x1_0000_0000_0000_0000 * COORD_LIMIT)
                        by (nonlinear_arith)
                        requires
                            m <= i < 0x1_0000_0000_0000_0000,
                    ;
                }
                let v = sums[t] + row_i[t] as i128;
                sums.set(t, v);
                t = t + 1;
            }
            count = count + 1;
        } else {
            assert forall|u: int| 0 <= u < dim implies #[trigger] sums@[u] == coord_sum(
                pts,
                asg,
                c as int,
                u,
                (i + 1) as nat,
            ) by {}
        }
        i = i + 1;
    }
    let mut row: Vec<i64> = Vec::new();
    let mut t: usize = 0;
    while t < dim
        invariant
            t <= dim,
            pts == points(data),
            asg == clusters@,
            pts.len() == asg.len(),
            all_valid(pts),
            all_of_dimension(pts, dim as nat),
            sums@.len() == dim,
            count == member_count(asg, c as int, asg.len()),
            forall|u: int|
                0 <= u < dim ==> #[trigger] sums@[u] == coord_sum(pts, asg, c as int, u, asg.len()),
            row@.len() == t,
            forall|u: int| 0 <= u < t ==> #[trigger] row@[u] == mean_coord(pts, asg, c as int, u) as i64,
        decreases dim - t,
    {
        proof {
            lemma_coord_sum_bounds(pts, asg, c as int, t as int, asg.len());
        }
        let v: i64 = if count > 0 {
            floor_div(sums[t], count)
        } else {
            0
        };
        row.push(v);
        t = t + 1;
    }
    assert(row@ =~= Seq::new(dim as nat, |j: int| mean_coord(pts, asg, c as int, j) as i64));
    row
}

/// A row of `dim` zeros.
fn zero_row(dim: usize) -> (row: Vec<i64>)
    ensures
        row@ == Seq::new(dim as nat, |j: int| 0i64),
{
    let mut row: Vec<i64> = Vec::new();
    let mut t: usize = 0;
    while t < dim
        invariant
            t <= dim,
            row@ == Seq::new(t as nat, |j: int| 0i64),
        decreases dim - t,
    {
        row.push(0);
        t = t + 1;
        assert(row@ =~= Seq::new(t as nat, |j: int| 0i64));
    }
    row
}

/// Recomputes the `k` centroids as the means of the points assigned to each.
///
/// A mean is rounded down to a whole coordinate unit. A cluster with no point gets the
/// zero vector. With no point, or an assignment whose length differs from the number of
/// points, all `k` centroids are zero vectors of the points' dimension.
pub fn actualizar_centroides(data: &Vec<Vec<i64>>, clusters: &Vec<usize>, k: usize) -> (r: Vec<
    Vec<i64>,
>)
    requires
        all_valid(points(data)),
        uniform_dimension(points(data)),
    ensures
        points(&r) == centroid_update(points(data), clusters@, k as nat),
        r@.len() == k,
{
    let ghost pts = points(data);
    let ghost asg = clusters@;
    let dim: usize = if data.len() > 0 {
        data[0].len()
    } else {
        0
    };
    let degenerate = data.len() == 0 || clusters.len() == 0 || data.len() != clusters.len();
    let mut r: Vec<Vec<i64>> = Vec::new();
    let mut c: usize = 0;
    while c < k
        invariant
            c <= k,
            pts == points(data),
            asg == clusters@,
            all_valid(pts),
            uniform_dimension(pts),
            dim == dimension_of(pts),
            degenerate == (pts.len() == 0 || pts.len() != asg.len()),
            r@.len() == c,
            forall|u: int| 0 <= u < c ==> #[trigger] points(&r)[u] == centroid_update(pts, asg, k as nat)[u],
        decreases k - c,
    {
        let row = if degenerate {
            zero_row(dim)
        } else {
            assert(all_of_dimension(pts, dim as nat));
            cluster_mean(data, clusters, c, dim)
        };
        assert(row@ =~= centroid_update(pts, asg, k as nat)[c as int]);
        let ghost before = points(&r);
        r.push(row);
        proof {
            assert(points(&r)[c as int] == row@);
            assert forall|u: int| 0 <= u < c + 1 implies #[trigger] points(&r)[u] == centroid_update(pts, asg, k as nat)[u] by {
                if u < c {
                    assert(before[u] == centroid_update(pts, asg, k as nat)[u]);
                }
            }
        }
        c = c + 1;
    }
    assert(points(&r) =~= centroid_update(pts, asg, k as nat));
    r
}

/// Largest movement of a coordinate, in units, that still counts as standing still.
pub const CONVERGENCE_TOLERANCE: i64 = 1;

/// No coordinate of `old` differs from the same coordinate of `new` by more than the tolerance.
pub open spec fn within_tolerance(old: Seq<Seq<i64>>, new: Seq<Seq<i64>>) -> bool {
    forall|i: int, j: int|
        0 <= i < old.len() && 0 <= j < old[i].len() ==> -CONVERGENCE_TOLERANCE <= #[trigger] old[i][j]
            - new[i][j] <= CONVERGENCE_TOLERANCE
}

/// One round of Lloyd's algorithm: assign every point, then recompute the centroids.
pub open spec fn lloyd_step(pts: Seq<Seq<i64>>, cs: Seq<Seq<i64>>) -> Seq<Seq<i64>> {
    centroid_update(pts, assignment(pts, cs), cs.len())
}

/// The outcome of at most `budget` rounds from the centroids `cs`: the final centroids, the
/// number of rounds run, and whether the last round found them standing still.
///
/// A round that moves no coordinate beyond the tolerance ends the run and keeps the
/// centroids it started from.
pub open spec fn lloyd_run(pts: Seq<Seq<i64>>, cs: Seq<Seq<i64>>, budget: nat) -> (
    Seq<Seq<i64>>,
    nat,
    bool,
)
    decreases budget,
{
    if budget == 0 {
        (cs, 0, false)
    } else {
        let next = lloyd_step(pts, cs);
        if within_tolerance(cs, next) {
            (cs, 1, true)
        } else {
            let r = lloyd_run(pts, next, (budget - 1) as nat);
            (r.0, r.1 + 1, r.2)
        }
    }
}

/// `k` centroids of `dim` bounded coordinates each.
pub open spec fn well_shaped(cs: Seq<Seq<i64>>, k: nat, dim: nat) -> bool {
    &&& cs.len() == k
    &&& all_of_dimension(cs, dim)
    &&& all_valid(cs)
}

/// A round keeps the shape of the centroids: as many, with the points' dimension, bounded.
pub proof fn lemma_step_well_shaped(pts: Seq<Seq<i64>>, cs: Seq<Seq<i64>>, dim: nat)
    requires
        pts.len() > 0,
        cs.len() > 0,
        dim <= MAX_DIMENSION,
        all_of_dimension(pts, dim),
        all_valid(pts),
    ensures
        well_shaped(lloyd_step(pts, cs), cs.len(), dim),
{
    let asg = assignment(pts, cs);
    let next = lloyd_step(pts, cs);
    assert(asg.len() == pts.len());
    assert(dimension_of(pts) == dim);
    assert forall|c: int| 0 <= c < next.len() implies valid_point(#[trigger] next[c]) by {
        assert forall|j: int| 0 <= j < next[c].len() implies -COORD_LIMIT <= #[trigger] next[c][j]
            <= COORD_LIMIT by {
            lemma_mean_coord_bounds(pts, asg, c, j);
        }
    }
}

/// The result of a run that reports convergence is a fixed point up to the tolerance:
/// one more round from it moves no coordinate by more than the tolerance.
pub proof fn lemma_converged_is_fixed_point(pts: Seq<Seq<i64>>, cs: Seq<Seq<i64>>, budget: nat)
    requires
        lloyd_run(pts, cs, budget).2,
    ensures
        ({
            let last = lloyd_run(pts, cs, budget).0;
            within_tolerance(last, lloyd_step(pts, last))
        }),
    decreases budget,
{
    if budget > 0 {
        let next = lloyd_step(pts, cs);
        if !within_tolerance(cs, next) {
            lemma_converged_is_fixed_point(pts, next, (budget - 1) as nat);
        }
    }
}

/// A run reports convergence, or it used its whole budget; it never runs past it.
pub proof fn lemma_run_rounds(pts: Seq<Seq<i64>>, cs: Seq<Seq<i64>>, budget: nat)
    ensures
        lloyd_run(pts, cs, budget).1 <= budget,
        !lloyd_run(pts, cs, budget).2 ==> lloyd_run(pts, cs, budget).1 == budget,
        lloyd_run(pts, cs, budget).2 ==> lloyd_run(pts, cs, budget).1 >= 1,
    decreases budget,
{
    if budget > 0 {
        let next = lloyd_step(pts, cs);
        if !within_tolerance(cs, next) {
            lemma_run_rounds(pts, next, (budget - 1) as nat);
        }
    }
}

/// Whether no coordinate moved by more than the tolerance between two centroid sets.
fn centroids_within_tolerance(old: &Vec<Vec<i64>>, new: &Vec<Vec<i64>>) -> (r: bool)
    requires
        old@.len() == new@.len(),
        all_valid(points(old)),
        all_valid(points(new)),
        forall|i: int| 0 <= i < old@.len() ==> #[trigger] points(old)[i].len() == points(new)[i].len(),
    ensures
        r == within_tolerance(points(old), points(new)),
{
    let ghost a = points(old);
    let ghost b = points(new);
    let mut i: usize = 0;
    while i < old.len()
        invariant
            i <= a.len(),
            a == points(old),
            b == points(new),
            a.len() == b.len(),
            all_valid(a),
            all_valid(b),
            forall|x: int| 0 <= x < a.len() ==> #[trigger] a[x].len() == b[x].len(),
            forall|x: int, j: int|
                0 <= x < i && 0 <= j < a[x].len() ==> -CONVERGENCE_TOLERANCE <= #[trigger] a[x][j]
                    - b[x][j] <= CONVERGENCE_TOLERANCE,
        decreases a.len() - i,
    {
        let row_a = &old[i];
        let row_b = &new[i];
        assert(valid_point(a[i as int]));
        assert(valid_point(b[i as int]));
        let mut j: usize = 0;
        while j < row_a.len()
            invariant
                j <= a[i as int].len(),
                i < a.len(),
                a == points(old),
                b == points(new),
                row_a@ == a[i as int],
                row_b@ == b[i as int],
                a[i as int].len() == b[i as int].len(),
                valid_point(a[i as int]),
                valid_point(b[i as int]),
                forall|y: int|
                    0 <= y < j ==> -CONVERGENCE_TOLERANCE <= #[trigger] a[i as int][y] - b[i as int][y]
                        <= CONVERGENCE_TOLERANCE,
            decreases a[i as int].len() - j,
        {
            assert(-COORD_LIMIT <= a[i as int][j as int] <= COORD_LIMIT);
            assert(-COORD_LIMIT <= b[i as int][j as int] <= COORD_LIMIT);
            let d: i64 = row_a[j] - row_b[j];
            if d > CONVERGENCE_TOLERANCE || d < -CONVERGENCE_TOLERANCE {
                return false;
            }
            j = j + 1;
        }
        i = i + 1;
    }
    true
}

/// What a run of the clustering loop produced.
pub struct KMeansOutcome {
    /// The final centroids; the index of a centroid is its cluster identifier.
    pub centroids: Vec<Vec<i64>>,
    /// Number of assign-and-update rounds that were run.
    pub iterations: usize,
    /// Whether the last round moved no coordinate beyond the tolerance.
    pub converged: bool,
}

/// Runs Lloyd's algorithm from the given centroids for at most `max_iters` rounds.
///
/// Each round assigns every point to its nearest centroid and recomputes the centroids.
/// The run stops early once a round moves no coordinate by more than
/// `CONVERGENCE_TOLERANCE`, keeping the centroids that round started from.
pub fn lloyd_iterations(data: &Vec<Vec<i64>>, centroids: Vec<Vec<i64>>, max_iters: usize) -> (r:
    KMeansOutcome)
    requires
        data@.len() > 0,
        centroids@.len() > 0,
        all_valid(points(data)),
        all_valid(points(&centroids)),
        all_of_dimension(points(data), centroids@[0]@.len()),
        all_of_dimension(points(&centroids), centroids@[0]@.len()),
    ensures
        (points(&r.centroids), r.iterations as nat, r.converged) == lloyd_run(
            points(data),
            points(&centroids),
            max_iters as nat,
        ),
        well_shaped(points(&r.centroids), centroids@.len(), centroids@[0]@.len()),
{
    let ghost pts = points(data);
    let ghost init = points(&centroids);
    let ghost dim = centroids@[0]@.len();
    let ghost k = centroids@.len();
    let mut cur = centroids;
    let mut it: usize = 0;
    assert(dim <= MAX_DIMENSION) by {
        assert(valid_point(init[0]));
    }
    while it < max_iters
        invariant
            it <= max_iters,
            pts == points(data),
            pts.len() > 0,
            k == centroids@.len(),
            dim == centroids@[0]@.len(),
            init == points(&centroids),
            k > 0,
            dim <= MAX_DIMENSION,
            all_valid(pts),
            all_of_dimension(pts, dim),
            well_shaped(points(&cur), k, dim),
            lloyd_run(pts, init, max_iters as nat) == ({
                let t = lloyd_run(pts, points(&cur), (max_iters - it) as nat);
                (t.0, (t.1 + it) as nat, t.2)
            }),
        decreases max_iters - it,
    {
        let ghost cs = points(&cur);
        assert(same_dimension(pts, cs));
        let asg = asignar_a_clusters(data, &cur);
        assert(uniform_dimension(pts)) by {
            assert(pts[0].len() == dim);
        }
        let next = actualizar_centroides(data, &asg, cur.len());
        proof {
            lemma_step_well_shaped(pts, cs, dim);
        }
        let stays = centroids_within_tolerance(&cur, &next);
        assert(points(&next) == lloyd_step(pts, cs));
        if stays {
            assert(lloyd_run(pts, cs, (max_iters - it) as nat) == (cs, 1nat, true));

            return KMeansOutcome { centroids: cur, iterations: it + 1, converged: true };
        }
        assert(lloyd_run(pts, cs, (max_iters - it) as nat) == ({
            let t = lloyd_run(pts, points(&next), (max_iters - it - 1) as nat);
            (t.0, (t.1 + 1) as nat, t.2)
        }));
        cur = next;
        it = it + 1;
    }
    assert(lloyd_run(pts, points(&cur), 0) == (points(&cur), 0nat, false));
    KMeansOutcome { centroids: cur, iterations: it, converged: false }
}

/// Clusters the points into `k` clusters: K-Means++ seeding, then at most `max_iters`
/// rounds of Lloyd's algorithm.
///
/// With no point, `k == 0` or `k` above the number of points, nothing is run and the
/// centroids are empty. Otherwise the result is the run of `lloyd_iterations` from some
/// outcome of `kmeans_plus_plus`.
pub fn iterar_hasta_optimo(
    max_iters: usize,
    data: &Vec<Vec<i64>>,
    k: usize,
    rng: &mut ChaCha8Rng,
) -> (r: KMeansOutcome)
    requires
        all_valid(points(data)),
        uniform_dimension(points(data)),
    ensures
        data@.len() == 0 || k == 0 || k > data@.len() ==> r.centroids@.len() == 0 && r.iterations
            == 0 && !r.converged,
        0 < k <= data@.len() ==> exists|init: Seq<Seq<i64>>|
            is_seeding(points(data), k as nat, init) && (
                points(&r.centroids),
                r.iterations as nat,
                r.converged,
            ) == #[trigger] lloyd_run(points(data), init, max_iters as nat),
        0 < k <= data@.len() ==> well_shaped(points(&r.centroids), k as nat, points(data)[0].len()),
        r.iterations <= max_iters,
        0 < k <= data@.len() && !r.converged ==> r.iterations == max_iters,
        r.converged ==> within_tolerance(
            points(&r.centroids),
            lloyd_step(points(data), points(&r.centroids)),
        ),
{
    let ghost pts = points(data);
    if data.len() == 0 || k == 0 || k > data.len() {
        return KMeansOutcome { centroids: Vec::new(), iterations: 0, converged: false };
    }
    let seeded = kmeans_plus_plus(data, k, rng);
    let ghost init = points(&seeded);
    proof {
        assert forall|c: int| 0 <= c < init.len() implies #[trigger] init[c].len() == pts[0].len()
            && valid_point(init[c]) by {
            assert(is_one_of(init[c], pts));
            let i = choose|i: int| 0 <= i < pts.len() && pts[i] == init[c];
            assert(valid_point(pts[i]));
        }
        assert(seeded@[0]@ == init[0]);
        assert(all_of_dimension(pts, init[0].len()));
    }
    let r = lloyd_iterations(data, seeded, max_iters);
    proof {
        lemma_run_rounds(pts, init, max_iters as nat);
        if r.converged {
            lemma_converged_is_fixed_point(pts, init, max_iters as nat);
        }
    }
    r
}

} // verus!
