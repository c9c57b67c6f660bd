use rand_chacha::ChaCha8Rng;
use vstd::prelude::*;
use vstd::slice::slice_to_vec;

use crate::distance::{
    floor_sqrt, lemma_floor_sqrt_exists, floor_sqrt_of, is_floor_sqrt, lemma_floor_sqrt_of_is,
    lemma_sq_dist_upto_nonneg, lemma_sq_dist_upto_self, lemma_sq_dist_zero_equal, sq_dist,
    squared_distance, valid_point, COORD_LIMIT, MAX_DIMENSION,
};
use crate::kmeans::{all_valid, points, same_dimension, uniform_dimension};
use crate::random::draw_below;

verus! {

/// Least squared distance from `p` to one of the first `n` centroids.
pub open spec fn min_sq_upto(p: Seq<i64>, cs: Seq<Seq<i64>>, n: nat) -> int
    decreases n,
{
    if n <= 1 {
        sq_dist(p, cs[0])
    } else {
        let m = min_sq_upto(p, cs, (n - 1) as nat);
        let d = sq_dist(p, cs[n - 1]);
        if d < m {
            d
        } else {
            m
        }
    }
}

/// Least squared distance from `p` to a centroid.
pub open spec fn min_sq(p: Seq<i64>, cs: Seq<Seq<i64>>) -> int {
    min_sq_upto(p, cs, cs.len())
}

/// The weight of `p` in the next draw: its distance to the nearest chosen centroid,
/// rounded down to a whole unit.
pub open spec fn seeding_weight(p: Seq<i64>, cs: Seq<Seq<i64>>) -> int {
    floor_sqrt_of(min_sq(p, cs))
}

/// Sum of the first `n` weights.
pub open spec fn weight_prefix(w: Seq<u64>, n: nat) -> int
    decreases n,
{
    if n == 0 {
        0
    } else {
        weight_prefix(w, (n - 1) as nat) + w[n - 1]
    }
}

/// `p` is one of the points of `pts`.
pub open spec fn is_one_of(p: Seq<i64>, pts: Seq<Seq<i64>>) -> bool {
    exists|i: int| 0 <= i < pts.len() && pts[i] == p
}

/// Centroid `c` differs from every centroid chosen before it, or every point already
/// coincides with one of those, so that no new position was left to choose.
pub open spec fn fresh_or_degenerate(pts: Seq<Seq<i64>>, cs: Seq<Seq<i64>>, c: int) -> bool {
    (forall|d: int| 0 <= d < c ==> #[trigger] cs[d] != cs[c]) || (forall|i: int|
        0 <= i < pts.len() ==> is_one_of(#[trigger] pts[i], cs.take(c)))
}

/// `cs` is a possible outcome of seeding `k` centroids from `pts`: `k` of them, each a copy
/// of a point, each new unless no new position was left.
pub open spec fn is_seeding(pts: Seq<Seq<i64>>, k: nat, cs: Seq<Seq<i64>>) -> bool {
    &&& cs.len() == k
    &&& forall|c: int| 0 <= c < k ==> is_one_of(#[trigger] cs[c], pts)
    &&& forall|c: int| 0 <= c < k ==> #[trigger] fresh_or_degenerate(pts, cs, c)
}

/// The least squared distance is reached by one of the centroids and exceeds none.
proof fn lemma_min_sq_upto(p: Seq<i64>, cs: Seq<Seq<i64>>, n: nat)
    requires
        1 <= n <= cs.len(),
    ensures
        forall|c: int| 0 <= c < n ==> min_sq_upto(p, cs, n) <= sq_dist(p, #[trigger] cs[c]),
        exists|c: int| 0 <= c < n && min_sq_upto(p, cs, n) == sq_dist(p, #[trigger] cs[c]),
    decreases n,
{
    if n > 1 {
        lemma_min_sq_upto(p, cs, (n - 1) as nat);
        if sq_dist(p, cs[n - 1]) < min_sq_upto(p, cs, (n - 1) as nat) {
            assert(min_sq_upto(p, cs, n) == sq_dist(p, cs[n - 1]));
        } else {
            let c = choose|c: int|
                0 <= c < n - 1 && min_sq_upto(p, cs, (n - 1) as nat) == sq_dist(p, #[trigger] cs[c]);
            assert(min_sq_upto(p, cs, n) == sq_dist(p, cs[c]));
        }
    } else {
        assert(min_sq_upto(p, cs, n) == sq_dist(p, cs[0]));
    }
}

/// A running sum of `n` weights fits in `n` times the largest weight.
proof fn lemma_weight_prefix_bounds(w: Seq<u64>, n: nat)
    requires
        n <= w.len(),
    ensures
        0 <= weight_prefix(w, n) <= n * 0xFFFF_FFFF_FFFF_FFFF,
    decreases n,
{
    if n > 0 {
        lemma_weight_prefix_bounds(w, (n - 1) as nat);
        assert((n - 1) * 0xFFFF_FFFF_FFFF_FFFF + 0xFFFF_FFFF_FFFF_FFFF == n * 0xFFFF_FFFF_FFFF_FFFF)
            by (nonlinear_arith);
    }
}

/// Running sums of weights never decrease.
proof fn lemma_weight_prefix_monotone(w: Seq<u64>, m: nat, n: nat)
    requires
        m <= n <= w.len(),
    ensures
        weight_prefix(w, m) <= weight_prefix(w, n),
    decreases n - m,
{
    if m < n {
        lemma_weight_prefix_monotone(w, m, (n - 1) as nat);
    }
}

/// A running sum of zero means every weight in it is zero.
proof fn lemma_weight_prefix_zero(w: Seq<u64>, n: nat)
    requires
        n <= w.len(),
        weight_prefix(w, n) == 0,
    ensures
        forall|i: int| 0 <= i < n ==> #[trigger] w[i] == 0,
    decreases n,
{
    if n > 0 {
        lemma_weight_prefix_bounds(w, (n - 1) as nat);
        lemma_weight_prefix_zero(w, (n - 1) as nat);
    }
}

/// The weight of every point: its distance to the nearest chosen centroid, rounded down.
pub fn seeding_weights(data: &Vec<Vec<i64>>, centroids: &Vec<Vec<i64>>) -> (r: Vec<u64>)
    requires
        centroids@.len() > 0,
        all_valid(points(data)),
        all_valid(points(centroids)),
        same_dimension(points(data), points(centroids)),
    ensures
        r@.len() == data@.len(),
        forall|i: int| 0 <= i < r@.len() ==> #[trigger] r@[i] == seeding_weight(points(data)[i], points(centroids)),
{
    let ghost pts = points(data);
    let ghost cs = points(centroids);
    let mut r: Vec<u64> = Vec::new();
    let mut i: usize = 0;
    while i < data.len()
        invariant
            i <= pts.len(),
            cs.len() > 0,
            pts == points(data),
            cs == points(centroids),
            all_valid(pts),
            all_valid(cs),
            same_dimension(pts, cs),
            r@.len() == i,
            forall|t: int| 0 <= t < i ==> #[trigger] r@[t] == seeding_weight(pts[t], cs),
        decreases pts.len() - i,
    {
        let p = data[i].as_slice();
        assert(valid_point(pts[i as int]));
        assert(valid_point(cs[0]));
        assert(pts[i as int].len() == cs[0].len());
        let mut best: u128 = squared_distance(p, centroids[0].as_slice());
        let mut c: usize = 1;
        while c < centroids.len()
            invariant
                1 <= c <= cs.len(),
                i < pts.len(),
                pts == points(data),
                cs == points(centroids),
                p@ == pts[i as int],
                valid_point(p@),
                all_valid(cs),
                same_dimension(pts, cs),
                best == min_sq_upto(p@, cs, c as nat),
                best <= p@.len() * (4 * COORD_LIMIT * COORD_LIMIT),
            decreases cs.len() - c,
        {
            assert(valid_point(cs[c as int]));
            assert(pts[i as int].len() == cs[c as int].len());
            let d = squared_distance(p, centroids[c].as_slice());
            if d < best {
                best = d;
            }
            c = c + 1;
        }
        assert(p@.len() * (4 * COORD_LIMIT * COORD_LIMIT) <= MAX_DIMENSION * (4 * COORD_LIMIT
            * COORD_LIMIT)) by (nonlinear_arith)
            requires
                p@.len() <= MAX_DIMENSION,
        ;
        let w = floor_sqrt(best);
        proof {
            lemma_floor_sqrt_of_is(best as int, w as int);
        }
        r.push(w);
        i = i + 1;
    }
    r
}

/// Sum of all weights.
pub fn total_weight(weights: &Vec<u64>) -> (r: u128)
    ensures
        r == weight_prefix(weights@, weights@.len()),
{
    let mut acc: u128 = 0;
    let mut i: usize = 0;
    while i < weights.len()
        invariant
            i <= weights@.len(),
            acc == weight_prefix(weights@, i as nat),
        decreases weights@.len() - i,
    {
        proof {
            lemma_weight_prefix_bounds(weights@, (i + 1) as nat);
            assert((i + 1) * 0xFFFF_FFFF_FFFF_FFFF <= 0x1_0000_0000_0000_0000 * 0xFFFF_FFFF_FFFF_FFFF)
                by (nonlinear_arith)
                requires
                    i + 1 <= 0x1_0000_0000_0000_0000,
            ;
        }
        acc = acc + weights[i] as u128;
        i = i + 1;
    }
    acc
}

/// The first index whose running sum of weights exceeds `draw`, or `None` when the whole
/// sum does not exceed it.
///
/// With `draw` uniform below the total, index `i` comes with probability
/// `weights[i] / total`, and an index of weight zero never does.
pub fn select_by_weight(weights: &Vec<u64>, draw: u128) -> (r: Option<usize>)
    ensures
        r matches Some(i) ==> i < weights@.len() && weight_prefix(weights@, i as nat) <= draw
            < weight_prefix(weights@, (i + 1) as nat),
        r is None <==> weight_prefix(weights@, weights@.len()) <= draw,
{
    let mut acc: u128 = 0;
    let mut i: usize = 0;
    while i < weights.len()
        invariant
            i <= weights@.len(),
            acc == weight_prefix(weights@, i as nat),
            acc <= draw,
        decreases weights@.len() - i,
    {
        proof {
            lemma_weight_prefix_bounds(weights@, (i + 1) as nat);
            assert((i + 1) * 0xFFFF_FFFF_FFFF_FFFF <= 0x1_0000_0000_0000_0000 * 0xFFFF_FFFF_FFFF_FFFF)
                by (nonlinear_arith)
                requires
                    i + 1 <= 0x1_0000_0000_0000_0000,
            ;
        }
        let next = acc + weights[i] as u128;
        if next > draw {
            proof {
                lemma_weight_prefix_monotone(weights@, (i + 1) as nat, weights@.len());
            }
            return Some(i);
        }
        acc = next;
        i = i + 1;
    }
    None
}

/// A point of positive weight differs from every chosen centroid.
proof fn lemma_positive_weight_is_new(p: Seq<i64>, cs: Seq<Seq<i64>>)
    requires
        cs.len() > 0,
        seeding_weight(p, cs) > 0,
        forall|c: int| 0 <= c < cs.len() ==> #[trigger] cs[c].len() == p.len(),
    ensures
        forall|c: int| 0 <= c < cs.len() ==> #[trigger] cs[c] != p,
{
    lemma_min_sq_upto(p, cs, cs.len());
    let c0 = choose|c: int| 0 <= c < cs.len() && min_sq(p, cs) == sq_dist(p, #[trigger] cs[c]);
    lemma_sq_dist_upto_nonneg(p, cs[c0], p.len());
    assert forall|c: int| 0 <= c < cs.len() implies #[trigger] cs[c] != p by {
        if cs[c] == p {
            lemma_sq_dist_upto_self(p, p.len());
            assert(min_sq(p, cs) == 0);
            assert(is_floor_sqrt(0, 0));
            lemma_floor_sqrt_of_is(0, 0);
        }
    }
}

/// A point of zero weight coincides with one of the chosen centroids.
proof fn lemma_zero_weight_is_covered(p: Seq<i64>, cs: Seq<Seq<i64>>)
    requires
        cs.len() > 0,
        seeding_weight(p, cs) == 0,
        forall|c: int| 0 <= c < cs.len() ==> #[trigger] cs[c].len() == p.len(),
    ensures
        is_one_of(p, cs),
{
    lemma_min_sq_upto(p, cs, cs.len());
    let c0 = choose|c: int| 0 <= c < cs.len() && min_sq(p, cs) == sq_dist(p, #[trigger] cs[c]);
    lemma_sq_dist_upto_nonneg(p, cs[c0], p.len());
    lemma_floor_sqrt_exists(min_sq(p, cs));
    assert(is_floor_sqrt(floor_sqrt_of(min_sq(p, cs)), min_sq(p, cs)));
    assert(min_sq(p, cs) == 0);
    lemma_sq_dist_zero_equal(p, cs[c0]);
    assert(cs[c0] == p);
}

/// Appending a centroid leaves what holds of the earlier ones unchanged.
proof fn lemma_push_keeps(pts: Seq<Seq<i64>>, cs: Seq<Seq<i64>>, q: Seq<i64>, c: int)
    requires
        0 <= c < cs.len(),
        fresh_or_degenerate(pts, cs, c),
    ensures
        fresh_or_degenerate(pts, cs.push(q), c),
{
    let ns = cs.push(q);
    assert(ns.take(c) =~= cs.take(c));
    assert forall|d: int| 0 <= d <= c implies #[trigger] ns[d] == cs[d] by {}
}

/// Once every point coincides with a chosen centroid, whatever comes next is degenerate.
proof fn lemma_degenerate_push(pts: Seq<Seq<i64>>, cs: Seq<Seq<i64>>, q: Seq<i64>)
    requires
        forall|i: int| 0 <= i < pts.len() ==> is_one_of(#[trigger] pts[i], cs),
    ensures
        fresh_or_degenerate(pts, cs.push(q), cs.len() as int),
{
    assert(cs.push(q).take(cs.len() as int) =~= cs);
}

/// Chooses `k` initial centroids from the points by K-Means++.
///
/// The first is a point drawn uniformly. Each next one is drawn with probability
/// proportional to its distance (rounded down) to the nearest centroid chosen so far; when
/// every point coincides with a chosen centroid, a point is drawn uniformly instead.
/// With no point, `k == 0` or `k` above the number of points, the result is empty.
pub fn kmeans_plus_plus(data: &Vec<Vec<i64>>, k: usize, rng: &mut ChaCha8Rng) -> (r: Vec<Vec<i64>>)
    requires
        all_valid(points(data)),
        uniform_dimension(points(data)),
    ensures
        data@.len() == 0 || k == 0 || k > data@.len() ==> r@.len() == 0,
        0 < k <= data@.len() ==> is_seeding(points(data), k as nat, points(&r)),
{
    let ghost pts = points(data);
    let mut cs: Vec<Vec<i64>> = Vec::new();
    if data.len() == 0 || k == 0 || k > data.len() {
        return cs;
    }
    let first = draw_below(rng, data.len() as u128) as usize;
    cs.push(slice_to_vec(data[first].as_slice()));
    proof {
        let ccs = points(&cs);
        assert(ccs[0] == pts[first as int]);
        assert(is_one_of(ccs[0], pts));
        assert(fresh_or_degenerate(pts, ccs, 0));
    }
    while cs.len() < k
        invariant
            1 <= cs@.len() <= k,
            k <= pts.len(),
            pts == points(data),
            all_valid(pts),
            uniform_dimension(pts),
            forall|c: int| 0 <= c < cs@.len() ==> is_one_of(#[trigger] points(&cs)[c], pts),
            forall|c: int| 0 <= c < cs@.len() ==> #[trigger] fresh_or_degenerate(pts, points(&cs), c),
        decreases k - cs@.len(),
    {
        let ghost ccs = points(&cs);
        proof {
            assert forall|c: int| 0 <= c < ccs.len() implies #[trigger] ccs[c].len() == pts[0].len() && valid_point(ccs[c]) by {
                assert(is_one_of(ccs[c], pts));
                let i = choose|i: int| 0 <= i < pts.len() && pts[i] == ccs[c];
                assert(valid_point(pts[i]));
            }
            assert(all_valid(ccs));
            assert(same_dimension(pts, ccs));
        }
        let w = seeding_weights(data, &cs);
        let total = total_weight(&w);
        let idx: usize = if total == 0 {
            proof {
                lemma_weight_prefix_zero(w@, w@.len());
                assert forall|i: int| 0 <= i < pts.len() implies is_one_of(#[trigger] pts[i], ccs) by {
                    assert(w@[i] == 0);
                    lemma_zero_weight_is_covered(pts[i], ccs);
                }
            }
            draw_below(rng, data.len() as u128) as usize
        } else {
            let d = draw_below(rng, total);
            let pick = select_by_weight(&w, d);
            let i = pick.unwrap();
            proof {
                assert(w@[i as int] > 0);
                lemma_positive_weight_is_new(pts[i as int], ccs);
            }
            i
        };
        let ghost q = pts[idx as int];
        cs.push(slice_to_vec(data[idx].as_slice()));
        proof {
            let ns = points(&cs);
            assert(ns =~= ccs.push(q));
            assert forall|c: int| 0 <= c < ns.len() implies #[trigger] fresh_or_degenerate(pts, ns, c) by {
                if c < ccs.len() {
                    lemma_push_keeps(pts, ccs, q, c);
                } else if total == 0 {
                    lemma_degenerate_push(pts, ccs, q);
                } else {
                    assert forall|d: int| 0 <= d < c implies #[trigger] ns[d] != ns[c] by {
                        assert(ccs[d] != q);
                    }
                }
            }
            assert forall|c: int| 0 <= c < ns.len() implies is_one_of(#[trigger] ns[c], pts) by {
                if c < ccs.len() {
                    assert(ns[c] == ccs[c]);
                } else {
                    assert(ns[c] == pts[idx as int]);
                }
            }
        }
    }
    cs
}

} // verus!
