use vstd::prelude::*;

verus! {

/// Number of coordinate units in one whole unit (six decimal places).
pub const UNITS_PER_ONE: i64 = 1000000;

/// Largest magnitude a coordinate may have.
pub const COORD_LIMIT: i64 = 1000000000000;

/// Largest number of coordinates a point may have.
pub const MAX_DIMENSION: usize = 1048576;

/// Every coordinate of `p` lies in `[-COORD_LIMIT, COORD_LIMIT]`.
pub open spec fn coords_bounded(p: Seq<i64>) -> bool {
    forall|j: int| 0 <= j < p.len() ==> -COORD_LIMIT <= #[trigger] p[j] <= COORD_LIMIT
}

/// A point that the distance computations accept: bounded length and coordinates.
pub open spec fn valid_point(p: Seq<i64>) -> bool {
    p.len() <= MAX_DIMENSION && coords_bounded(p)
}

/// Sum of the squared coordinate differences over the first `n` coordinates.
pub open spec fn sq_dist_upto(a: Seq<i64>, b: Seq<i64>, n: nat) -> int
    decreases n,
{
    if n == 0 {
        0
    } else {
        let d = a[n - 1] - b[n - 1];
        sq_dist_upto(a, b, (n - 1) as nat) + d * d
    }
}

/// Squared Euclidean distance between two points of equal length.
pub open spec fn sq_dist(a: Seq<i64>, b: Seq<i64>) -> int {
    sq_dist_upto(a, b, a.len())
}

/// `r` is the integer square root of `n`, rounded down.
pub open spec fn is_floor_sqrt(r: int, n: int) -> bool {
    0 <= r && r * r <= n && n < (r + 1) * (r + 1)
}

/// The square root of `n`, rounded down.
pub open spec fn floor_sqrt_of(n: int) -> int {
    choose|r: int| #[trigger] is_floor_sqrt(r, n)
}

/// The Euclidean distance rounded down to a whole coordinate unit.
pub open spec fn distance(a: Seq<i64>, b: Seq<i64>) -> int {
    floor_sqrt_of(sq_dist(a, b))
}

/// The two lengths differ: the points do not live in the same space.
#[derive(Debug, Clone, Copy, PartialEq, Eq, Structural)]
pub enum DimensionMismatch {
    Lengths { left: usize, right: usize },
}

/// Every term of the sum is a square, so prefixes grow and stay below the bound.
pub proof fn lemma_sq_dist_upto_bounds(a: Seq<i64>, b: Seq<i64>, n: nat)
    requires
        n <= a.len(),
        n <= b.len(),
        coords_bounded(a),
        coords_bounded(b),
    ensures
        0 <= sq_dist_upto(a, b, n) <= n * (4 * COORD_LIMIT * COORD_LIMIT),
    decreases n,
{
    if n > 0 {
        lemma_sq_dist_upto_bounds(a, b, (n - 1) as nat);
        let d = a[n - 1] - b[n - 1];
        let lim = 2 * COORD_LIMIT;
        assert(-lim <= d <= lim);
        assert(0 <= d * d <= lim * lim) by (nonlinear_arith)
            requires
                -lim <= d <= lim,
        ;
        assert((n - 1) * (4 * COORD_LIMIT * COORD_LIMIT) + 4 * COORD_LIMIT * COORD_LIMIT == n * (4
            * COORD_LIMIT * COORD_LIMIT)) by (nonlinear_arith);
    }
}

/// The sum of squares is the same in either order of the arguments.
pub proof fn lemma_sq_dist_upto_symmetric(a: Seq<i64>, b: Seq<i64>, n: nat)
    ensures
        sq_dist_upto(a, b, n) == sq_dist_upto(b, a, n),
    decreases n,
{
    if n > 0 {
        lemma_sq_dist_upto_symmetric(a, b, (n - 1) as nat);
        let d = a[n - 1] - b[n - 1];
        assert(d * d == (-d) * (-d)) by (nonlinear_arith);
    }
}

/// A point is at squared distance zero from itself.
pub proof fn lemma_sq_dist_upto_self(a: Seq<i64>, n: nat)
    ensures
        sq_dist_upto(a, a, n) == 0,
    decreases n,
{
    if n > 0 {
        lemma_sq_dist_upto_self(a, (n - 1) as nat);
    }
}

/// A zero sum of squares means the prefixes agree coordinate by coordinate.
pub proof fn lemma_sq_dist_upto_zero(a: Seq<i64>, b: Seq<i64>, n: nat)
    requires
        n <= a.len(),
        n <= b.len(),
        sq_dist_upto(a, b, n) == 0,
    ensures
        forall|j: int| 0 <= j < n ==> a[j] == b[j],
    decreases n,
{
    if n > 0 {
        let d = a[n - 1] - b[n - 1];
        lemma_sq_dist_upto_nonneg(a, b, (n - 1) as nat);
        assert(d * d >= 0) by (nonlinear_arith);
        assert(d == 0) by (nonlinear_arith)
            requires
                d * d == 0,
        ;
        lemma_sq_dist_upto_zero(a, b, (n - 1) as nat);
    }
}

/// A sum of squares is never negative.
pub proof fn lemma_sq_dist_upto_nonneg(a: Seq<i64>, b: Seq<i64>, n: nat)
    ensures
        sq_dist_upto(a, b, n) >= 0,
    decreases n,
{
    if n > 0 {
        lemma_sq_dist_upto_nonneg(a, b, (n - 1) as nat);
        let d = a[n - 1] - b[n - 1];
        assert(d * d >= 0) by (nonlinear_arith);
    }
}

/// Two points of equal length at squared distance zero are the same point.
pub proof fn lemma_sq_dist_zero_equal(a: Seq<i64>, b: Seq<i64>)
    requires
        a.len() == b.len(),
        sq_dist(a, b) == 0,
    ensures
        a == b,
{
    lemma_sq_dist_upto_zero(a, b, a.len());
    assert(a =~= b);
}

/// At most one integer is the rounded-down square root of a number.
pub proof fn lemma_floor_sqrt_unique(r1: int, r2: int, n: int)
    requires
        is_floor_sqrt(r1, n),
        is_floor_sqrt(r2, n),
    ensures
        r1 == r2,
{
    if r1 < r2 {
        assert((r1 + 1) * (r1 + 1) <= r2 * r2) by (nonlinear_arith)
            requires
                0 <= r1 + 1 <= r2,
        ;
    } else if r2 < r1 {
        assert((r2 + 1) * (r2 + 1) <= r1 * r1) by (nonlinear_arith)
            requires
                0 <= r2 + 1 <= r1,
        ;
    }
}

/// Once some `r` is the rounded-down root of `n`, `floor_sqrt_of(n)` is `r`.
pub proof fn lemma_floor_sqrt_of_is(n: int, r: int)
    requires
        is_floor_sqrt(r, n),
    ensures
        floor_sqrt_of(n) == r,
{
    let c = floor_sqrt_of(n);
    assert(is_floor_sqrt(c, n));
    lemma_floor_sqrt_unique(c, r, n);
}

/// The distance is symmetric, never negative, and zero from a point to itself.
pub proof fn lemma_distance_laws(a: Seq<i64>, b: Seq<i64>)
    requires
        a.len() == b.len(),
    ensures
        distance(a, b) == distance(b, a),
        distance(a, b) >= 0,
        distance(a, a) == 0,
{
    lemma_sq_dist_upto_symmetric(a, b, a.len());
    lemma_sq_dist_upto_self(a, a.len());
    lemma_sq_dist_upto_nonneg(a, b, a.len());
    assert(is_floor_sqrt(0, sq_dist(a, a)));
    lemma_floor_sqrt_of_is(sq_dist(a, a), 0);
    lemma_floor_sqrt_exists(sq_dist(a, b));
    assert(is_floor_sqrt(distance(a, b), sq_dist(a, b)));
}

/// Every number that is not negative has a rounded-down square root.
pub proof fn lemma_floor_sqrt_exists(n: int)
    requires
        n >= 0,
    ensures
        exists|r: int| #[trigger] is_floor_sqrt(r, n),
    decreases n,
{
    if n == 0 {
        assert(is_floor_sqrt(0, 0));
    } else {
        lemma_floor_sqrt_exists(n - 1);
        let r = choose|r: int| #[trigger] is_floor_sqrt(r, n - 1);
        if n < (r + 1) * (r + 1) {
            assert(is_floor_sqrt(r, n));
        } else {
            assert((r + 1) * (r + 1) == n);
            assert(n < (r + 2) * (r + 2)) by (nonlinear_arith)
                requires
                    (r + 1) * (r + 1) == n,
                    r >= 0,
            ;
            assert(is_floor_sqrt(r + 1, n));
        }
    }
}

/// The squared distance of two valid points fits the integer square root.
pub proof fn lemma_sq_dist_fits(a: Seq<i64>, b: Seq<i64>)
    requires
        valid_point(a),
        valid_point(b),
        a.len() == b.len(),
    ensures
        0 <= sq_dist(a, b) < 0x1_0000_0000_0000_0000_0000_0000_0000,
{
    lemma_sq_dist_upto_bounds(a, b, a.len());
    assert(a.len() * (4 * COORD_LIMIT * COORD_LIMIT) <= MAX_DIMENSION * (4 * COORD_LIMIT
        * COORD_LIMIT)) by (nonlinear_arith)
        requires
            a.len() <= MAX_DIMENSION,
    ;
}

/// Integer square root, rounded down, by bisection.
pub fn floor_sqrt(n: u128) -> (r: u64)
    requires
        n < 0x1_0000_0000_0000_0000_0000_0000_0000,
    ensures
        is_floor_sqrt(r as int, n as int),
{
    let mut lo: u128 = 0;
    let mut hi: u128 = 0x100_0000_0000_0000;
    assert(hi * hi == 0x1_0000_0000_0000_0000_0000_0000_0000);
    while hi - lo > 1
        invariant
            lo < hi <= 0x100_0000_0000_0000,
            lo * lo <= n,
            n < hi * hi,
        decreases hi - lo,
    {
        let mid: u128 = lo + (hi - lo) / 2;
        assert(mid * mid <= 0x1_0000_0000_0000_0000_0000_0000_0000) by (nonlinear_arith)
            requires
                mid <= 0x100_0000_0000_0000,
        ;
        if mid * mid <= n {
            lo = mid;
        } else {
            hi = mid;
        }
    }
    assert(hi == lo + 1);
    lo as u64
}

/// Squared Euclidean distance of two points of the same length.
pub fn squared_distance(a: &[i64], b: &[i64]) -> (r: u128)
    requires
        a@.len() == b@.len(),
        valid_point(a@),
        valid_point(b@),
    ensures
        r == sq_dist(a@, b@),
        r <= a@.len() * (4 * COORD_LIMIT * COORD_LIMIT),
{
    let mut acc: u128 = 0;
    let mut j: usize = 0;
    while j < a.len()
        invariant
            j <= a@.len(),
            a@.len() == b@.len(),
            valid_point(a@),
            valid_point(b@),
            acc == sq_dist_upto(a@, b@, j as nat),
        decreases a@.len() - j,
    {
        proof {
            lemma_sq_dist_upto_bounds(a@, b@, (j + 1) as nat);
            assert((j + 1) * (4 * COORD_LIMIT * COORD_LIMIT) <= MAX_DIMENSION * (4 * COORD_LIMIT
                * COORD_LIMIT)) by (nonlinear_arith)
                requires
                    j + 1 <= MAX_DIMENSION,
            ;
        }
        assert(-COORD_LIMIT <= a@[j as int] <= COORD_LIMIT);
        assert(-COORD_LIMIT <= b@[j as int] <= COORD_LIMIT);
        let d: i64 = a[j] - b[j];
        let lim: i128 = 2 * COORD_LIMIT as i128;
        assert(0 <= (d as i128) * (d as i128) <= lim * lim) by (nonlinear_arith)
            requires
                -lim <= d <= lim,
        ;
        let dd: i128 = (d as i128) * (d as i128);
        assert(acc + dd == sq_dist_upto(a@, b@, (j + 1) as nat));
        acc = acc + dd as u128;
        j = j + 1;
    }
    proof {
        lemma_sq_dist_upto_bounds(a@, b@, a@.len());
    }
    acc
}

/// Euclidean distance between two points, rounded down to a whole unit.
///
/// Points of different lengths are refused with `DimensionMismatch`.
pub fn euclidean_distance(a: &[i64], b: &[i64]) -> (r: Result<u64, DimensionMismatch>)
    requires
        valid_point(a@),
        valid_point(b@),
    ensures
        a@.len() != b@.len() <==> r is Err,
        r matches Err(e) ==> e == (DimensionMismatch::Lengths {
            left: a@.len() as usize,
            right: b@.len() as usize,
        }),
        r matches Ok(d) ==> d == distance(a@, b@) && is_floor_sqrt(d as int, sq_dist(a@, b@)),
{
    if a.len() != b.len() {
        return Err(DimensionMismatch::Lengths { left: a.len(), right: b.len() });
    }
    let sq = squared_distance(a, b);
    proof {
        lemma_sq_dist_fits(a@, b@);
    }
    let d = floor_sqrt(sq);
    proof {
        lemma_floor_sqrt_of_is(sq_dist(a@, b@), d as int);
    }
    Ok(d)
}

} // verus!
