use vstd::prelude::*;

use crate::error::SilhouetteError;

verus! {

/// Largest number of coordinates a point may have. With 32-bit coordinates
/// this keeps every distance below `MAX_DIST`, and every sum of distances
/// over a dataset inside 128-bit arithmetic.
pub const MAX_DIM: usize = 1024;

/// A bound on every distance between points of at most `MAX_DIM` coordinates.
pub const MAX_DIST: u64 = 0x400_0000_0000;

/// The distance used to compare points.
#[derive(Clone, Copy, Debug, PartialEq, Eq, Structural)]
pub enum Metric {
    /// Square root of the sum of squared coordinate differences, rounded down.
    Euclidean,
    /// Sum of absolute coordinate differences.
    Manhattan,
}

/// A point's coordinates as mathematical integers.
pub open spec fn ints(p: Seq<i32>) -> Seq<int> {
    p.map_values(|x: i32| x as int)
}

/// Sum of the squared differences over the first `k` coordinates.
pub open spec fn sq_sum(p: Seq<int>, q: Seq<int>, k: int) -> int
    decreases k,
{
    if k <= 0 {
        0
    } else {
        sq_sum(p, q, k - 1) + (p[k - 1] - q[k - 1]) * (p[k - 1] - q[k - 1])
    }
}

pub open spec fn abs_diff(x: int, y: int) -> int {
    if x >= y {
        x - y
    } else {
        y - x
    }
}

/// Sum of the absolute differences over the first `k` coordinates.
pub open spec fn abs_sum(p: Seq<int>, q: Seq<int>, k: int) -> int
    decreases k,
{
    if k <= 0 {
        0
    } else {
        abs_sum(p, q, k - 1) + abs_diff(p[k - 1], q[k - 1])
    }
}

pub open spec fn is_floor_sqrt(x: int, r: int) -> bool {
    0 <= r && r * r <= x && x < (r + 1) * (r + 1)
}

/// The largest integer whose square does not exceed `x`.
pub open spec fn floor_sqrt(x: int) -> int {
    choose|r: int| is_floor_sqrt(x, r)
}

/// The distance between two points of equal length under `m`.
pub open spec fn dist(m: Metric, p: Seq<int>, q: Seq<int>) -> int {
    match m {
        Metric::Euclidean => floor_sqrt(sq_sum(p, q, p.len() as int)),
        Metric::Manhattan => abs_sum(p, q, p.len() as int),
    }
}

pub proof fn lemma_floor_sqrt_is(x: int, r: int)
    requires
        is_floor_sqrt(x, r),
    ensures
        floor_sqrt(x) == r,
{
    let s = floor_sqrt(x);
    assert(is_floor_sqrt(x, s));
    if s < r {
        assert((s + 1) * (s + 1) <= r * r) by (nonlinear_arith)
            requires
                0 <= s,
                s + 1 <= r,
        ;
    } else if r < s {
        assert((r + 1) * (r + 1) <= s * s) by (nonlinear_arith)
            requires
                0 <= r,
                r + 1 <= s,
        ;
    }
}

proof fn lemma_sums_symmetric(p: Seq<int>, q: Seq<int>, k: int)
    ensures
        sq_sum(p, q, k) == sq_sum(q, p, k),
        abs_sum(p, q, k) == abs_sum(q, p, k),
        sq_sum(p, p, k) == 0,
        abs_sum(p, p, k) == 0,
    decreases k,
{
    if k > 0 {
        lemma_sums_symmetric(p, q, k - 1);
        let d = p[k - 1] - q[k - 1];
        assert(d * d == (-d) * (-d)) by (nonlinear_arith);
    }
}

/// Every metric is symmetric and puts each point at distance zero from itself.
pub proof fn lemma_metric_laws(m: Metric, p: Seq<int>, q: Seq<int>)
    requires
        p.len() == q.len(),
    ensures
        dist(m, p, q) == dist(m, q, p),
        dist(m, p, p) == 0,
{
    lemma_sums_symmetric(p, q, p.len() as int);
    lemma_floor_sqrt_is(0, 0);
}

/// Integer square root, rounded down, by bisection.
fn isqrt(x: u128) -> (r: u64)
    requires
        x < 0x1_0000_0000_0000_0000_0000,
    ensures
        is_floor_sqrt(x as int, r as int),
        r < 0x100_0000_0000,
{
    let mut lo: u64 = 0;
    let mut hi: u64 = 0x100_0000_0000;
    while hi - lo > 1
        invariant
            lo < hi <= 0x100_0000_0000,
            lo * lo <= x,
            x < hi * hi,
        decreases hi - lo,
    {
        let mid: u64 = lo + (hi - lo) / 2;
        assert(mid * mid <= 0x100_0000_0000 * 0x100_0000_0000) by (nonlinear_arith)
            requires
                mid <= 0x100_0000_0000,
        ;
        let sq: u128 = (mid as u128) * (mid as u128);
        if sq <= x {
            lo = mid;
        } else {
            hi = mid;
        }
    }
    lo
}

/// Distance between `p` and `q` under `metric`; points of different lengths
/// cannot be compared.
pub fn distance(metric: Metric, p: &Vec<i32>, q: &Vec<i32>) -> (r: Result<u64, SilhouetteError>)
    requires
        p@.len() <= MAX_DIM,
    ensures
        p@.len() != q@.len() ==> r == Err::<u64, SilhouetteError>(SilhouetteError::DimensionMismatch),
        p@.len() == q@.len() ==> (r matches Ok(d) && d == dist(metric, ints(p@), ints(q@))),
        r matches Ok(d) ==> d <= MAX_DIST,
{
    if p.len() != q.len() {
        return Err(SilhouetteError::DimensionMismatch);
    }
    let n = p.len();
    let ghost pi = ints(p@);
    let ghost qi = ints(q@);
    let mut k: usize = 0;
    match metric {
        Metric::Euclidean => {
            let mut acc: u128 = 0;
            while k < n
                invariant
                    k <= n,
                    n == p@.len(),
                    n == q@.len(),
                    n <= MAX_DIM,
                    pi == ints(p@),
                    qi == ints(q@),
                    acc == sq_sum(pi, qi, k as int),
                    acc <= k * 0x1_0000_0000_0000_0000,
                decreases n - k,
            {
                let diff: i64 = p[k] as i64 - q[k] as i64;
                let mag: u64 = if diff >= 0 {
                    diff as u64
                } else {
                    (-diff) as u64
                };
                assert(mag * mag == diff * diff) by (nonlinear_arith)
                    requires
                        mag == diff || mag == -diff,
                ;
                assert(mag * mag <= 0x1_0000_0000_0000_0000) by (nonlinear_arith)
                    requires
                        mag <= 0x1_0000_0000,
                ;
                let sq: u128 = (mag as u128) * (mag as u128);
                assert(pi[k as int] == p@[k as int] as int);
                assert(qi[k as int] == q@[k as int] as int);
                assert(k * 0x1_0000_0000_0000_0000 + 0x1_0000_0000_0000_0000 == (k + 1)
                    * 0x1_0000_0000_0000_0000 && (k + 1) * 0x1_0000_0000_0000_0000 <= 1024
                    * 0x1_0000_0000_0000_0000) by (nonlinear_arith)
                    requires
                        k < 1024,
                ;
                acc = acc + sq;
                k = k + 1;
            }
            assert(acc <= 1024 * 0x1_0000_0000_0000_0000) by (nonlinear_arith)
                requires
                    acc <= k * 0x1_0000_0000_0000_0000,
                    k <= 1024,
            ;
            let r = isqrt(acc);
            proof {
                lemma_floor_sqrt_is(acc as int, r as int);
            }
            Ok(r)
        },
        Metric::Manhattan => {
            let mut acc: u64 = 0;
            while k < n
                invariant
                    k <= n,
                    n == p@.len(),
                    n == q@.len(),
                    n <= MAX_DIM,
                    pi == ints(p@),
                    qi == ints(q@),
                    acc == abs_sum(pi, qi, k as int),
                    acc <= k * 0x1_0000_0000,
                decreases n - k,
            {
                let diff: i64 = p[k] as i64 - q[k] as i64;
                let mag: u64 = if diff >= 0 {
                    diff as u64
                } else {
                    (-diff) as u64
                };
                assert(pi[k as int] == p@[k as int] as int);
                assert(qi[k as int] == q@[k as int] as int);
                assert(k * 0x1_0000_0000 + 0x1_0000_0000 == (k + 1) * 0x1_0000_0000
                    && (k + 1) * 0x1_0000_0000 <= 1024 * 0x1_0000_0000) by (nonlinear_arith)
                    requires
                        k < 1024,
                ;
                acc = acc + mag;
                k = k + 1;
            }
            assert(acc <= 1024 * 0x1_0000_0000) by (nonlinear_arith)
                requires
                    acc <= k * 0x1_0000_0000,
                    k <= 1024,
            ;
            Ok(acc)
        },
    }
}

} // verus!
