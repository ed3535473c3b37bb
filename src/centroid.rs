use vstd::prelude::*;

use vstd::arithmetic::div_mod::{
    lemma_div_is_ordered,
    lemma_div_multiples_vanish_fancy,
    lemma_hoist_over_denominator,
};
use vstd::relations::{sorted_by, total_ordering};
use vstd::seq_lib::{group_to_multiset_ensures, lemma_sorted_unique, to_multiset_contains, to_multiset_update};

use crate::error::SilhouetteError;
use crate::metric::ints;

verus! {

/// Largest number of points a dataset, and so a cluster, may hold.
pub const MAX_POINTS: usize = 0x100_0000;

/// How a cluster is summarised by a single representative point.
#[derive(Clone, Copy, Debug, PartialEq, Eq, Structural)]
pub enum CentroidKind {
    /// Coordinate-wise arithmetic mean, rounded down.
    Mean,
    /// Coordinate-wise median; the mean of the two middle values, rounded
    /// down, when the count is even.
    Median,
}

/// The values held by a list of points, one sequence per point.
pub open spec fn views(pts: Seq<Vec<i32>>) -> Seq<Seq<i32>> {
    pts.map_values(|v: Vec<i32>| v@)
}

/// The `k`-th coordinate of every point, in order.
pub open spec fn column(pts: Seq<Seq<i32>>, k: int) -> Seq<i32> {
    Seq::new(pts.len(), |j: int| pts[j][k])
}

/// Every point has as many coordinates as the first.
pub open spec fn uniform(pts: Seq<Seq<i32>>) -> bool {
    forall|j: int| 0 <= j < pts.len() ==> #[trigger] pts[j].len() == pts[0].len()
}

/// Sum of the first `upto` values.
pub open spec fn seq_sum(v: Seq<i32>, upto: int) -> int
    decreases upto,
{
    if upto <= 0 {
        0
    } else {
        seq_sum(v, upto - 1) + v[upto - 1]
    }
}

pub open spec fn mean_of(v: Seq<i32>) -> int {
    seq_sum(v, v.len() as int) / (v.len() as int)
}

pub open spec fn leq() -> spec_fn(i32, i32) -> bool {
    |x: i32, y: i32| x <= y
}

pub open spec fn median_of(v: Seq<i32>) -> int {
    let t = v.sort_by(leq());
    let h = t.len() / 2;
    if t.len() % 2 == 1 {
        t[h as int] as int
    } else {
        (t[h - 1] + t[h as int]) / 2
    }
}

pub open spec fn reduce(kind: CentroidKind, v: Seq<i32>) -> int {
    match kind {
        CentroidKind::Mean => mean_of(v),
        CentroidKind::Median => median_of(v),
    }
}

/// The representative point of a non-empty list of points of equal length.
pub open spec fn centroid_spec(kind: CentroidKind, pts: Seq<Seq<i32>>) -> Seq<int> {
    Seq::new(pts[0].len(), |k: int| reduce(kind, column(pts, k)))
}

/// `x / n`, rounded down, for a quotient that fits in 32 bits.
fn floor_div(x: i64, n: u64) -> (r: i32)
    requires
        0 < n <= MAX_POINTS,
        -(n * 0x8000_0000) <= x < n * 0x8000_0000,
    ensures
        r == (x as int) / (n as int),
{
    let shifted: u64 = (x + (n as i64) * 0x8000_0000) as u64;
    let q: u64 = shifted / n;
    proof {
        lemma_hoist_over_denominator(x as int, 0x8000_0000, n as nat);
        assert(x + 0x8000_0000 * n == x + n * 0x8000_0000) by (nonlinear_arith);
        lemma_div_is_ordered(0, shifted as int, n as int);
        assert(n * 0x8000_0000 + n * 0x8000_0000 - 1 == n * 0xffff_ffff + (n - 1))
            by (nonlinear_arith);
        lemma_div_is_ordered(shifted as int, n * 0xffff_ffff + (n - 1), n as int);
        lemma_div_multiples_vanish_fancy(0xffff_ffff, n - 1, n as int);
        assert(q < 0x1_0000_0000);
    }
    (q as i64 - 0x8000_0000) as i32
}

/// Arithmetic mean of a non-empty list of values, rounded down.
pub fn compute_mean(values: &Vec<i32>) -> (r: i32)
    requires
        0 < values@.len() <= MAX_POINTS,
    ensures
        r == mean_of(values@),
{
    let n = values.len();
    let mut sum: i64 = 0;
    let mut j: usize = 0;
    while j < n
        invariant
            j <= n,
            n == values@.len(),
            n <= MAX_POINTS,
            sum == seq_sum(values@, j as int),
            -(j * 0x8000_0000) <= sum <= j * 0x7fff_ffff,
        decreases n - j,
    {
        assert(j * 0x8000_0000 + 0x8000_0000 == (j + 1) * 0x8000_0000) by (nonlinear_arith);
        assert(j * 0x7fff_ffff + 0x7fff_ffff == (j + 1) * 0x7fff_ffff) by (nonlinear_arith);
        assert((j + 1) * 0x8000_0000 <= 0x100_0000 * 0x8000_0000) by (nonlinear_arith)
            requires
                j < 0x100_0000,
        ;
        sum = sum + values[j] as i64;
        j = j + 1;
    }
    assert(n * 0x7fff_ffff < n * 0x8000_0000) by (nonlinear_arith)
        requires
            n > 0,
    ;
    floor_div(sum, n as u64)
}

proof fn lemma_leq_total()
    ensures
        total_ordering(leq()),
{
}

/// Sorts `v` into ascending order, keeping its values.
fn sort_values(v: &mut Vec<i32>)
    ensures
        final(v)@.len() == old(v)@.len(),
        final(v)@.to_multiset() == old(v)@.to_multiset(),
        sorted_by(final(v)@, leq()),
{
    broadcast use group_to_multiset_ensures;

    let n = v.len();
    if n == 0 {
        return;
    }
    let mut i: usize = 1;
    while i < n
        invariant
            1 <= i <= n,
            n == v@.len(),
            v@.to_multiset() == old(v)@.to_multiset(),
            forall|a: int, b: int| 0 <= a < b < i ==> v@[a] <= v@[b],
        decreases n - i,
    {
        let mut j: usize = i;
        while j > 0 && v[j - 1] > v[j]
            invariant
                0 <= j <= i < n,
                n == v@.len(),
                v@.to_multiset() == old(v)@.to_multiset(),
                forall|a: int, b: int|
                    0 <= a < b <= i && a != j && b != j ==> v@[a] <= v@[b],
                forall|b: int| j < b <= i ==> v@[j as int] <= v@[b],
            decreases j,
        {
            let x = v[j];
            let y = v[j - 1];
            let ghost before = v@;
            v.set(j - 1, x);
            v.set(j, y);
            proof {
                broadcast use vstd::multiset::group_multiset_axioms;

                let mid = before.update(j - 1, x);
                to_multiset_update(before, j - 1, x);
                to_multiset_update(mid, j as int, y);
                assert(v@ == mid.update(j as int, y));
                assert(mid[j as int] == x);
                assert(before.to_multiset().count(y) > 0) by {
                    assert(before[j - 1] == y);
                    assert(before.contains(y));
                    to_multiset_contains(before, y);
                }
                assert(v@.to_multiset() =~= before.to_multiset());
            }
            j = j - 1;
        }
        i = i + 1;
    }
    proof {
        assert(sorted_by(v@, leq()));
    }
}

/// Median of a non-empty list of values.
pub fn compute_median(values: &Vec<i32>) -> (r: i32)
    requires
        0 < values@.len(),
    ensures
        r == median_of(values@),
{
    let mut sorted = values.clone();
    proof {
        assert(sorted@ =~= values@);
    }
    sort_values(&mut sorted);
    proof {
        lemma_leq_total();
        values@.lemma_sort_by_ensures(leq());
        lemma_sorted_unique(sorted@, values@.sort_by(leq()), leq());
    }
    let len = sorted.len();
    let h = len / 2;
    if len % 2 == 1 {
        sorted[h]
    } else {
        assert(h >= 1);
        floor_div(sorted[h - 1] as i64 + sorted[h] as i64, 2)
    }
}

/// The values of the `k`-th coordinate of every point.
fn column_of(points: &Vec<Vec<i32>>, k: usize) -> (col: Vec<i32>)
    requires
        uniform(views(points@)),
        points@.len() > 0,
        k < points@[0]@.len(),
    ensures
        col@ == column(views(points@), k as int),
{
    let n = points.len();
    let mut col: Vec<i32> = Vec::new();
    let mut j: usize = 0;
    while j < n
        invariant
            j <= n,
            n == points@.len(),
            n > 0,
            k < points@[0]@.len(),
            uniform(views(points@)),
            col@ == column(views(points@), k as int).take(j as int),
        decreases n - j,
    {
        assert(views(points@)[j as int].len() == views(points@)[0].len());
        col.push(points[j][k]);
        j = j + 1;
        assert(col@ =~= column(views(points@), k as int).take(j as int));
    }
    assert(col@ =~= column(views(points@), k as int));
    col
}

/// Representative point of a cluster, reducing each coordinate on its own.
pub fn compute_centroid(points: &Vec<Vec<i32>>, kind: CentroidKind) -> (r: Result<
    Vec<i32>,
    SilhouetteError,
>)
    requires
        points@.len() <= MAX_POINTS,
    ensures
        points@.len() == 0 <==> r == Err::<Vec<i32>, SilhouetteError>(SilhouetteError::EmptyCluster),
        points@.len() > 0 && !uniform(views(points@)) <==> r == Err::<Vec<i32>, SilhouetteError>(
            SilhouetteError::DimensionMismatch,
        ),
        points@.len() > 0 && uniform(views(points@)) ==> (r matches Ok(c) && ints(c@)
            == centroid_spec(kind, views(points@))),
{
    let n = points.len();
    if n == 0 {
        return Err(SilhouetteError::EmptyCluster);
    }
    let d = points[0].len();
    let mut j: usize = 0;
    while j < n
        invariant
            j <= n,
            n == points@.len(),
            n > 0,
            d == points@[0]@.len(),
            forall|i: int| 0 <= i < j ==> #[trigger] views(points@)[i].len() == d,
        decreases n - j,
    {
        if points[j].len() != d {
            assert(views(points@)[j as int].len() != views(points@)[0].len());
            return Err(SilhouetteError::DimensionMismatch);
        }
        j = j + 1;
    }
    let mut c: Vec<i32> = Vec::new();
    let mut k: usize = 0;
    while k < d
        invariant
            k <= d,
            n == points@.len(),
            0 < n <= MAX_POINTS,
            d == points@[0]@.len(),
            uniform(views(points@)),
            c@.len() == k,
            ints(c@) == centroid_spec(kind, views(points@)).take(k as int),
        decreases d - k,
    {
        let col = column_of(points, k);
        let v = match kind {
            CentroidKind::Mean => compute_mean(&col),
            CentroidKind::Median => compute_median(&col),
        };
        let ghost prev = c@;
        c.push(v);
        assert(views(points@)[0] == points@[0]@);
        assert(c@ == prev.push(v));
        assert(ints(c@)[k as int] == v as int);
        assert(forall|i: int| 0 <= i < k ==> ints(c@)[i] == ints(prev)[i]);
        k = k + 1;
        assert(ints(c@) =~= centroid_spec(kind, views(points@)).take(k as int));
    }
    assert(views(points@)[0] == points@[0]@);
    assert(ints(c@) =~= centroid_spec(kind, views(points@)));
    Ok(c)
}

} // verus!
