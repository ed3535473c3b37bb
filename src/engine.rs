use vstd::prelude::*;

use vstd::arithmetic::div_mod::{lemma_div_is_ordered, lemma_div_multiples_vanish};

use crate::centroid::{
    centroid_spec,
    compute_centroid,
    uniform,
    views,
    CentroidKind,
    MAX_POINTS,
};
use crate::error::SilhouetteError;
use crate::metric::{dist, distance, ints, Metric, MAX_DIM, MAX_DIST};

verus! {

/// A coefficient of 1 in fixed point: scores are reported in millionths.
pub const SCALE: i64 = 1_000_000;

/// A bound on any sum of distances over a dataset of at most `MAX_POINTS` points.
pub const MAX_SUM: u128 = 0x4_0000_0000_0000_0000;

/// How the dissimilarity of a point to a cluster is measured.
#[derive(Clone, Copy, Debug, PartialEq, Eq, Structural)]
pub enum Mode {
    /// Mean distance to the cluster's members: the reference silhouette.
    Exact,
    /// Distance to the cluster's mean centroid: an approximation.
    CentroidMean,
    /// Distance to the cluster's median centroid: an approximation.
    CentroidMedian,
}

/// The mode and the metric of a computation.
#[derive(Clone, Copy, Debug, PartialEq, Eq, Structural)]
pub struct Config {
    pub mode: Mode,
    pub metric: Metric,
}

/// One point of a dataset, with the label of its cluster.
#[derive(Clone, Debug)]
pub struct Sample {
    pub point: Vec<i32>,
    pub label: i64,
}

/// Cohesion `a_sum / a_count`, separation `b_sum / b_count` and the
/// coefficient, in millionths, of the point at `index`.
#[derive(Clone, Copy, Debug, PartialEq, Eq, Structural)]
pub struct PointScore {
    pub index: usize,
    pub a_sum: u128,
    pub a_count: u64,
    pub b_sum: u128,
    pub b_count: u64,
    pub silhouette: i64,
}

/// Per-point scores and their mean, in millionths. Every point has a defined
/// coefficient: a dataset of one cluster is refused, and a point alone in its
/// cluster has cohesion zero, so no point is left out of the mean.
#[derive(Clone, Debug)]
pub struct SilhouetteReport {
    pub scores: Vec<PointScore>,
    pub mean: i64,
}

/// The distinct labels of a dataset, in order of first appearance, and for
/// each point the position of its label.
#[derive(Clone, Debug)]
pub struct Clustering {
    pub labels: Vec<i64>,
    pub cluster_of: Vec<usize>,
}

/// Distinct labels among the first `upto` points, in order of first appearance.
pub open spec fn label_order(ds: Seq<Sample>, upto: int) -> Seq<i64>
    decreases upto,
{
    if upto <= 0 {
        seq![]
    } else {
        let prev = label_order(ds, upto - 1);
        let l = ds[upto - 1].label;
        if prev.contains(l) {
            prev
        } else {
            prev.push(l)
        }
    }
}

pub open spec fn cluster_labels(ds: Seq<Sample>) -> Seq<i64> {
    label_order(ds, ds.len() as int)
}

impl Clustering {
    pub open spec fn wf(&self, ds: Seq<Sample>) -> bool {
        &&& self.labels@ == cluster_labels(ds)
        &&& self.cluster_of@.len() == ds.len()
        &&& forall|j: int|
            0 <= j < ds.len() ==> {
                &&& #[trigger] self.cluster_of@[j] < self.labels@.len()
                &&& self.labels@[self.cluster_of@[j] as int] == ds[j].label
            }
    }
}

pub open spec fn pt(ds: Seq<Sample>, j: int) -> Seq<int> {
    ints(ds[j].point@)
}

/// Every point has as many coordinates as the first.
pub open spec fn same_dim(ds: Seq<Sample>) -> bool {
    forall|j: int| 0 <= j < ds.len() ==> #[trigger] ds[j].point@.len() == ds[0].point@.len()
}

/// Sum of distances from point `i` to the other points labelled `lab` among the first `upto`.
pub open spec fn pair_sum(m: Metric, ds: Seq<Sample>, i: int, lab: i64, upto: int) -> int
    decreases upto,
{
    if upto <= 0 {
        0
    } else {
        pair_sum(m, ds, i, lab, upto - 1) + if upto - 1 != i && ds[upto - 1].label == lab {
            dist(m, pt(ds, i), pt(ds, upto - 1))
        } else {
            0
        }
    }
}

/// Number of points other than `i` labelled `lab` among the first `upto`.
pub open spec fn peer_count(ds: Seq<Sample>, i: int, lab: i64, upto: int) -> int
    decreases upto,
{
    if upto <= 0 {
        0
    } else {
        peer_count(ds, i, lab, upto - 1) + if upto - 1 != i && ds[upto - 1].label == lab {
            1int
        } else {
            0
        }
    }
}

/// The points labelled `lab` among the first `upto`, in order.
pub open spec fn members(ds: Seq<Sample>, lab: i64, upto: int) -> Seq<Seq<i32>>
    decreases upto,
{
    if upto <= 0 {
        seq![]
    } else {
        let prev = members(ds, lab, upto - 1);
        if ds[upto - 1].label == lab {
            prev.push(ds[upto - 1].point@)
        } else {
            prev
        }
    }
}

pub open spec fn centroid_kind(mode: Mode) -> CentroidKind {
    match mode {
        Mode::CentroidMedian => CentroidKind::Median,
        _ => CentroidKind::Mean,
    }
}

/// Dissimilarity of point `i` to the cluster labelled `lab`, as a fraction
/// (numerator, denominator).
pub open spec fn ref_frac(cfg: Config, ds: Seq<Sample>, i: int, lab: i64) -> (int, int) {
    match cfg.mode {
        Mode::Exact => (
            pair_sum(cfg.metric, ds, i, lab, ds.len() as int),
            peer_count(ds, i, lab, ds.len() as int),
        ),
        _ => (
            dist(
                cfg.metric,
                pt(ds, i),
                centroid_spec(centroid_kind(cfg.mode), members(ds, lab, ds.len() as int)),
            ),
            1,
        ),
    }
}

/// Cohesion of point `i`: its dissimilarity to its own cluster, zero when it
/// has no cluster-mates.
pub open spec fn cohesion(cfg: Config, ds: Seq<Sample>, i: int) -> (int, int) {
    let f = ref_frac(cfg, ds, i, ds[i].label);
    if f.1 == 0 {
        (0, 1)
    } else {
        f
    }
}

/// The smallest dissimilarity of point `i` to a cluster among `labels[..c]`
/// other than its own; the first one wins a tie.
pub open spec fn nearest(cfg: Config, ds: Seq<Sample>, i: int, labels: Seq<i64>, c: int) -> Option<
    (int, int),
>
    decreases c,
{
    if c <= 0 {
        None
    } else {
        let prev = nearest(cfg, ds, i, labels, c - 1);
        let l = labels[c - 1];
        if l == ds[i].label {
            prev
        } else {
            let f = ref_frac(cfg, ds, i, l);
            match prev {
                None => Some(f),
                Some(g) => if f.0 * g.1 < g.0 * f.1 {
                    Some(f)
                } else {
                    Some(g)
                },
            }
        }
    }
}

/// Separation of point `i`: its smallest dissimilarity to another cluster.
pub open spec fn separation(cfg: Config, ds: Seq<Sample>, i: int) -> (int, int) {
    match nearest(cfg, ds, i, cluster_labels(ds), cluster_labels(ds).len() as int) {
        Some(f) => f,
        None => (0, 1),
    }
}

/// `x / d` rounded toward zero.
pub open spec fn trunc_div(x: int, d: int) -> int {
    if x >= 0 {
        x / d
    } else {
        -((-x) / d)
    }
}

/// `(b - a) / max(a, b)` in millionths, rounded toward zero, for fractions
/// `a` and `b`; zero when both are zero.
pub open spec fn coefficient_spec(a: (int, int), b: (int, int)) -> int {
    let lhs = a.0 * b.1;
    let rhs = b.0 * a.1;
    let den = if lhs >= rhs {
        lhs
    } else {
        rhs
    };
    if den == 0 {
        0
    } else {
        trunc_div(SCALE * (rhs - lhs), den)
    }
}

pub open spec fn score_matches(cfg: Config, ds: Seq<Sample>, i: int, s: PointScore) -> bool {
    let a = cohesion(cfg, ds, i);
    let b = separation(cfg, ds, i);
    &&& s.index == i
    &&& s.a_sum == a.0
    &&& s.a_count == a.1
    &&& s.b_sum == b.0
    &&& s.b_count == b.1
    &&& s.silhouette == coefficient_spec(a, b)
}

/// Sum of the first `upto` coefficients.
pub open spec fn sil_sum(scores: Seq<PointScore>, upto: int) -> int
    decreases upto,
{
    if upto <= 0 {
        0
    } else {
        sil_sum(scores, upto - 1) + scores[upto - 1].silhouette
    }
}

pub open spec fn report_matches(cfg: Config, ds: Seq<Sample>, rep: SilhouetteReport) -> bool {
    &&& rep.scores@.len() == ds.len()
    &&& forall|i: int| 0 <= i < ds.len() ==> score_matches(cfg, ds, i, #[trigger] rep.scores@[i])
    &&& rep.mean == trunc_div(sil_sum(rep.scores@, ds.len() as int), ds.len() as int)
}

pub proof fn lemma_label_order(ds: Seq<Sample>, upto: int)
    requires
        0 <= upto <= ds.len(),
    ensures
        label_order(ds, upto).no_duplicates(),
        label_order(ds, upto).len() <= upto,
        forall|j: int| 0 <= j < upto ==> label_order(ds, upto).contains(#[trigger] ds[j].label),
        forall|c: int|
            0 <= c < label_order(ds, upto).len() ==> exists|j: int|
                0 <= j < upto && ds[j].label == #[trigger] label_order(ds, upto)[c],
    decreases upto,
{
    if upto > 0 {
        lemma_label_order(ds, upto - 1);
        let prev = label_order(ds, upto - 1);
        let l = ds[upto - 1].label;
        let lo = label_order(ds, upto);
        if !prev.contains(l) {
            assert(lo == prev.push(l));
            assert(lo[prev.len() as int] == l);
            assert forall|j: int| 0 <= j < upto implies lo.contains(#[trigger] ds[j].label) by {
                if j < upto - 1 {
                    assert(prev.contains(ds[j].label));
                    let t = choose|t: int| 0 <= t < prev.len() && prev[t] == ds[j].label;
                    assert(lo[t] == prev[t]);
                }
            }
            assert forall|c: int| 0 <= c < lo.len() implies exists|j: int|
                0 <= j < upto && ds[j].label == #[trigger] lo[c] by {
                if c < prev.len() {
                    assert(lo[c] == prev[c]);
                    let j = choose|j: int| 0 <= j < upto - 1 && ds[j].label == prev[c];
                    assert(0 <= j < upto && ds[j].label == lo[c]);
                } else {
                    assert(ds[upto - 1].label == lo[c]);
                }
            }
        }
    }
}

proof fn lemma_peer_count_pos(ds: Seq<Sample>, i: int, lab: i64, upto: int, j: int)
    requires
        0 <= j < upto <= ds.len(),
        j != i,
        ds[j].label == lab,
    ensures
        peer_count(ds, i, lab, upto) >= 1,
    decreases upto,
{
    if j < upto - 1 {
        lemma_peer_count_pos(ds, i, lab, upto - 1, j);
    }
    lemma_peer_count_nonneg(ds, i, lab, upto - 1);
}

proof fn lemma_peer_count_nonneg(ds: Seq<Sample>, i: int, lab: i64, upto: int)
    ensures
        peer_count(ds, i, lab, upto) >= 0,
    decreases upto,
{
    if upto > 0 {
        lemma_peer_count_nonneg(ds, i, lab, upto - 1);
    }
}

proof fn lemma_members(ds: Seq<Sample>, lab: i64, upto: int)
    requires
        0 <= upto <= ds.len(),
        same_dim(ds),
    ensures
        members(ds, lab, upto).len() <= upto,
        forall|t: int|
            0 <= t < members(ds, lab, upto).len() ==> #[trigger] members(ds, lab, upto)[t].len()
                == ds[0].point@.len(),
        (exists|j: int| 0 <= j < upto && ds[j].label == lab) ==> members(ds, lab, upto).len() > 0,
    decreases upto,
{
    if upto > 0 {
        lemma_members(ds, lab, upto - 1);
        assert(ds[upto - 1].point@.len() == ds[0].point@.len());
        if exists|j: int| 0 <= j < upto && ds[j].label == lab {
            let j = choose|j: int| 0 <= j < upto && ds[j].label == lab;
            if j < upto - 1 {
                assert(exists|j: int| 0 <= j < upto - 1 && ds[j].label == lab);
            }
        }
    }
}

/// Groups the points of a dataset by label.
pub fn group(ds: &Vec<Sample>) -> (r: Result<Clustering, SilhouetteError>)
    ensures
        ds@.len() == 0 <==> r == Err::<Clustering, SilhouetteError>(SilhouetteError::EmptyDataset),
        ds@.len() > 0 ==> (r matches Ok(g) && g.wf(ds@)),
{
    let n = ds.len();
    if n == 0 {
        return Err(SilhouetteError::EmptyDataset);
    }
    let mut labels: Vec<i64> = Vec::new();
    let mut cluster_of: Vec<usize> = Vec::new();
    let mut j: usize = 0;
    while j < n
        invariant
            j <= n,
            n == ds@.len(),
            labels@ == label_order(ds@, j as int),
            cluster_of@.len() == j,
            forall|t: int|
                0 <= t < j ==> {
                    &&& #[trigger] cluster_of@[t] < labels@.len()
                    &&& labels@[cluster_of@[t] as int] == ds@[t].label
                },
        decreases n - j,
    {
        proof {
            lemma_label_order(ds@, j as int);
        }
        let lab = ds[j].label;
        let mut c: usize = 0;
        let k = labels.len();
        while c < k && labels[c] != lab
            invariant
                c <= k,
                k == labels@.len(),
                forall|t: int| 0 <= t < c ==> labels@[t] != lab,
            decreases k - c,
        {
            c = c + 1;
        }
        if c < k {
            assert(labels@.contains(lab));
            cluster_of.push(c);
        } else {
            assert(!labels@.contains(lab));
            cluster_of.push(k);
            labels.push(lab);
        }
        j = j + 1;
    }
    Ok(Clustering { labels, cluster_of })
}

/// The silhouette coefficient of a point with cohesion `a_sum / a_count` and
/// separation `b_sum / b_count`, in millionths.
pub fn coefficient(a_sum: u128, a_count: u64, b_sum: u128, b_count: u64) -> (s: i64)
    requires
        a_sum <= MAX_SUM,
        b_sum <= MAX_SUM,
        0 < a_count <= MAX_POINTS,
        0 < b_count <= MAX_POINTS,
    ensures
        s == coefficient_spec((a_sum as int, a_count as int), (b_sum as int, b_count as int)),
        -SCALE <= s <= SCALE,
{
    assert(a_sum * b_count <= MAX_SUM * MAX_POINTS) by (nonlinear_arith)
        requires
            a_sum <= MAX_SUM,
            b_count <= MAX_POINTS,
    ;
    assert(b_sum * a_count <= MAX_SUM * MAX_POINTS) by (nonlinear_arith)
        requires
            b_sum <= MAX_SUM,
            a_count <= MAX_POINTS,
    ;
    let lhs: u128 = a_sum * (b_count as u128);
    let rhs: u128 = b_sum * (a_count as u128);
    let den: u128 = if lhs >= rhs {
        lhs
    } else {
        rhs
    };
    if den == 0 {
        return 0;
    }
    let diff: u128 = if rhs >= lhs {
        rhs - lhs
    } else {
        lhs - rhs
    };
    assert(1_000_000 * diff <= 1_000_000 * den) by (nonlinear_arith)
        requires
            diff <= den,
    ;
    let q: u128 = (1_000_000 * diff) / den;
    proof {
        lemma_div_is_ordered(1_000_000 * diff, 1_000_000 * den, den as int);
        lemma_div_multiples_vanish(1_000_000, den as int);
        assert(1_000_000 * den == den * 1_000_000) by (nonlinear_arith);
    }
    if rhs >= lhs {
        q as i64
    } else {
        assert(-(SCALE * (rhs - lhs)) == 1_000_000 * diff);
        -(q as i64)
    }
}

/// Mean of the coefficients of a non-empty list of scores, rounded toward zero.
pub fn mean_score(scores: &Vec<PointScore>) -> (m: i64)
    requires
        0 < scores@.len() <= MAX_POINTS,
        forall|i: int| 0 <= i < scores@.len() ==> -SCALE <= #[trigger] scores@[i].silhouette <= SCALE,
    ensures
        m == trunc_div(sil_sum(scores@, scores@.len() as int), scores@.len() as int),
        -SCALE <= m <= SCALE,
{
    let n = scores.len();
    let mut sum: i64 = 0;
    let mut j: usize = 0;
    while j < n
        invariant
            j <= n,
            n == scores@.len(),
            n <= MAX_POINTS,
            forall|i: int| 0 <= i < n ==> -SCALE <= #[trigger] scores@[i].silhouette <= SCALE,
            sum == sil_sum(scores@, j as int),
            -(j * SCALE) <= sum <= j * SCALE,
        decreases n - j,
    {
        assert(j * SCALE + SCALE == (j + 1) * SCALE && (j + 1) * SCALE <= MAX_POINTS * SCALE)
            by (nonlinear_arith)
            requires
                j < MAX_POINTS,
        ;
        sum = sum + scores[j].silhouette;
        j = j + 1;
    }
    let mag: u64 = if sum >= 0 {
        sum as u64
    } else {
        (-sum) as u64
    };
    let q: u64 = mag / (n as u64);
    proof {
        lemma_div_is_ordered(mag as int, n * SCALE, n as int);
        lemma_div_multiples_vanish(SCALE as int, n as int);
    }
    if sum >= 0 {
        q as i64
    } else {
        -(q as i64)
    }
}

/// Dissimilarity of point `i` to each cluster, as numerators and denominators.
fn reference_fracs(
    cfg: Config,
    ds: &Vec<Sample>,
    g: &Clustering,
    cents: &Vec<Vec<i32>>,
    i: usize,
) -> (r: (Vec<u128>, Vec<u64>))
    requires
        0 < ds@.len() <= MAX_POINTS,
        forall|j: int| 0 <= j < ds@.len() ==> #[trigger] ds@[j].point@.len() <= MAX_DIM,
        same_dim(ds@),
        g.wf(ds@),
        i < ds@.len(),
        cfg.mode != Mode::Exact ==> {
            &&& cents@.len() == g.labels@.len()
            &&& forall|c: int|
                0 <= c < cents@.len() ==> {
                    &&& #[trigger] cents@[c]@.len() == ds@[0].point@.len()
                    &&& ints(cents@[c]@) == centroid_spec(
                        centroid_kind(cfg.mode),
                        members(ds@, g.labels@[c], ds@.len() as int),
                    )
                }
        },
    ensures
        r.0@.len() == g.labels@.len(),
        r.1@.len() == g.labels@.len(),
        forall|c: int|
            0 <= c < g.labels@.len() ==> {
                &&& (#[trigger] r.0@[c] as int, r.1@[c] as int) == ref_frac(
                    cfg,
                    ds@,
                    i as int,
                    g.labels@[c],
                )
                &&& r.0@[c] <= MAX_SUM
                &&& r.1@[c] <= MAX_POINTS
                &&& g.labels@[c] != ds@[i as int].label ==> r.1@[c] >= 1
            },
{
    let n = ds.len();
    let k = g.labels.len();
    let ghost dsv = ds@;
    let ghost labels = g.labels@;
    proof {
        lemma_label_order(ds@, n as int);
    }
    let mut sums: Vec<u128> = Vec::new();
    let mut counts: Vec<u64> = Vec::new();
    match cfg.mode {
        Mode::Exact => {
            let mut c: usize = 0;
            while c < k
                invariant
                    c <= k,
                    sums@.len() == c,
                    counts@.len() == c,
                    forall|t: int| 0 <= t < c ==> sums@[t] == 0 && counts@[t] == 0,
                decreases k - c,
            {
                sums.push(0);
                counts.push(0);
                c = c + 1;
            }
            let mut j: usize = 0;
            while j < n
                invariant
                    j <= n,
                    n == ds@.len(),
                    n <= MAX_POINTS,
                    k == g.labels@.len(),
                    i < n,
                    dsv == ds@,
                    labels == g.labels@,
                    labels.no_duplicates(),
                    forall|t: int| 0 <= t < n ==> #[trigger] ds@[t].point@.len() <= MAX_DIM,
                    same_dim(ds@),
                    g.wf(ds@),
                    cfg.mode == Mode::Exact,
                    sums@.len() == k,
                    counts@.len() == k,
                    forall|t: int|
                        0 <= t < k ==> {
                            &&& #[trigger] sums@[t] == pair_sum(
                                cfg.metric,
                                dsv,
                                i as int,
                                labels[t],
                                j as int,
                            )
                            &&& counts@[t] == peer_count(dsv, i as int, labels[t], j as int)
                            &&& sums@[t] <= j * MAX_DIST
                            &&& counts@[t] <= j
                        },
                decreases n - j,
            {
                let ghost old_s = sums@;
                let ghost old_c = counts@;
                assert(j * MAX_DIST + MAX_DIST == (j + 1) * MAX_DIST) by (nonlinear_arith);
                if j != i {
                    assert(ds@[j as int].point@.len() == ds@[0].point@.len());
                    assert(ds@[i as int].point@.len() == ds@[0].point@.len());
                    let d: u64 = match distance(cfg.metric, &ds[i].point, &ds[j].point) {
                        Ok(d) => d,
                        Err(_) => 0,
                    };
                    let cj = g.cluster_of[j];
                    assert(j * MAX_DIST + MAX_DIST <= MAX_SUM) by (nonlinear_arith)
                        requires
                            j < MAX_POINTS,
                    ;
                    let s = sums[cj] + d as u128;
                    let m = counts[cj] + 1;
                    sums.set(cj, s);
                    counts.set(cj, m);
                    proof {
                        assert(d == dist(cfg.metric, pt(dsv, i as int), pt(dsv, j as int)));
                        assert forall|t: int| 0 <= t < k implies {
                            &&& #[trigger] sums@[t] == pair_sum(
                                cfg.metric,
                                dsv,
                                i as int,
                                labels[t],
                                j + 1,
                            )
                            &&& counts@[t] == peer_count(dsv, i as int, labels[t], j + 1)
                            &&& sums@[t] <= (j + 1) * MAX_DIST
                            &&& counts@[t] <= j + 1
                        } by {
                            assert(old_s[t] == pair_sum(cfg.metric, dsv, i as int, labels[t], j as int));
                            assert(old_c[t] == peer_count(dsv, i as int, labels[t], j as int));
                            if t != cj {
                                assert(labels[t] != labels[cj as int]);
                                assert(sums@[t] == old_s[t]);
                            } else {
                                assert(labels[t] == dsv[j as int].label);
                            }
                        }
                    }
                } else {
                    proof {
                        assert forall|t: int| 0 <= t < k implies {
                            &&& #[trigger] sums@[t] == pair_sum(
                                cfg.metric,
                                dsv,
                                i as int,
                                labels[t],
                                j + 1,
                            )
                            &&& counts@[t] == peer_count(dsv, i as int, labels[t], j + 1)
                            &&& sums@[t] <= (j + 1) * MAX_DIST
                            &&& counts@[t] <= j + 1
                        } by {
                            assert(old_s[t] == pair_sum(cfg.metric, dsv, i as int, labels[t], j as int));
                        }
                    }
                }
                j = j + 1;
            }
            proof {
                assert forall|t: int| 0 <= t < k implies {
                    &&& #[trigger] sums@[t] <= MAX_SUM
                    &&& labels[t] != dsv[i as int].label ==> counts@[t] >= 1
                } by {
                    assert(n * MAX_DIST <= MAX_SUM) by (nonlinear_arith)
                        requires
                            n <= MAX_POINTS,
                    ;
                    assert(sums@[t] <= n * MAX_DIST);
                    if labels[t] != dsv[i as int].label {
                        assert(labels[t] == label_order(dsv, n as int)[t]);
                        let w = choose|w: int| 0 <= w < n && dsv[w].label == label_order(dsv, n as int)[t];
                        lemma_peer_count_pos(dsv, i as int, labels[t], n as int, w);
                    }
                }
            }
        },
        _ => {
            let mut c: usize = 0;
            while c < k
                invariant
                    c <= k,
                    n == ds@.len(),
                    k == g.labels@.len(),
                    i < n,
                    cfg.mode != Mode::Exact,
                    forall|t: int| 0 <= t < n ==> #[trigger] ds@[t].point@.len() <= MAX_DIM,
                    same_dim(ds@),
                    cents@.len() == k,
                    forall|t: int|
                        0 <= t < k ==> {
                            &&& #[trigger] cents@[t]@.len() == ds@[0].point@.len()
                            &&& ints(cents@[t]@) == centroid_spec(
                                centroid_kind(cfg.mode),
                                members(ds@, g.labels@[t], ds@.len() as int),
                            )
                        },
                    sums@.len() == c,
                    counts@.len() == c,
                    forall|t: int|
                        0 <= t < c ==> {
                            &&& (#[trigger] sums@[t] as int, counts@[t] as int) == ref_frac(
                                cfg,
                                ds@,
                                i as int,
                                g.labels@[t],
                            )
                            &&& sums@[t] <= MAX_DIST
                            &&& counts@[t] == 1
                        },
                decreases k - c,
            {
                assert(ds@[i as int].point@.len() == ds@[0].point@.len());
                let d: u64 = match distance(cfg.metric, &ds[i].point, &cents[c]) {
                    Ok(d) => d,
                    Err(_) => 0,
                };
                sums.push(d as u128);
                counts.push(1);
                c = c + 1;
            }
        },
    }
    (sums, counts)
}

/// Cohesion, separation and coefficient of point `i`.
fn score_point(
    cfg: Config,
    ds: &Vec<Sample>,
    g: &Clustering,
    cents: &Vec<Vec<i32>>,
    i: usize,
) -> (s: PointScore)
    requires
        0 < ds@.len() <= MAX_POINTS,
        forall|j: int| 0 <= j < ds@.len() ==> #[trigger] ds@[j].point@.len() <= MAX_DIM,
        same_dim(ds@),
        g.wf(ds@),
        g.labels@.len() >= 2,
        i < ds@.len(),
        cfg.mode != Mode::Exact ==> {
            &&& cents@.len() == g.labels@.len()
            &&& forall|c: int|
                0 <= c < cents@.len() ==> {
                    &&& #[trigger] cents@[c]@.len() == ds@[0].point@.len()
                    &&& ints(cents@[c]@) == centroid_spec(
                        centroid_kind(cfg.mode),
                        members(ds@, g.labels@[c], ds@.len() as int),
                    )
                }
        },
    ensures
        score_matches(cfg, ds@, i as int, s),
        -SCALE <= s.silhouette <= SCALE,
{
    let (sums, counts) = reference_fracs(cfg, ds, g, cents, i);
    let k = g.labels.len();
    let ghost labels = g.labels@;
    let lab = ds[i].label;
    let ci = g.cluster_of[i];
    let (a_sum, a_count): (u128, u64) = if counts[ci] == 0 {
        (0, 1)
    } else {
        (sums[ci], counts[ci])
    };
    assert((a_sum as int, a_count as int) == cohesion(cfg, ds@, i as int)) by {
        assert((sums@[ci as int] as int, counts@[ci as int] as int) == ref_frac(cfg, ds@, i as int, labels[ci as int]));
    }
    let mut found = false;
    let mut b_sum: u128 = 0;
    let mut b_count: u64 = 1;
    let mut c: usize = 0;
    while c < k
        invariant
            c <= k,
            k == labels.len(),
            labels == g.labels@,
            lab == ds@[i as int].label,
            sums@.len() == k,
            counts@.len() == k,
            forall|t: int|
                0 <= t < k ==> {
                    &&& (#[trigger] sums@[t] as int, counts@[t] as int) == ref_frac(
                        cfg,
                        ds@,
                        i as int,
                        labels[t],
                    )
                    &&& sums@[t] <= MAX_SUM
                    &&& counts@[t] <= MAX_POINTS
                    &&& labels[t] != ds@[i as int].label ==> counts@[t] >= 1
                },
            found <==> exists|t: int| 0 <= t < c && #[trigger] labels[t] != lab,
            found ==> nearest(cfg, ds@, i as int, labels, c as int) == Some(
                (b_sum as int, b_count as int),
            ),
            !found ==> nearest(cfg, ds@, i as int, labels, c as int) == None::<(int, int)>,
            b_sum <= MAX_SUM,
            1 <= b_count <= MAX_POINTS,
        decreases k - c,
    {
        if g.labels[c] != lab {
            let f0 = sums[c];
            let f1 = counts[c];
            assert(f0 * b_count <= MAX_SUM * MAX_POINTS) by (nonlinear_arith)
                requires
                    f0 <= MAX_SUM,
                    b_count <= MAX_POINTS,
            ;
            assert(b_sum * f1 <= MAX_SUM * MAX_POINTS) by (nonlinear_arith)
                requires
                    b_sum <= MAX_SUM,
                    f1 <= MAX_POINTS,
            ;
            if !found || f0 * (b_count as u128) < b_sum * (f1 as u128) {
                b_sum = f0;
                b_count = f1;
            }
            found = true;
        }
        c = c + 1;
    }
    proof {
        lemma_label_order(ds@, ds@.len() as int);
        if labels[0] == lab {
            assert(labels[1] != labels[0]);
            assert(labels[1] != lab);
        } else {
            assert(labels[0] != lab);
        }
    }
    let sil = coefficient(a_sum, a_count, b_sum, b_count);
    PointScore { index: i, a_sum, a_count, b_sum, b_count, silhouette: sil }
}

/// The points of the cluster labelled `lab`, in dataset order.
fn cluster_members(ds: &Vec<Sample>, lab: i64) -> (r: Vec<Vec<i32>>)
    ensures
        views(r@) == members(ds@, lab, ds@.len() as int),
{
    let n = ds.len();
    let mut r: Vec<Vec<i32>> = Vec::new();
    let mut j: usize = 0;
    while j < n
        invariant
            j <= n,
            n == ds@.len(),
            views(r@) == members(ds@, lab, j as int),
        decreases n - j,
    {
        if ds[j].label == lab {
            let p = ds[j].point.clone();
            assert(p@ =~= ds@[j as int].point@);
            let ghost prev = r@;
            r.push(p);
            assert(views(r@) =~= views(prev).push(p@));
        }
        j = j + 1;
    }
    r
}

/// The centroid of every cluster, in the order of the clustering's labels.
fn cluster_centroids(ds: &Vec<Sample>, g: &Clustering, kind: CentroidKind) -> (r: Vec<Vec<i32>>)
    requires
        0 < ds@.len() <= MAX_POINTS,
        same_dim(ds@),
        g.wf(ds@),
    ensures
        r@.len() == g.labels@.len(),
        forall|c: int|
            0 <= c < r@.len() ==> {
                &&& #[trigger] r@[c]@.len() == ds@[0].point@.len()
                &&& ints(r@[c]@) == centroid_spec(kind, members(ds@, g.labels@[c], ds@.len() as int))
            },
{
    let k = g.labels.len();
    let mut r: Vec<Vec<i32>> = Vec::new();
    let mut c: usize = 0;
    proof {
        lemma_label_order(ds@, ds@.len() as int);
    }
    while c < k
        invariant
            c <= k,
            k == g.labels@.len(),
            0 < ds@.len() <= MAX_POINTS,
            same_dim(ds@),
            g.wf(ds@),
            forall|t: int|
                0 <= t < k ==> exists|j: int|
                    0 <= j < ds@.len() && ds@[j].label == #[trigger] g.labels@[t],
            r@.len() == c,
            forall|t: int|
                0 <= t < c ==> {
                    &&& #[trigger] r@[t]@.len() == ds@[0].point@.len()
                    &&& ints(r@[t]@) == centroid_spec(
                        kind,
                        members(ds@, g.labels@[t], ds@.len() as int),
                    )
                },
        decreases k - c,
    {
        let lab = g.labels[c];
        let pts = cluster_members(ds, lab);
        proof {
            lemma_members(ds@, lab, ds@.len() as int);
            assert(g.labels@[c as int] == lab);
            assert(exists|j: int| 0 <= j < ds@.len() && ds@[j].label == lab);
            assert(uniform(views(pts@)));
        }
        let cent = match compute_centroid(&pts, kind) {
            Ok(v) => v,
            Err(_) => Vec::new(),
        };
        proof {
            assert(views(pts@)[0].len() == ds@[0].point@.len());
            assert(centroid_spec(kind, views(pts@)).len() == ds@[0].point@.len());
        }
        r.push(cent);
        c = c + 1;
    }
    r
}

/// The silhouette of a labelled dataset: per-point scores and their mean.
/// Fails on an empty dataset, on a single cluster, and on points of
/// different lengths, in that order of precedence.
pub fn silhouette(ds: &Vec<Sample>, cfg: Config) -> (r: Result<SilhouetteReport, SilhouetteError>)
    requires
        ds@.len() <= MAX_POINTS,
        forall|j: int| 0 <= j < ds@.len() ==> #[trigger] ds@[j].point@.len() <= MAX_DIM,
    ensures
        ds@.len() == 0 <==> r == Err::<SilhouetteReport, SilhouetteError>(
            SilhouetteError::EmptyDataset,
        ),
        ds@.len() > 0 && cluster_labels(ds@).len() == 1 <==> r == Err::<
            SilhouetteReport,
            SilhouetteError,
        >(SilhouetteError::SingleClusterDataset),
        ds@.len() > 0 && cluster_labels(ds@).len() > 1 && !same_dim(ds@) <==> r == Err::<
            SilhouetteReport,
            SilhouetteError,
        >(SilhouetteError::DimensionMismatch),
        ds@.len() > 0 && cluster_labels(ds@).len() > 1 && same_dim(ds@) ==> (r matches Ok(rep)
            && report_matches(cfg, ds@, rep)),
        r matches Ok(rep) ==> -SCALE <= rep.mean <= SCALE && forall|i: int|
            0 <= i < rep.scores@.len() ==> -SCALE <= #[trigger] rep.scores@[i].silhouette <= SCALE,
{
    let n = ds.len();
    if n == 0 {
        return Err(SilhouetteError::EmptyDataset);
    }
    proof {
        lemma_label_order(ds@, n as int);
        assert(cluster_labels(ds@).contains(ds@[0].label));
    }
    let g = match group(ds) {
        Ok(g) => g,
        Err(e) => {
            return Err(e);
        },
    };
    if g.labels.len() == 1 {
        return Err(SilhouetteError::SingleClusterDataset);
    }
    let d = ds[0].point.len();
    let mut j: usize = 0;
    while j < n
        invariant
            j <= n,
            n == ds@.len(),
            n > 0,
            d == ds@[0].point@.len(),
            g.wf(ds@),
            g.labels@.len() != 1,
            forall|t: int| 0 <= t < j ==> #[trigger] ds@[t].point@.len() == d,
        decreases n - j,
    {
        if ds[j].point.len() != d {
            assert(!same_dim(ds@)) by {
                assert(ds@[j as int].point@.len() != ds@[0].point@.len());
            }
            return Err(SilhouetteError::DimensionMismatch);
        }
        j = j + 1;
    }
    let cents = match cfg.mode {
        Mode::Exact => Vec::new(),
        Mode::CentroidMean => cluster_centroids(ds, &g, CentroidKind::Mean),
        Mode::CentroidMedian => cluster_centroids(ds, &g, CentroidKind::Median),
    };
    let mut scores: Vec<PointScore> = Vec::new();
    let mut i: usize = 0;
    while i < n
        invariant
            i <= n,
            n == ds@.len(),
            0 < n <= MAX_POINTS,
            forall|t: int| 0 <= t < n ==> #[trigger] ds@[t].point@.len() <= MAX_DIM,
            same_dim(ds@),
            g.wf(ds@),
            g.labels@.len() >= 2,
            cfg.mode != Mode::Exact ==> {
                &&& cents@.len() == g.labels@.len()
                &&& forall|c: int|
                    0 <= c < cents@.len() ==> {
                        &&& #[trigger] cents@[c]@.len() == ds@[0].point@.len()
                        &&& ints(cents@[c]@) == centroid_spec(
                            centroid_kind(cfg.mode),
                            members(ds@, g.labels@[c], ds@.len() as int),
                        )
                    }
            },
            scores@.len() == i,
            forall|t: int|
                0 <= t < i ==> score_matches(cfg, ds@, t, #[trigger] scores@[t]) && -SCALE
                    <= scores@[t].silhouette <= SCALE,
        decreases n - i,
    {
        let s = score_point(cfg, ds, &g, &cents, i);
        scores.push(s);
        i = i + 1;
    }
    let mean = mean_score(&scores);
    Ok(SilhouetteReport { scores, mean })
}

} // verus!
