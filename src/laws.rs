use vstd::prelude::*;

use crate::centroid::{centroid_spec, column, mean_of, seq_sum, CentroidKind};
use crate::engine::{
    cluster_labels,
    cohesion,
    coefficient_spec,
    label_order,
    lemma_label_order,
    members,
    nearest,
    pair_sum,
    peer_count,
    pt,
    ref_frac,
    report_matches,
    separation,
    sil_sum,
    Config,
    Mode,
    PointScore,
    Sample,
    SilhouetteReport,
    SCALE,
};
use crate::metric::{dist, ints, lemma_metric_laws, Metric};

verus! {

pub open spec fn exact(m: Metric) -> Config {
    Config { mode: Mode::Exact, metric: m }
}

proof fn lemma_pair_sum_zero(m: Metric, ds: Seq<Sample>, i: int, lab: i64, upto: int)
    requires
        upto <= ds.len(),
        forall|q: int| 0 <= q < upto ==> dist(m, pt(ds, i), #[trigger] pt(ds, q)) == 0,
    ensures
        pair_sum(m, ds, i, lab, upto) == 0,
    decreases upto,
{
    if upto > 0 {
        lemma_pair_sum_zero(m, ds, i, lab, upto - 1);
        assert(dist(m, pt(ds, i), pt(ds, upto - 1)) == 0);
    }
}

/// A sum whose every term is positive is positive once it has a term.
proof fn lemma_pair_sum_pos(m: Metric, ds: Seq<Sample>, i: int, lab: i64, upto: int)
    requires
        upto <= ds.len(),
        forall|q: int|
            0 <= q < upto && q != i && ds[q].label == lab ==> dist(m, pt(ds, i), #[trigger] pt(ds, q))
                > 0,
    ensures
        pair_sum(m, ds, i, lab, upto) >= 0,
        (exists|q: int| 0 <= q < upto && q != i && ds[q].label == lab) ==> pair_sum(
            m,
            ds,
            i,
            lab,
            upto,
        ) > 0,
    decreases upto,
{
    if upto > 0 {
        lemma_pair_sum_pos(m, ds, i, lab, upto - 1);
        if upto - 1 != i && ds[upto - 1].label == lab {
            assert(dist(m, pt(ds, i), pt(ds, upto - 1)) > 0);
        } else if exists|q: int| 0 <= q < upto && q != i && ds[q].label == lab {
            let q = choose|q: int| 0 <= q < upto && q != i && ds[q].label == lab;
            assert(q < upto - 1);
        }
    }
}

/// Once a label other than the point's own has been seen, the nearest
/// cluster is one of those labels.
proof fn lemma_nearest_some(cfg: Config, ds: Seq<Sample>, i: int, labels: Seq<i64>, c: int)
    requires
        0 <= c <= labels.len(),
        exists|t: int| 0 <= t < c && labels[t] != ds[i].label,
    ensures
        exists|t: int|
            0 <= t < c && labels[t] != ds[i].label && nearest(cfg, ds, i, labels, c) == Some(
                ref_frac(cfg, ds, i, #[trigger] labels[t]),
            ),
    decreases c,
{
    let l = labels[c - 1];
    if exists|t: int| 0 <= t < c - 1 && labels[t] != ds[i].label {
        lemma_nearest_some(cfg, ds, i, labels, c - 1);
        let t = choose|t: int|
            0 <= t < c - 1 && labels[t] != ds[i].label && nearest(cfg, ds, i, labels, c - 1)
                == Some(ref_frac(cfg, ds, i, #[trigger] labels[t]));
        if l != ds[i].label {
            let f = ref_frac(cfg, ds, i, l);
            let g = ref_frac(cfg, ds, i, labels[t]);
            if f.0 * g.1 < g.0 * f.1 {
                assert(nearest(cfg, ds, i, labels, c) == Some(ref_frac(cfg, ds, i, labels[c - 1])));
            } else {
                assert(nearest(cfg, ds, i, labels, c) == Some(ref_frac(cfg, ds, i, labels[t])));
            }
        } else {
            assert(nearest(cfg, ds, i, labels, c) == Some(ref_frac(cfg, ds, i, labels[t])));
        }
    } else {
        assert(l != ds[i].label);
        assert(nearest(cfg, ds, i, labels, c - 1) == None::<(int, int)>) by {
            lemma_nearest_none(cfg, ds, i, labels, c - 1);
        }
        assert(nearest(cfg, ds, i, labels, c) == Some(ref_frac(cfg, ds, i, labels[c - 1])));
    }
}

proof fn lemma_nearest_none(cfg: Config, ds: Seq<Sample>, i: int, labels: Seq<i64>, c: int)
    requires
        0 <= c <= labels.len(),
        forall|t: int| 0 <= t < c ==> labels[t] == ds[i].label,
    ensures
        nearest(cfg, ds, i, labels, c) == None::<(int, int)>,
    decreases c,
{
    if c > 0 {
        lemma_nearest_none(cfg, ds, i, labels, c - 1);
    }
}

/// The nearest cluster depends only on the dissimilarities to the other clusters.
proof fn lemma_nearest_agree(
    c1: Config,
    c2: Config,
    ds: Seq<Sample>,
    i: int,
    labels: Seq<i64>,
    c: int,
)
    requires
        0 <= c <= labels.len(),
        forall|t: int|
            0 <= t < c && labels[t] != ds[i].label ==> ref_frac(c1, ds, i, #[trigger] labels[t])
                == ref_frac(c2, ds, i, labels[t]),
    ensures
        nearest(c1, ds, i, labels, c) == nearest(c2, ds, i, labels, c),
    decreases c,
{
    if c > 0 {
        lemma_nearest_agree(c1, c2, ds, i, labels, c - 1);
    }
}

/// Coincident points: when every distance between two points of the dataset
/// is zero, every point's exact silhouette coefficient is zero.
pub proof fn lemma_coincident_points_score_zero(m: Metric, ds: Seq<Sample>, i: int)
    requires
        0 <= i < ds.len(),
        forall|p: int, q: int|
            0 <= p < ds.len() && 0 <= q < ds.len() ==> dist(m, #[trigger] pt(ds, p), #[trigger] pt(ds, q))
                == 0,
    ensures
        coefficient_spec(cohesion(exact(m), ds, i), separation(exact(m), ds, i)) == 0,
{
    let cfg = exact(m);
    let labels = cluster_labels(ds);
    assert forall|lab: i64| #[trigger] ref_frac(cfg, ds, i, lab).0 == 0 by {
        assert forall|q: int| 0 <= q < ds.len() implies dist(m, pt(ds, i), #[trigger] pt(ds, q)) == 0 by {
            assert(dist(m, pt(ds, i), pt(ds, q)) == 0);
        }
        lemma_pair_sum_zero(m, ds, i, lab, ds.len() as int);
    }
    lemma_label_order(ds, ds.len() as int);
    if exists|t: int| 0 <= t < labels.len() && labels[t] != ds[i].label {
        lemma_nearest_some(cfg, ds, i, labels, labels.len() as int);
        let t = choose|t: int|
            0 <= t < labels.len() && labels[t] != ds[i].label && nearest(cfg, ds, i, labels, labels.len() as int)
                == Some(ref_frac(cfg, ds, i, #[trigger] labels[t]));
        assert(ref_frac(cfg, ds, i, labels[t]).0 == 0);
    } else {
        lemma_nearest_none(cfg, ds, i, labels, labels.len() as int);
    }
    assert(ref_frac(cfg, ds, i, ds[i].label).0 == 0);
    let a = cohesion(cfg, ds, i);
    let b = separation(cfg, ds, i);
    assert(a.0 == 0 && b.0 == 0);
    assert(a.0 * b.1 == 0 && b.0 * a.1 == 0);
}

/// Perfectly separated clusters: when points of one cluster are at distance
/// zero from each other and at a positive distance from every point of
/// another cluster, every exact coefficient is one, and so is their mean.
pub proof fn lemma_separated_clusters_score_one(m: Metric, ds: Seq<Sample>)
    requires
        cluster_labels(ds).len() >= 2,
        forall|p: int, q: int|
            0 <= p < ds.len() && 0 <= q < ds.len() && ds[p].label == ds[q].label ==> dist(
                m,
                #[trigger] pt(ds, p),
                #[trigger] pt(ds, q),
            ) == 0,
        forall|p: int, q: int|
            0 <= p < ds.len() && 0 <= q < ds.len() && ds[p].label != ds[q].label ==> dist(
                m,
                #[trigger] pt(ds, p),
                #[trigger] pt(ds, q),
            ) > 0,
    ensures
        forall|i: int|
            0 <= i < ds.len() ==> coefficient_spec(
                cohesion(exact(m), ds, i),
                #[trigger] separation(exact(m), ds, i),
            ) == SCALE,
        forall|rep: SilhouetteReport| #[trigger]
            report_matches(exact(m), ds, rep) ==> rep.mean == SCALE,
{
    let cfg = exact(m);
    let labels = cluster_labels(ds);
    let n = ds.len() as int;
    lemma_label_order(ds, n);
    assert forall|i: int| 0 <= i < n implies coefficient_spec(
        cohesion(cfg, ds, i),
        #[trigger] separation(cfg, ds, i),
    ) == SCALE by {
        let own = ds[i].label;
        assert forall|q: int| 0 <= q < n && ds[q].label == own implies dist(
            m,
            pt(ds, i),
            #[trigger] pt(ds, q),
        ) == 0 by {
            assert(dist(m, pt(ds, i), pt(ds, q)) == 0);
        }
        lemma_pair_sum_zero_own(m, ds, i, own, n);
        let a = cohesion(cfg, ds, i);
        assert(a.0 == 0 && a.1 >= 1) by {
            lemma_peer_count_nonneg(ds, i, own, n);
        }
        let other = if labels[0] != own {
            0int
        } else {
            assert(labels[1] != labels[0]);
            1int
        };
        assert(labels[other] != own);
        lemma_nearest_some(cfg, ds, i, labels, labels.len() as int);
        let t = choose|t: int|
            0 <= t < labels.len() && labels[t] != own && nearest(cfg, ds, i, labels, labels.len() as int)
                == Some(ref_frac(cfg, ds, i, #[trigger] labels[t]));
        let lab = labels[t];
        assert forall|q: int| 0 <= q < n && q != i && ds[q].label == lab implies dist(
            m,
            pt(ds, i),
            #[trigger] pt(ds, q),
        ) > 0 by {
            assert(dist(m, pt(ds, i), pt(ds, q)) > 0);
        }
        let w = choose|w: int| 0 <= w < n && ds[w].label == label_order(ds, n)[t];
        assert(w != i);
        lemma_pair_sum_pos(m, ds, i, lab, n);
        lemma_peer_count_nonneg(ds, i, lab, n);
        let b = separation(cfg, ds, i);
        assert(b.0 > 0);
        assert(a.0 * b.1 == 0);
        assert(b.0 * a.1 > 0) by (nonlinear_arith)
            requires
                b.0 > 0,
                a.1 >= 1,
        ;
        let rhs = b.0 * a.1;
        assert((SCALE * rhs) / rhs == SCALE) by {
            vstd::arithmetic::div_mod::lemma_div_multiples_vanish(SCALE as int, rhs);
            assert(SCALE * rhs == rhs * SCALE) by (nonlinear_arith);
        }
    }
    assert forall|rep: SilhouetteReport| #[trigger]
        report_matches(cfg, ds, rep) implies rep.mean == SCALE by {
        lemma_sil_sum_all(rep.scores@, n);
        assert(n > 0);
        vstd::arithmetic::div_mod::lemma_div_multiples_vanish(SCALE as int, n);
        assert(n * SCALE == SCALE * n) by (nonlinear_arith);
    }
}

proof fn lemma_pair_sum_zero_own(m: Metric, ds: Seq<Sample>, i: int, lab: i64, upto: int)
    requires
        upto <= ds.len(),
        forall|q: int| 0 <= q < upto && ds[q].label == lab ==> dist(m, pt(ds, i), #[trigger] pt(ds, q)) == 0,
    ensures
        pair_sum(m, ds, i, lab, upto) == 0,
    decreases upto,
{
    if upto > 0 {
        lemma_pair_sum_zero_own(m, ds, i, lab, upto - 1);
        if ds[upto - 1].label == lab {
            assert(dist(m, pt(ds, i), pt(ds, upto - 1)) == 0);
        }
    }
}

proof fn lemma_peer_count_nonneg(ds: Seq<Sample>, i: int, lab: i64, upto: int)
    ensures
        peer_count(ds, i, lab, upto) >= 0,
    decreases upto,
{
    if upto > 0 {
        lemma_peer_count_nonneg(ds, i, lab, upto - 1);
    }
}

proof fn lemma_sil_sum_all(scores: Seq<PointScore>, upto: int)
    requires
        0 <= upto <= scores.len(),
        forall|i: int| 0 <= i < upto ==> #[trigger] scores[i].silhouette == SCALE,
    ensures
        sil_sum(scores, upto) == upto * SCALE,
    decreases upto,
{
    if upto > 0 {
        lemma_sil_sum_all(scores, upto - 1);
        assert((upto - 1) * SCALE + SCALE == upto * SCALE) by (nonlinear_arith);
    }
}

pub open spec fn centroid_mean(m: Metric) -> Config {
    Config { mode: Mode::CentroidMean, metric: m }
}

/// Every cluster of the dataset has exactly one member.
pub open spec fn singleton_clusters(ds: Seq<Sample>) -> bool {
    forall|p: int, q: int|
        0 <= p < ds.len() && 0 <= q < ds.len() && p != q ==> #[trigger] ds[p].label
            != #[trigger] ds[q].label
}

proof fn lemma_single_point_mean(p: Seq<i32>)
    ensures
        centroid_spec(CentroidKind::Mean, seq![p]) == ints(p),
{
    let c = centroid_spec(CentroidKind::Mean, seq![p]);
    assert forall|k: int| 0 <= k < p.len() implies c[k] == ints(p)[k] by {
        let col = column(seq![p], k);
        assert(col.len() == 1);
        assert(col[0] == p[k]);
        assert(seq_sum(col, 1) == seq_sum(col, 0) + col[0]);
        assert(mean_of(col) == p[k] as int);
    }
    assert(c =~= ints(p));
}

/// What a cluster of one member `j` contributes, over the first `upto` points.
proof fn lemma_unique_member(m: Metric, ds: Seq<Sample>, i: int, j: int, upto: int)
    requires
        singleton_clusters(ds),
        0 <= j < ds.len(),
        0 <= upto <= ds.len(),
    ensures
        members(ds, ds[j].label, upto) == (if j < upto {
            seq![ds[j].point@]
        } else {
            Seq::<Seq<i32>>::empty()
        }),
        pair_sum(m, ds, i, ds[j].label, upto) == (if j < upto && j != i {
            dist(m, pt(ds, i), pt(ds, j))
        } else {
            0
        }),
        peer_count(ds, i, ds[j].label, upto) == (if j < upto && j != i {
            1int
        } else {
            0
        }),
    decreases upto,
{
    if upto > 0 {
        lemma_unique_member(m, ds, i, j, upto - 1);
        if upto - 1 != j {
            assert(ds[upto - 1].label != ds[j].label);
        } else {
            assert(seq![ds[j].point@] =~= Seq::<Seq<i32>>::empty().push(ds[j].point@));
        }
    }
}

/// With one member per cluster, the centroid-mean mode measures the same
/// cohesion and separation as the exact mode, so both give the same
/// coefficient.
pub proof fn lemma_singleton_clusters_modes_agree(m: Metric, ds: Seq<Sample>, i: int)
    requires
        0 <= i < ds.len(),
        singleton_clusters(ds),
    ensures
        cohesion(exact(m), ds, i) == cohesion(centroid_mean(m), ds, i),
        separation(exact(m), ds, i) == separation(centroid_mean(m), ds, i),
        coefficient_spec(cohesion(exact(m), ds, i), separation(exact(m), ds, i))
            == coefficient_spec(cohesion(centroid_mean(m), ds, i), separation(centroid_mean(m), ds, i)),
{
    let n = ds.len() as int;
    let labels = cluster_labels(ds);
    lemma_label_order(ds, n);
    lemma_unique_member(m, ds, i, i, n);
    lemma_single_point_mean(ds[i].point@);
    lemma_metric_laws(m, pt(ds, i), pt(ds, i));
    assert(ref_frac(exact(m), ds, i, ds[i].label) == (0int, 0int));
    assert(ref_frac(centroid_mean(m), ds, i, ds[i].label) == (0int, 1int));
    assert forall|t: int|
        0 <= t < labels.len() && labels[t] != ds[i].label implies ref_frac(
        exact(m),
        ds,
        i,
        #[trigger] labels[t],
    ) == ref_frac(centroid_mean(m), ds, i, labels[t]) by {
        let j = choose|j: int| 0 <= j < n && ds[j].label == label_order(ds, n)[t];
        assert(j != i);
        lemma_unique_member(m, ds, i, j, n);
        lemma_single_point_mean(ds[j].point@);
    }
    lemma_nearest_agree(exact(m), centroid_mean(m), ds, i, labels, labels.len() as int);
}

} // verus!
