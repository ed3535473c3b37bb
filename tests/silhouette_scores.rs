use silhouette::centroid::{compute_centroid, compute_mean, compute_median, CentroidKind};
use silhouette::engine::{
    coefficient, group, mean_score, silhouette, Config, Mode, PointScore, Sample, SilhouetteReport,
    SCALE,
};
use silhouette::error::SilhouetteError;
use silhouette::metric::{distance, Metric};

fn dataset(rows: &[(&[i32], i64)]) -> Vec<Sample> {
    rows.iter()
        .map(|(p, l)| Sample { point: p.to_vec(), label: *l })
        .collect()
}

fn run(rows: &[(&[i32], i64)], mode: Mode, metric: Metric) -> Result<SilhouetteReport, SilhouetteError> {
    silhouette(&dataset(rows), Config { mode, metric })
}

fn exact(rows: &[(&[i32], i64)]) -> SilhouetteReport {
    run(rows, Mode::Exact, Metric::Euclidean).unwrap()
}

#[test]
fn two_clusters_on_a_line() {
    let rep = exact(&[(&[0], 0), (&[1], 0), (&[10], 1), (&[11], 1)]);
    assert_eq!(rep.scores.len(), 4);
    for s in &rep.scores {
        assert_eq!((s.a_sum, s.a_count), (1, 1));
    }
    assert_eq!((rep.scores[0].b_sum, rep.scores[0].b_count), (21, 2));
    assert_eq!((rep.scores[1].b_sum, rep.scores[1].b_count), (19, 2));
    assert_eq!((rep.scores[2].b_sum, rep.scores[2].b_count), (19, 2));
    assert_eq!((rep.scores[3].b_sum, rep.scores[3].b_count), (21, 2));
    let sil: Vec<i64> = rep.scores.iter().map(|s| s.silhouette).collect();
    assert_eq!(sil, vec![904761, 894736, 894736, 904761]);
    assert_eq!(rep.mean, 899748);
    assert!(rep.mean > 800_000);
    for (i, s) in rep.scores.iter().enumerate() {
        assert_eq!(s.index, i);
    }
}

#[test]
fn empty_dataset_fails() {
    assert_eq!(run(&[], Mode::Exact, Metric::Euclidean).unwrap_err(), SilhouetteError::EmptyDataset);
    assert_eq!(group(&Vec::new()).unwrap_err(), SilhouetteError::EmptyDataset);
}

#[test]
fn mismatched_dimensions_fail() {
    assert_eq!(distance(Metric::Euclidean, &vec![1, 2], &vec![1, 2, 3]), Err(SilhouetteError::DimensionMismatch));
    assert_eq!(distance(Metric::Manhattan, &vec![1, 2, 3], &vec![1, 2]), Err(SilhouetteError::DimensionMismatch));
    let r = run(&[(&[0, 0], 0), (&[1, 1, 1], 1)], Mode::Exact, Metric::Euclidean);
    assert_eq!(r.unwrap_err(), SilhouetteError::DimensionMismatch);
    let r = run(&[(&[0, 0], 0), (&[1, 1], 0), (&[1, 1, 1], 1)], Mode::CentroidMean, Metric::Euclidean);
    assert_eq!(r.unwrap_err(), SilhouetteError::DimensionMismatch);
}

#[test]
fn single_cluster_fails() {
    let r = run(&[(&[0], 4), (&[5], 4), (&[9], 4)], Mode::Exact, Metric::Euclidean);
    assert_eq!(r.unwrap_err(), SilhouetteError::SingleClusterDataset);
    let r = run(&[(&[0], 4)], Mode::CentroidMedian, Metric::Manhattan);
    assert_eq!(r.unwrap_err(), SilhouetteError::SingleClusterDataset);
}

#[test]
fn coincident_clusters_score_zero() {
    let rep = exact(&[(&[3, 3], 0), (&[3, 3], 0), (&[3, 3], 1), (&[3, 3], 1)]);
    for s in &rep.scores {
        assert_eq!(s.silhouette, 0);
        assert_eq!(s.a_sum, 0);
        assert_eq!(s.b_sum, 0);
    }
    assert_eq!(rep.mean, 0);
}

#[test]
fn separated_clusters_score_one() {
    let rep = exact(&[(&[2, 2], 0), (&[2, 2], 0), (&[50, 60], 1), (&[50, 60], 1), (&[-9, 7], 2)]);
    for s in &rep.scores {
        assert_eq!(s.silhouette, SCALE);
    }
    assert_eq!(rep.mean, SCALE);
}

#[test]
fn score_grows_toward_one_with_separation() {
    let mut last = -SCALE - 1;
    let mut means = vec![];
    for d in [10, 100, 1000, 100000] {
        let rep = exact(&[(&[0], 0), (&[1], 0), (&[d], 1), (&[d + 1], 1)]);
        assert!(rep.mean > last);
        assert!(rep.mean < SCALE);
        last = rep.mean;
        means.push(rep.mean);
    }
    assert_eq!(&means[..3], &[899748, 989999, 998999]);
}

#[test]
fn singleton_clusters_modes_agree() {
    let rows: &[(&[i32], i64)] = &[(&[1, 2], 7), (&[5, 5], 3), (&[9, 0], 4), (&[-3, 8], 1)];
    for metric in [Metric::Euclidean, Metric::Manhattan] {
        let a = run(rows, Mode::Exact, metric).unwrap();
        let b = run(rows, Mode::CentroidMean, metric).unwrap();
        assert_eq!(a.scores, b.scores);
        assert_eq!(a.mean, b.mean);
    }
}

#[test]
fn centroid_modes_diverge_within_bound() {
    let rows: &[(&[i32], i64)] = &[
        (&[0, 0], 0), (&[3, 1], 0), (&[-2, 2], 0), (&[1, -3], 0),
        (&[20, 20], 1), (&[23, 18], 1), (&[17, 22], 1), (&[21, 24], 1),
        (&[40, 0], 2), (&[42, 3], 2), (&[38, -2], 2),
    ];
    let ex = run(rows, Mode::Exact, Metric::Euclidean).unwrap();
    let mean = run(rows, Mode::CentroidMean, Metric::Euclidean).unwrap();
    let median = run(rows, Mode::CentroidMedian, Metric::Euclidean).unwrap();
    assert_eq!(ex.mean, 856811);
    assert_eq!(mean.mean, 920549);
    assert_eq!(median.mean, 920549);
    assert_ne!(ex.mean, mean.mean);
    assert!((ex.mean - mean.mean).abs() <= 100_000);
}

#[test]
fn median_mode_scores() {
    let r = run(&[(&[0, 0], 0), (&[4, 0], 0), (&[0, 3], 1), (&[10, 10], 1)], Mode::CentroidMedian, Metric::Euclidean)
        .unwrap();
    let sil: Vec<i64> = r.scores.iter().map(|s| s.silhouette).collect();
    assert_eq!(sil, vec![714285, 666666, -400000, 500000]);
    assert_eq!(r.mean, 370237);
}

#[test]
fn manhattan_exact_scores() {
    let r = run(&[(&[0, 0], 0), (&[4, 0], 0), (&[0, 3], 1), (&[10, 10], 1)], Mode::Exact, Metric::Manhattan).unwrap();
    let sil: Vec<i64> = r.scores.iter().map(|s| s.silhouette).collect();
    assert_eq!(sil, vec![652173, 652173, -705882, 55555]);
    assert_eq!((r.scores[2].b_sum, r.scores[2].b_count), (10, 2));
    assert_eq!(r.mean, 163504);
}

#[test]
fn mean_stays_in_range() {
    let fixtures: Vec<Vec<(Vec<i32>, i64)>> = vec![
        vec![(vec![0], 0), (vec![100], 0), (vec![50], 1), (vec![51], 1)],
        vec![(vec![5, 5], 1), (vec![-5, -5], 2), (vec![5, -5], 1), (vec![-5, 5], 2), (vec![0, 0], 3)],
        vec![(vec![i32::MAX], 0), (vec![i32::MIN], 1), (vec![0], 0), (vec![1], 1)],
    ];
    for f in fixtures {
        let ds: Vec<Sample> = f.into_iter().map(|(point, label)| Sample { point, label }).collect();
        for mode in [Mode::Exact, Mode::CentroidMean, Mode::CentroidMedian] {
            let rep = silhouette(&ds, Config { mode, metric: Metric::Euclidean }).unwrap();
            assert!(-SCALE <= rep.mean && rep.mean <= SCALE);
            for s in &rep.scores {
                assert!(-SCALE <= s.silhouette && s.silhouette <= SCALE);
            }
        }
    }
}

#[test]
fn singleton_cluster_has_zero_cohesion() {
    let rep = exact(&[(&[0], 0), (&[2], 0), (&[9], 1)]);
    assert_eq!((rep.scores[2].a_sum, rep.scores[2].a_count), (0, 1));
    assert_eq!(rep.scores[2].silhouette, SCALE);
}

#[test]
fn distances() {
    assert_eq!(distance(Metric::Euclidean, &vec![0, 0], &vec![3, 4]), Ok(5));
    assert_eq!(distance(Metric::Euclidean, &vec![0, 0], &vec![1, 1]), Ok(1));
    assert_eq!(distance(Metric::Euclidean, &vec![i32::MIN], &vec![i32::MAX]), Ok(4294967295));
    assert_eq!(distance(Metric::Manhattan, &vec![0, 0], &vec![3, -4]), Ok(7));
    assert_eq!(distance(Metric::Manhattan, &vec![], &vec![]), Ok(0));
    assert_eq!(distance(Metric::Euclidean, &vec![7, -7], &vec![7, -7]), Ok(0));
}

#[test]
fn coefficients() {
    assert_eq!(coefficient(1, 1, 21, 2), 904761);
    assert_eq!(coefficient(0, 1, 0, 1), 0);
    assert_eq!(coefficient(3, 1, 1, 1), -666666);
    assert_eq!(coefficient(0, 1, 8, 3), SCALE);
    assert_eq!(coefficient(5, 1, 0, 1), -SCALE);
    assert_eq!(coefficient(4, 2, 2, 1), 0);
}

#[test]
fn means_of_scores() {
    let mk = |s: i64| PointScore { index: 0, a_sum: 0, a_count: 1, b_sum: 0, b_count: 1, silhouette: s };
    assert_eq!(mean_score(&vec![mk(1), mk(2)]), 1);
    assert_eq!(mean_score(&vec![mk(-1), mk(-2)]), -1);
    assert_eq!(mean_score(&vec![mk(SCALE), mk(-SCALE), mk(SCALE)]), 333333);
}

#[test]
fn means_and_medians_of_values() {
    assert_eq!(compute_mean(&vec![1, 2, 4]), 2);
    assert_eq!(compute_mean(&vec![-1, -2]), -2);
    assert_eq!(compute_mean(&vec![i32::MIN, i32::MIN]), i32::MIN);
    assert_eq!(compute_median(&vec![3, 1, 2]), 2);
    assert_eq!(compute_median(&vec![4, 1, 3, 2]), 2);
    assert_eq!(compute_median(&vec![-1, -2]), -2);
    assert_eq!(compute_median(&vec![9]), 9);
    assert_eq!(compute_median(&vec![5, 5, 1, 5, 9, 9]), 5);
}

#[test]
fn centroids() {
    let pts = vec![vec![0, 0], vec![2, 4], vec![4, 2]];
    assert_eq!(compute_centroid(&pts, CentroidKind::Mean), Ok(vec![2, 2]));
    assert_eq!(compute_centroid(&pts, CentroidKind::Median), Ok(vec![2, 2]));
    let pts = vec![vec![0, 10], vec![1, 0], vec![9, 1]];
    assert_eq!(compute_centroid(&pts, CentroidKind::Mean), Ok(vec![3, 3]));
    assert_eq!(compute_centroid(&pts, CentroidKind::Median), Ok(vec![1, 1]));
    assert_eq!(compute_centroid(&vec![], CentroidKind::Mean), Err(SilhouetteError::EmptyCluster));
    assert_eq!(
        compute_centroid(&vec![vec![1], vec![1, 2]], CentroidKind::Median),
        Err(SilhouetteError::DimensionMismatch)
    );
}

#[test]
fn grouping_keeps_first_appearance() {
    let ds = dataset(&[(&[0], 5), (&[1], 3), (&[2], 5), (&[3], 7)]);
    let g = group(&ds).unwrap();
    assert_eq!(g.labels, vec![5, 3, 7]);
    assert_eq!(g.cluster_of, vec![0, 1, 0, 2]);
}
