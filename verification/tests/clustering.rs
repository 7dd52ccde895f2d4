use parabel::cluster::{balanced_2means, balanced_2means_iterate, side_centroid};
use parabel::fixed::SCALE;
use parabel::sparse::IndexValueVec;

fn fx(x: f64) -> i64 {
    (x * SCALE as f64).round() as i64
}

fn scenario_vectors() -> Vec<IndexValueVec> {
    let r75 = 0.75f64.sqrt();
    vec![
        vec![(0u32, SCALE)],
        vec![(1u32, -SCALE)],
        vec![(0u32, fx(0.5)), (1, fx(r75))],
        vec![(0u32, fx(-r75)), (1, fx(-0.5))],
    ]
}

fn scenario_centroids() -> (IndexValueVec, IndexValueVec) {
    let r5 = 0.5f64.sqrt();
    (
        vec![(0u32, fx(r5)), (1, fx(r5))],
        vec![(0u32, fx(-r5)), (1, fx(-r5))],
    )
}

#[test]
fn single_iteration_partition_and_similarity() {
    let vectors = scenario_vectors();
    let (c0, c1) = scenario_centroids();
    let (partition, sim_sum) = balanced_2means_iterate(&vectors, &c0, &c1);
    assert_eq!(partition, vec![false, true, false, true]);
    let avg = sim_sum as f64 / (4.0 * SCALE as f64 * SCALE as f64);
    assert!((avg - 0.8365163).abs() < 1e-3);
}

#[test]
fn single_iteration_new_centroids() {
    let vectors = scenario_vectors();
    let (c0, c1) = scenario_centroids();
    let (partition, _) = balanced_2means_iterate(&vectors, &c0, &c1);
    let nc0 = side_centroid(&vectors, &partition, false).unwrap();
    let nc1 = side_centroid(&vectors, &partition, true).unwrap();
    let r75 = 0.75f64.sqrt();
    let tol = 3.0;
    assert_eq!(nc0.len(), 2);
    assert_eq!(nc0[0].0, 0);
    assert!((nc0[0].1 as f64 - fx(r75) as f64).abs() <= tol);
    assert_eq!(nc0[1].0, 1);
    assert!((nc0[1].1 as f64 - fx(0.5) as f64).abs() <= tol);
    assert_eq!(nc1.len(), 2);
    assert_eq!(nc1[0].0, 0);
    assert!((nc1[0].1 as f64 - fx(-0.5) as f64).abs() <= tol);
    assert_eq!(nc1[1].0, 1);
    assert!((nc1[1].1 as f64 - fx(-r75) as f64).abs() <= tol);
}

#[test]
fn eight_vectors_split_four_four() {
    let mut vectors = scenario_vectors();
    vectors.extend(scenario_vectors());
    let (partition, _sims) = balanced_2means(&vectors, 105, 0x5eed).unwrap();
    assert_eq!(partition.len(), 8);
    let trues = partition.iter().filter(|&&b| b).count();
    assert_eq!(trues, 4);
    assert_eq!(partition.len() - trues, 4);
}

#[test]
fn odd_count_splits_off_by_one() {
    let mut vectors = scenario_vectors();
    vectors.push(vec![(0u32, SCALE)]);
    let (partition, _sims) = balanced_2means(&vectors, 105, 7).unwrap();
    let trues = partition.iter().filter(|&&b| b).count() as i64;
    let falses = partition.len() as i64 - trues;
    assert!((trues - falses).abs() <= 1);
}

#[test]
fn similarity_trace_is_monotone() {
    let mut vectors = scenario_vectors();
    vectors.extend(scenario_vectors());
    let (_partition, sims) = balanced_2means(&vectors, 1, 42).unwrap();
    assert!(sims.len() >= 1);
    for k in 0..sims.len() - 1 {
        assert!(sims[k] <= sims[k + 1]);
    }
}
