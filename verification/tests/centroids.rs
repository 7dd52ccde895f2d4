use parabel::centroid::{compute_feature_vectors_per_label, Example};
use parabel::fixed::SCALE;

fn fx(x: f64) -> i64 {
    (x * SCALE as f64).round() as i64
}

fn scenario_examples() -> Vec<Example> {
    vec![
        Example { features: vec![(0u32, SCALE), (2, 2 * SCALE)], labels: vec![0, 1] },
        Example { features: vec![(1u32, SCALE), (3, 2 * SCALE)], labels: vec![0, 2] },
        Example { features: vec![(0u32, SCALE), (3, 2 * SCALE)], labels: vec![1, 2] },
    ]
}

#[test]
fn label_centroids_scenario() {
    let threshold = fx(1.0 / 18.0f64.sqrt() + 1e-4);
    let (labels, vectors) = compute_feature_vectors_per_label(&scenario_examples(), threshold)
        .unwrap();
    assert_eq!(labels, vec![0, 1, 2]);
    assert_eq!(vectors.len(), 3);

    let tol = 4.0;
    let s10 = 10.0f64.sqrt();
    let expect0 = [(0u32, 1.0 / s10), (1, 1.0 / s10), (2, 2.0 / s10), (3, 2.0 / s10)];
    assert_eq!(vectors[0].len(), 4);
    for (got, want) in vectors[0].iter().zip(expect0.iter()) {
        assert_eq!(got.0, want.0);
        assert!((got.1 as f64 - fx(want.1) as f64).abs() <= tol);
    }

    let s12 = 12.0f64.sqrt();
    let expect1 = [(0u32, 2.0 / s12), (2, 2.0 / s12), (3, 2.0 / s12)];
    assert_eq!(vectors[1].len(), 3);
    for (got, want) in vectors[1].iter().zip(expect1.iter()) {
        assert_eq!(got.0, want.0);
        assert!((got.1 as f64 - fx(want.1) as f64).abs() <= tol);
    }

    let s18 = 18.0f64.sqrt();
    assert_eq!(vectors[2].len(), 1);
    assert_eq!(vectors[2][0].0, 3);
    assert!((vectors[2][0].1 as f64 - fx(4.0 / s18) as f64).abs() <= tol);
}

#[test]
fn centroids_of_no_examples_are_empty() {
    let (labels, vectors) = compute_feature_vectors_per_label(&Vec::new(), 0).unwrap();
    assert!(labels.is_empty());
    assert!(vectors.is_empty());
}
