use parabel::aggregate::accumulate;
use parabel::fixed::{exp_neg, mul_prob, sigmoid, MAX_VAL, SCALE};
use parabel::sparse::{dot, isqrt, l2_normalize, prune_with_threshold};

fn fx(x: f64) -> i64 {
    (x * SCALE as f64).round() as i64
}

#[test]
fn prune_drops_small_entries_exactly() {
    let v = vec![(0u32, 100i64), (1, -200), (2, 50), (7, 0)];
    let r = prune_with_threshold(&v, 100);
    assert_eq!(r, vec![(0u32, 100i64), (1, -200)]);
}

#[test]
fn prune_with_zero_threshold_keeps_everything() {
    let v = vec![(0u32, 1i64), (5, -3)];
    let r = prune_with_threshold(&v, 0);
    assert_eq!(r, v);
}

#[test]
fn prune_survivors_meet_threshold() {
    let v = vec![(0u32, 99i64), (1, -101), (2, 100), (3, -99)];
    let t = 100i64;
    let r = prune_with_threshold(&v, t);
    for &(_, value) in &r {
        assert!(value.abs() >= t);
    }
    assert_eq!(r.len(), 2);
}

#[test]
fn normalize_single_entry_is_exact() {
    let mut v = vec![(0u32, 5 * SCALE)];
    l2_normalize(&mut v);
    assert_eq!(v, vec![(0u32, SCALE)]);
}

#[test]
fn normalize_negative_single_entry_is_exact() {
    let mut v = vec![(3u32, -7 * SCALE)];
    l2_normalize(&mut v);
    assert_eq!(v, vec![(3u32, -SCALE)]);
}

#[test]
fn normalize_zero_vector_is_untouched() {
    let mut v = vec![(0u32, 0i64), (4, 0)];
    l2_normalize(&mut v);
    assert_eq!(v, vec![(0u32, 0i64), (4, 0)]);
}

#[test]
fn normalize_tiny_magnitudes_stay_unit_norm() {
    let mut v = vec![(0u32, 1i64), (1, 1)];
    l2_normalize(&mut v);
    let sum_sq: f64 = v
        .iter()
        .map(|&(_, x)| {
            let r = x as f64 / SCALE as f64;
            r * r
        })
        .sum();
    assert!((sum_sq - 1.0).abs() < 1e-5);
    let ssq: i64 = v.iter().map(|&(_, x)| x * x / SCALE).sum();
    assert!(ssq <= SCALE + 2);
}

#[test]
fn normalize_unit_norm_within_tolerance() {
    let mut v = vec![(0u32, SCALE), (2, 2 * SCALE), (9, -2 * SCALE)];
    l2_normalize(&mut v);
    let sum_sq: f64 = v
        .iter()
        .map(|&(_, x)| {
            let r = x as f64 / SCALE as f64;
            r * r
        })
        .sum();
    assert!((sum_sq - 1.0).abs() < 1e-5);
}

#[test]
fn dot_of_matching_units_is_scale_squared() {
    let a = vec![(0u32, SCALE)];
    let b = vec![(0u32, SCALE)];
    assert_eq!(dot(&a, &b), (SCALE as i128) * (SCALE as i128));
}

#[test]
fn dot_merges_on_indices() {
    let a = vec![(0u32, 2i64), (3, 5), (9, 7)];
    let b = vec![(1u32, 100i64), (3, 10), (9, -1)];
    assert_eq!(dot(&a, &b), 5 * 10 - 7);
}

#[test]
fn isqrt_exact_values() {
    assert_eq!(isqrt(0), 0);
    assert_eq!(isqrt(1), 1);
    assert_eq!(isqrt(3), 1);
    assert_eq!(isqrt(4), 2);
    assert_eq!(isqrt(99), 9);
    assert_eq!(isqrt(1 << 60), 1 << 30);
}

#[test]
fn exp_neg_at_zero_is_one_unit() {
    assert_eq!(exp_neg(0), SCALE);
}

#[test]
fn exp_neg_decays() {
    let e1 = exp_neg(SCALE);
    let expected = (-1.0f64).exp() * SCALE as f64;
    assert!((e1 as f64 - expected).abs() < 0.01 * SCALE as f64);
    assert!(exp_neg(20 * SCALE) <= 8);
}

#[test]
fn sigmoid_at_zero_is_half() {
    assert_eq!(sigmoid(0), SCALE / 2);
}

#[test]
fn sigmoid_is_monotone_and_bounded() {
    let lo = sigmoid(-4 * SCALE);
    let mid = sigmoid(0);
    let hi = sigmoid(4 * SCALE);
    assert!(0 <= lo && lo < mid && mid < hi && hi <= SCALE);
    let expected = 1.0 / (1.0 + (-4.0f64).exp());
    assert!((hi as f64 / SCALE as f64 - expected).abs() < 0.01);
}

#[test]
fn mul_prob_is_fixed_point_product() {
    assert_eq!(mul_prob(SCALE, SCALE), SCALE);
    assert_eq!(mul_prob(SCALE / 2, SCALE / 2), SCALE / 4);
    assert_eq!(mul_prob(0, SCALE), 0);
}

#[test]
fn values_stay_within_model_bound() {
    let v = vec![(0u32, fx(2.0)), (3, fx(-2.0))];
    for &(_, x) in &v {
        assert!(x.abs() <= MAX_VAL);
    }
}

#[test]
fn accumulate_adds_per_label_and_reports_overflow() {
    let mut acc = vec![(1u32, 5i64), (4, 7)];
    let ok = accumulate(&mut acc, &vec![(1u32, 10i64), (2, 3)]);
    assert!(ok);
    assert_eq!(acc, vec![(1u32, 15i64), (2, 3), (4, 7)]);

    let mut acc2 = vec![(0u32, MAX_VAL)];
    let ok2 = accumulate(&mut acc2, &vec![(0u32, 1i64)]);
    assert!(!ok2);
}
