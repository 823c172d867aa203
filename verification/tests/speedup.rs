use hyperfine::analysis::bootstrap::PercentilePositions;
use hyperfine::analysis::{compute_log_ratios, compute_speedup_with_ci, speedup_from_log_ratios};
use hyperfine::number::Real;
use rand::SeedableRng;
use rand_chacha::ChaCha8Rng;

fn number(x: f64) -> Real {
    Real::from_bits(x.to_bits())
}

fn float(r: Real) -> f64 {
    f64::from_bits(r.bits)
}

fn numbers(values: &[f64]) -> Vec<Real> {
    values.iter().map(|x| number(*x)).collect()
}

fn mean(samples: &[Real]) -> Real {
    let sum: f64 = samples.iter().map(|r| float(*r)).sum();
    number(sum / samples.len() as f64)
}

fn log_ratio(cmd: Real, reference: Real) -> Real {
    number(float(cmd).ln() - float(reference).ln())
}

fn exp_neg(x: Real) -> Real {
    number((-float(x)).exp())
}

fn positions(confidence: f64, resamples: usize) -> PercentilePositions {
    let alpha = 1.0 - confidence;
    PercentilePositions {
        lower: ((alpha / 2.0) * resamples as f64).floor() as usize,
        upper: ((1.0 - alpha / 2.0) * resamples as f64).ceil() as usize,
    }
}

fn ratios(cmd_times: &[f64], ref_times: &[f64]) -> Vec<f64> {
    compute_log_ratios(&numbers(cmd_times), &numbers(ref_times), &log_ratio)
        .into_iter()
        .map(float)
        .collect()
}

fn speedup(log_ratios: &[f64]) -> f64 {
    float(speedup_from_log_ratios(&numbers(log_ratios), &mean, &exp_neg))
}

fn speedup_with_ci(cmd_times: &[f64], ref_times: &[f64], seed: u64) -> (f64, f64, f64) {
    let mut rng = ChaCha8Rng::seed_from_u64(seed);
    let (speedup, ci_lower, ci_upper) = compute_speedup_with_ci(
        &numbers(cmd_times),
        &numbers(ref_times),
        positions(0.95, 10000),
        10000,
        &log_ratio,
        &mean,
        &exp_neg,
        &mut rng,
    );
    (float(speedup), float(ci_lower), float(ci_upper))
}

#[test]
fn test_compute_log_ratios_equal_times() {
    let cmd_times = vec![1.0, 2.0, 3.0];
    let ref_times = vec![1.0, 2.0, 3.0];

    let log_ratios = ratios(&cmd_times, &ref_times);

    assert_eq!(log_ratios.len(), 3);
    for ratio in log_ratios {
        assert!((ratio - 0.0).abs() < 1e-10, "Expected 0.0, got {}", ratio);
    }
}

#[test]
fn test_compute_log_ratios_cmd_faster() {
    // Command takes half the time of reference
    let cmd_times = vec![0.5, 0.5, 0.5];
    let ref_times = vec![1.0, 1.0, 1.0];

    let log_ratios = ratios(&cmd_times, &ref_times);

    // log(0.5) - log(1.0) = -ln(2) = -0.693...
    for ratio in log_ratios {
        assert!((ratio - (-std::f64::consts::LN_2)).abs() < 1e-10);
    }
}

#[test]
fn test_compute_log_ratios_cmd_slower() {
    // Command takes double the time of reference
    let cmd_times = vec![2.0, 2.0, 2.0];
    let ref_times = vec![1.0, 1.0, 1.0];

    let log_ratios = ratios(&cmd_times, &ref_times);

    // log(2) - log(1) = ln(2) = 0.693...
    for ratio in log_ratios {
        assert!((ratio - std::f64::consts::LN_2).abs() < 1e-10);
    }
}

#[test]
fn test_compute_log_ratios_different_lengths() {
    let cmd_times = vec![1.0, 2.0, 3.0, 4.0];
    let ref_times = vec![1.0, 2.0];

    let log_ratios = ratios(&cmd_times, &ref_times);

    assert_eq!(log_ratios.len(), 2);
}

#[test]
fn test_speedup_from_log_ratios_equal() {
    let log_ratios = vec![0.0, 0.0, 0.0];
    let speedup = speedup(&log_ratios);
    assert!((speedup - 1.0).abs() < 1e-10);
}

#[test]
fn test_speedup_from_log_ratios_faster() {
    // Negative log-ratio means cmd is faster
    let log_ratios = vec![-std::f64::consts::LN_2; 3];
    let speedup = speedup(&log_ratios);
    // exp(-(-ln(2))) = exp(ln(2)) = 2.0
    assert!((speedup - 2.0).abs() < 1e-10);
}

#[test]
fn test_speedup_from_log_ratios_slower() {
    // Positive log-ratio means cmd is slower
    let log_ratios = vec![std::f64::consts::LN_2; 3];
    let speedup = speedup(&log_ratios);
    // exp(-ln(2)) = 1/2 = 0.5
    assert!((speedup - 0.5).abs() < 1e-10);
}

#[test]
fn test_speedup_from_log_ratios_empty() {
    let log_ratios: Vec<f64> = vec![];
    let speedup = speedup(&log_ratios);
    assert!(speedup.is_nan());
}

#[test]
fn test_compute_speedup_with_ci() {
    // Command is 2x faster
    let cmd_times = vec![0.5, 0.5, 0.5, 0.5, 0.5, 0.5, 0.5, 0.5, 0.5, 0.5];
    let ref_times = vec![1.0, 1.0, 1.0, 1.0, 1.0, 1.0, 1.0, 1.0, 1.0, 1.0];

    let (speedup, ci_lower, ci_upper) = speedup_with_ci(&cmd_times, &ref_times, 42);

    // Speedup should be 2.0
    assert!((speedup - 2.0).abs() < 1e-10);
    // With constant data, CI should be exactly 2.0 (no variance)
    assert!((ci_lower - 2.0).abs() < 1e-10);
    assert!((ci_upper - 2.0).abs() < 1e-10);
}

#[test]
fn test_compute_speedup_with_ci_noisy() {
    // Add some noise
    let cmd_times = vec![0.45, 0.50, 0.55, 0.48, 0.52, 0.47, 0.53, 0.49, 0.51, 0.50];
    let ref_times = vec![1.0, 1.0, 1.0, 1.0, 1.0, 1.0, 1.0, 1.0, 1.0, 1.0];

    let (speedup, ci_lower, ci_upper) = speedup_with_ci(&cmd_times, &ref_times, 42);

    // Speedup should be around 2.0
    assert!(speedup > 1.8 && speedup < 2.2);
    // CI should be wider due to noise
    assert!(ci_lower < ci_upper);
    // CI should contain the point estimate
    assert!(ci_lower <= speedup && speedup <= ci_upper);
}

#[test]
fn log_ratios_pair_the_samples_in_order() {
    assert_eq!(
        ratios(&[4.0, 3.0, 9.0], &[2.0, 5.0]),
        vec![4f64.ln() - 2f64.ln(), 3f64.ln() - 5f64.ln()]
    );
}

#[test]
fn same_seed_gives_the_same_speedup() {
    let cmd_times = [0.9, 1.1, 1.3, 0.7];
    let ref_times = [1.0, 1.2, 0.8, 1.4];
    let first = speedup_with_ci(&cmd_times, &ref_times, 9);
    assert_eq!(first, speedup_with_ci(&cmd_times, &ref_times, 9));
    assert!(first.1 <= first.2);
}

#[test]
fn no_pairs_give_no_speedup() {
    let (speedup, ci_lower, ci_upper) = speedup_with_ci(&[1.0, 2.0], &[], 1);
    assert!(speedup.is_nan());
    assert!(ci_lower.is_nan());
    assert!(ci_upper.is_nan());
}

#[test]
fn never_slower_means_no_slowdown() {
    let cmd_times = [0.9, 1.2, 0.7, 1.0, 2.0];
    let ref_times = [0.9, 1.3, 0.9, 1.0, 2.5];
    let (speedup, ci_lower, ci_upper) = speedup_with_ci(&cmd_times, &ref_times, 8);
    assert!(speedup >= 1.0 && ci_lower >= 1.0 && ci_upper >= 1.0);

    let (speedup, ci_lower, ci_upper) = speedup_with_ci(&ref_times, &cmd_times, 8);
    assert!(speedup <= 1.0 && ci_lower <= 1.0 && ci_upper <= 1.0);
}

#[test]
fn speedup_is_a_geometric_mean() {
    // The command is twice as fast in one pair, and eight times as fast in the other
    assert!((speedup(&ratios(&[1.0, 1.0], &[2.0, 8.0])) - 4.0).abs() < 1e-10);
    assert!((speedup(&ratios(&[2.0, 8.0], &[1.0, 1.0])) - 0.25).abs() < 1e-10);
}

#[test]
fn swapping_the_commands_negates_the_log_ratios() {
    let (a, b) = ([0.3, 1.0, 7.5], [0.4, 1.0, 2.5]);
    let negated: Vec<f64> = ratios(&a, &b).iter().map(|x| 0.0 - x).collect();
    assert_eq!(ratios(&b, &a), negated);
    assert_eq!(ratios(&a, &a), vec![0.0, 0.0, 0.0]);
}

#[test]
fn a_common_factor_cancels() {
    let (a, b) = ([0.3, 1.0, 7.5], [0.4, 1.5, 2.5]);
    let factors = [3.0, 0.125, 10.0];
    let scaled = |times: &[f64]| -> Vec<f64> {
        times.iter().zip(factors).map(|(time, factor)| time * factor).collect()
    };
    for (x, y) in ratios(&a, &b).iter().zip(ratios(&scaled(&a), &scaled(&b))) {
        assert!((x - y).abs() < 1e-10);
    }
}
