use hyperfine::analysis::bootstrap::PercentilePositions;
use hyperfine::analysis::verdict::EquivalenceZone;
use hyperfine::analysis::{
    bootstrap_percentile_ci, compute_log_ratios, determine_verdict, speedup_from_log_ratios,
    Verdict,
};
use hyperfine::number::Real;
use rand::SeedableRng;
use rand_chacha::ChaCha8Rng;

fn number(x: f64) -> Real {
    Real::from_bits(x.to_bits())
}

fn float(r: Real) -> f64 {
    f64::from_bits(r.bits)
}

fn numbers(values: &[f64]) -> Vec<Real> {
    values.iter().map(|x| number(*x)).collect()
}

fn mean(samples: &[Real]) -> Real {
    let sum: f64 = samples.iter().map(|r| float(*r)).sum();
    number(sum / samples.len() as f64)
}

fn log_ratio(cmd: Real, reference: Real) -> Real {
    number(float(cmd).ln() - float(reference).ln())
}

fn exp_neg(x: Real) -> Real {
    number((-float(x)).exp())
}

fn ratios(cmd_times: &[f64], ref_times: &[f64]) -> Vec<Real> {
    compute_log_ratios(&numbers(cmd_times), &numbers(ref_times), &log_ratio)
}

fn speedup_of(log_ratios: &[Real]) -> f64 {
    float(speedup_from_log_ratios(log_ratios, &mean, &exp_neg))
}

fn interval(log_ratios: &[Real], rng: &mut ChaCha8Rng) -> (f64, f64) {
    let resamples = 10000;
    let alpha: f64 = 1.0 - 0.95;
    let positions = PercentilePositions {
        lower: ((alpha / 2.0) * resamples as f64).floor() as usize,
        upper: ((1.0 - alpha / 2.0) * resamples as f64).ceil() as usize,
    };
    let (lower, upper) = bootstrap_percentile_ci(log_ratios, positions, resamples, &mean, rng);
    (float(lower), float(upper))
}

fn verdict_for(ci_lower: f64, ci_upper: f64, delta: f64) -> Verdict {
    let zone = EquivalenceZone {
        lower: number(1.0 - delta),
        upper: number(1.0 + delta),
    };
    determine_verdict(number(ci_lower), number(ci_upper), zone)
}

#[test]
fn test_full_analysis_pipeline() {
    let mut rng = ChaCha8Rng::seed_from_u64(42);

    // Simulate a command that's about 2x faster than reference
    let cmd_times = vec![0.50, 0.52, 0.48, 0.51, 0.49, 0.50, 0.52, 0.48, 0.51, 0.49];
    let ref_times = vec![1.00, 1.02, 0.98, 1.01, 0.99, 1.00, 1.02, 0.98, 1.01, 0.99];

    // Compute log-ratios
    let log_ratios = ratios(&cmd_times, &ref_times);
    assert_eq!(log_ratios.len(), 10);

    // Compute speedup
    let speedup = speedup_of(&log_ratios);
    assert!(
        speedup > 1.9 && speedup < 2.1,
        "Speedup should be ~2.0, got {}",
        speedup
    );

    // Compute CI
    let (ci_lower, ci_upper) = interval(&log_ratios, &mut rng);

    // Convert to speedup space
    let speedup_ci_lower = (-ci_upper).exp();
    let speedup_ci_upper = (-ci_lower).exp();

    // CI should contain the speedup
    assert!(speedup_ci_lower <= speedup && speedup <= speedup_ci_upper);

    // With 1% delta, this should be "faster"
    let verdict = verdict_for(speedup_ci_lower, speedup_ci_upper, 0.01);
    assert_eq!(verdict, Verdict::Faster);
}

#[test]
fn test_equivalent_commands() {
    let mut rng = ChaCha8Rng::seed_from_u64(42);

    // Commands with very similar timing
    let cmd_times = vec![1.00, 1.01, 0.99, 1.00, 1.01, 0.99, 1.00, 1.01, 0.99, 1.00];
    let ref_times = vec![1.00, 1.00, 1.00, 1.00, 1.00, 1.00, 1.00, 1.00, 1.00, 1.00];

    let log_ratios = ratios(&cmd_times, &ref_times);
    let speedup = speedup_of(&log_ratios);

    // Speedup should be very close to 1.0
    assert!((speedup - 1.0).abs() < 0.02);

    let (ci_lower, ci_upper) = interval(&log_ratios, &mut rng);
    let speedup_ci_lower = (-ci_upper).exp();
    let speedup_ci_upper = (-ci_lower).exp();

    // With 1% delta, this should be "no clear difference"
    let verdict = verdict_for(speedup_ci_lower, speedup_ci_upper, 0.01);
    assert_eq!(verdict, Verdict::NoClearDifference);
}

#[test]
fn test_slower_command() {
    let mut rng = ChaCha8Rng::seed_from_u64(42);

    // Command is 2x slower than reference
    let cmd_times = vec![2.0, 2.0, 2.0, 2.0, 2.0, 2.0, 2.0, 2.0, 2.0, 2.0];
    let ref_times = vec![1.0, 1.0, 1.0, 1.0, 1.0, 1.0, 1.0, 1.0, 1.0, 1.0];

    let log_ratios = ratios(&cmd_times, &ref_times);
    let speedup = speedup_of(&log_ratios);

    // Speedup should be 0.5 (half as fast)
    assert!((speedup - 0.5).abs() < 1e-10);

    let (ci_lower, ci_upper) = interval(&log_ratios, &mut rng);
    let speedup_ci_lower = (-ci_upper).exp();
    let speedup_ci_upper = (-ci_lower).exp();

    // With 1% delta, this should be "slower"
    let verdict = verdict_for(speedup_ci_lower, speedup_ci_upper, 0.01);
    assert_eq!(verdict, Verdict::Slower);
}
