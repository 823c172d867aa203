use hyperfine::analysis::bootstrap::{
    bootstrap_percentile_ci, interval_of_draws, resample, PercentilePositions,
};
use hyperfine::analysis::order::order_of;
use hyperfine::number::Real;
use rand::{Rng, SeedableRng};
use rand_chacha::ChaCha8Rng;

fn number(x: f64) -> Real {
    Real::from_bits(x.to_bits())
}

fn float(r: Real) -> f64 {
    f64::from_bits(r.bits)
}

fn numbers(values: &[f64]) -> Vec<Real> {
    values.iter().map(|x| number(*x)).collect()
}

fn mean(samples: &[Real]) -> Real {
    let mut sum = 0.0;
    for sample in samples {
        sum += float(*sample);
    }
    number(sum / samples.len() as f64)
}

fn positions(confidence: f64, resamples: usize) -> PercentilePositions {
    let alpha = 1.0 - confidence;
    PercentilePositions {
        lower: ((alpha / 2.0) * resamples as f64).floor() as usize,
        upper: ((1.0 - alpha / 2.0) * resamples as f64).ceil() as usize,
    }
}

fn interval(data: &[f64], confidence: f64, resamples: usize, seed: u64) -> (f64, f64) {
    let mut rng = ChaCha8Rng::seed_from_u64(seed);
    let (lower, upper) = bootstrap_percentile_ci(
        &numbers(data),
        positions(confidence, resamples),
        resamples,
        &mean,
        &mut rng,
    );
    (float(lower), float(upper))
}

#[test]
fn test_bootstrap_ci_basic() {
    let data = vec![1.0, 2.0, 3.0, 4.0, 5.0];

    let (lower, upper) = interval(&data, 0.95, 10000, 42);

    // Mean is 3.0, CI should be centered around it
    assert!(lower < 3.0);
    assert!(upper > 3.0);
    // CI should contain the mean
    assert!(lower < upper);
}

#[test]
fn test_bootstrap_ci_single_value() {
    let data = vec![5.0];

    let (lower, upper) = interval(&data, 0.95, 1000, 42);

    assert_eq!(lower, 5.0);
    assert_eq!(upper, 5.0);
}

#[test]
fn test_bootstrap_ci_empty() {
    let data: Vec<f64> = vec![];

    let (lower, upper) = interval(&data, 0.95, 1000, 42);

    assert!(lower.is_nan());
    assert!(upper.is_nan());
}

#[test]
fn test_bootstrap_ci_reproducible_with_seed() {
    let data = vec![1.0, 2.0, 3.0, 4.0, 5.0, 6.0, 7.0, 8.0, 9.0, 10.0];

    let (lower1, upper1) = interval(&data, 0.95, 5000, 123);
    let (lower2, upper2) = interval(&data, 0.95, 5000, 123);

    assert_eq!(lower1, lower2);
    assert_eq!(upper1, upper2);
}

#[test]
fn test_bootstrap_ci_wider_with_lower_confidence() {
    let data = vec![1.0, 2.0, 3.0, 4.0, 5.0, 6.0, 7.0, 8.0, 9.0, 10.0];

    let (lower_99, upper_99) = interval(&data, 0.99, 10000, 42);
    let (lower_90, upper_90) = interval(&data, 0.90, 10000, 42);

    // 99% CI should be wider than 90% CI
    let width_99 = upper_99 - lower_99;
    let width_90 = upper_90 - lower_90;
    assert!(
        width_99 > width_90,
        "99% CI ({}) should be wider than 90% CI ({})",
        width_99,
        width_90
    );
}

#[test]
fn interval_is_that_of_the_sorted_means() {
    let data = [0.3, -1.5, 2.25, 8.0, 0.125, -0.75];
    let resamples = 200;

    let mut rng = ChaCha8Rng::seed_from_u64(7);
    let mut means: Vec<f64> = Vec::new();
    for _ in 0..resamples {
        let mut sum = 0.0;
        for _ in 0..data.len() {
            sum += data[rng.gen_range(0..data.len())];
        }
        means.push(sum / data.len() as f64);
    }
    means.sort_by(|a, b| a.partial_cmp(b).unwrap());

    // For a confidence level of one half, a quarter of the means is left out on either side
    let (lower, upper) = interval(&data, 0.5, resamples, 7);
    assert_eq!(positions(0.5, resamples), PercentilePositions { lower: 50, upper: 150 });
    assert_eq!(lower, means[50]);
    assert_eq!(upper, means[150]);
}

#[test]
fn resample_draws_the_indices_of_the_generator() {
    let data = [10.0, 11.0, 12.0, 13.0, 14.0, 15.0, 16.0, 17.0];

    let mut plain = ChaCha8Rng::seed_from_u64(42);
    let expected: Vec<f64> = (0..data.len())
        .map(|_| data[plain.gen_range(0..data.len())])
        .collect();

    let mut rng = ChaCha8Rng::seed_from_u64(42);
    let picked: Vec<f64> = resample(&numbers(&data), &mut rng)
        .into_iter()
        .map(float)
        .collect();

    assert_eq!(picked, expected);
    assert_ne!(picked, data.to_vec());
    // Both generators go on alike
    assert_eq!(rng.gen_range(0..1000), plain.gen_range(0..1000));
}

#[test]
fn positions_beyond_the_last_mean_are_clamped() {
    // The ceiling for full confidence is one past the last mean
    let data = [1.0, 2.0, 3.0];
    assert_eq!(positions(1.0, 50), PercentilePositions { lower: 0, upper: 50 });

    let (lower, upper) = interval(&data, 1.0, 50, 3);
    let (lower_alone, upper_alone) = interval(&data, 1.0, 1, 3);

    assert!(lower <= upper);
    assert_eq!(lower_alone, upper_alone);
}

#[test]
fn constant_data_gives_an_interval_without_width() {
    let data = [0.25; 9];
    assert_eq!(interval(&data, 0.95, 300, 11), (0.25, 0.25));
}

#[test]
fn nothing_is_drawn_for_fewer_than_two_samples() {
    let mut rng = ChaCha8Rng::seed_from_u64(5);
    let mut untouched = ChaCha8Rng::seed_from_u64(5);
    bootstrap_percentile_ci(&numbers(&[1.0]), positions(0.95, 100), 100, &mean, &mut rng);
    bootstrap_percentile_ci(&numbers(&[]), positions(0.95, 100), 100, &mean, &mut rng);
    assert_eq!(rng.gen_range(0..1000000), untouched.gen_range(0..1000000));
}

#[test]
fn order_of_sorts_and_keeps_equals_in_place() {
    let values = numbers(&[3.0, -0.0, 1.0, 0.0, -2.0, 1.0]);
    assert_eq!(order_of(&values), vec![4, 1, 3, 2, 5, 0]);
    assert_eq!(order_of(&numbers(&[])), Vec::<usize>::new());
}

#[test]
fn draws_of_any_generator_give_an_interval() {
    let data = numbers(&[1.0, 2.0, 6.0]);
    // The resamples are all ones, all sixes, and one of each
    let draws = [0, 0, 0, 2, 2, 2, 0, 1, 2];
    let at = |lower: usize, upper: usize| {
        let positions = PercentilePositions { lower, upper };
        let (lower, upper) = interval_of_draws(&data, &draws, positions, 3, &mean);
        (float(lower), float(upper))
    };
    assert_eq!(at(0, 2), (1.0, 6.0));
    assert_eq!(at(1, 1), (3.0, 3.0));
    assert_eq!(at(0, 7), (1.0, 6.0));
}

#[test]
fn draws_of_the_generator_give_its_interval() {
    let data = [0.5, 2.5, -1.0, 4.0];
    let resamples = 60;
    let mut rng = ChaCha8Rng::seed_from_u64(99);
    let draws: Vec<usize> = (0..resamples * data.len())
        .map(|_| rng.gen_range(0..data.len()))
        .collect();
    let (lower, upper) = interval_of_draws(
        &numbers(&data),
        &draws,
        positions(0.8, resamples),
        resamples,
        &mean,
    );
    assert_eq!((float(lower), float(upper)), interval(&data, 0.8, resamples, 99));
}
