use hyperfine::analysis::verdict::EquivalenceZone;
use hyperfine::analysis::{determine_verdict, Verdict};
use hyperfine::number::Real;

fn number(x: f64) -> Real {
    Real::from_bits(x.to_bits())
}

fn verdict_for(ci_lower: f64, ci_upper: f64, delta: f64) -> Verdict {
    let zone = EquivalenceZone {
        lower: number(1.0 - delta),
        upper: number(1.0 + delta),
    };
    determine_verdict(number(ci_lower), number(ci_upper), zone)
}

#[test]
fn test_verdict_faster() {
    // CI is [1.20, 1.30], delta = 0.01
    // Lower bound 1.20 > 1.01 (1 + delta)
    let verdict = verdict_for(1.20, 1.30, 0.01);
    assert_eq!(verdict, Verdict::Faster);
}

#[test]
fn test_verdict_slower() {
    // CI is [0.70, 0.80], delta = 0.01
    // Upper bound 0.80 < 0.99 (1 - delta)
    let verdict = verdict_for(0.70, 0.80, 0.01);
    assert_eq!(verdict, Verdict::Slower);
}

#[test]
fn test_verdict_no_clear_difference_overlaps() {
    // CI is [0.95, 1.05], delta = 0.01
    // CI overlaps [0.99, 1.01]
    let verdict = verdict_for(0.95, 1.05, 0.01);
    assert_eq!(verdict, Verdict::NoClearDifference);
}

#[test]
fn test_verdict_no_clear_difference_inside() {
    // CI is [0.995, 1.005], entirely within [0.99, 1.01]
    let verdict = verdict_for(0.995, 1.005, 0.01);
    assert_eq!(verdict, Verdict::NoClearDifference);
}

#[test]
fn test_verdict_edge_case_at_threshold() {
    // CI lower is exactly at 1+delta
    // 1.01 is not > 1.01, so this should be NoClearDifference
    let verdict = verdict_for(1.01, 1.10, 0.01);
    assert_eq!(verdict, Verdict::NoClearDifference);

    // CI lower is just above 1+delta
    let verdict = verdict_for(1.011, 1.10, 0.01);
    assert_eq!(verdict, Verdict::Faster);
}

#[test]
fn test_verdict_with_larger_delta() {
    // With delta = 0.10 (10%), we need larger differences
    // CI is [1.05, 1.15], delta = 0.10
    // Lower bound 1.05 is not > 1.10 (1 + delta)
    let verdict = verdict_for(1.05, 1.15, 0.10);
    assert_eq!(verdict, Verdict::NoClearDifference);

    // CI is [1.15, 1.25]
    // Lower bound 1.15 > 1.10
    let verdict = verdict_for(1.15, 1.25, 0.10);
    assert_eq!(verdict, Verdict::Faster);
}

#[test]
fn test_verdict_display() {
    assert_eq!(Verdict::Faster.to_string(), "faster");
    assert_eq!(Verdict::Slower.to_string(), "slower");
    assert_eq!(Verdict::NoClearDifference.to_string(), "no clear difference");
}

#[test]
fn test_verdict_description() {
    assert_eq!(Verdict::Faster.description(), "faster");
    assert_eq!(Verdict::Slower.description(), "slower");
    assert_eq!(Verdict::NoClearDifference.description(), "no clear difference");
}

#[test]
fn upper_bound_at_the_threshold_is_no_clear_difference() {
    assert_eq!(verdict_for(0.5, 0.75, 0.25), Verdict::NoClearDifference);
    assert_eq!(verdict_for(0.5, 0.749, 0.25), Verdict::Slower);
}

#[test]
fn bounds_that_are_no_numbers_are_no_clear_difference() {
    assert_eq!(verdict_for(f64::NAN, f64::NAN, 0.01), Verdict::NoClearDifference);
    assert_eq!(verdict_for(f64::NAN, 0.5, 0.01), Verdict::Slower);
}
