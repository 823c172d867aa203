use hyperfine::benchmark::scheduler::{
    DEFAULT_CONFIDENCE_BITS, DEFAULT_DELTA_BITS, DEFAULT_RESAMPLES,
};
use hyperfine::benchmark::warnings::min_execution_time;
use hyperfine::number::Real;

fn number(x: f64) -> Real {
    Real::from_bits(x.to_bits())
}

fn samples() -> Vec<f64> {
    vec![
        f64::NAN,
        -f64::NAN,
        f64::NEG_INFINITY,
        f64::MIN,
        -1.5,
        -1.0,
        -f64::MIN_POSITIVE,
        -5e-324,
        -0.0,
        0.0,
        5e-324,
        f64::MIN_POSITIVE,
        0.1,
        1.0,
        1.0000000000000002,
        2.0,
        3.0,
        f64::MAX,
        f64::INFINITY,
    ]
}

#[test]
fn comparisons_are_those_of_the_machine() {
    for a in samples() {
        for b in samples() {
            assert_eq!(number(a).less_than(&number(b)), a < b, "{} < {}", a, b);
            assert_eq!(number(a).same_value(&number(b)), a == b, "{} == {}", a, b);
        }
    }
}

#[test]
fn signs_and_nans_are_those_of_the_machine() {
    for a in samples() {
        assert_eq!(number(a).is_nan(), a.is_nan());
        assert_eq!(number(a).abs().bits, a.abs().to_bits());
    }
    assert_eq!(Real::zero().bits, 0f64.to_bits());
    assert!(Real::not_a_number().is_nan());
}

#[test]
fn constants_are_those_of_the_settings() {
    assert_eq!(f64::from_bits(DEFAULT_CONFIDENCE_BITS), 0.95);
    assert_eq!(f64::from_bits(DEFAULT_DELTA_BITS), 0.01);
    assert_eq!(DEFAULT_RESAMPLES, 10000);
    assert_eq!(f64::from_bits(min_execution_time().bits), 5e-3);
}
