//! What log-ratios and speedups stand for, up to rounding.
//!
//! Here `value` is what a number stands for, `ln` is a logarithm, and every single result of the
//! arithmetic may be off by a rounding error. The laws ask this of the results at hand only, and say
//! how far what comes out is from what the method is meant to compute. Without any error it is that
//! exactly.

use crate::analysis::bootstrap::gives;
use crate::analysis::speedup::{are_log_ratios, is_speedup, paired};
use crate::number::Real;
use vstd::prelude::*;

verus! {

/// Whether two values are no further apart than the error.
pub open spec fn near(x: real, y: real, error: real) -> bool {
    &&& x - y <= error
    &&& y - x <= error
}

/// Whether `ln` turns products of positive numbers into sums, and different numbers into different
/// ones.
pub open spec fn is_logarithm(ln: spec_fn(real) -> real) -> bool {
    &&& forall|x: real, y: real|
        x > 0real && y > 0real ==> #[trigger] ln(x * y) == ln(x) + ln(y)
    &&& forall|x: real, y: real|
        x > 0real && y > 0real && #[trigger] ln(x) == #[trigger] ln(y) ==> x == y
}

/// The sum of some values.
pub open spec fn sum(values: Seq<real>) -> real
    decreases values.len(),
{
    if values.len() == 0 {
        0real
    } else {
        sum(values.drop_last()) + values.last()
    }
}

/// The product of some values.
pub open spec fn product(values: Seq<real>) -> real
    decreases values.len(),
{
    if values.len() == 0 {
        1real
    } else {
        product(values.drop_last()) * values.last()
    }
}

/// The product of `n` times the same value.
pub open spec fn power(x: real, n: nat) -> real
    decreases n,
{
    if n == 0 {
        1real
    } else {
        power(x, (n - 1) as nat) * x
    }
}

/// What some numbers stand for.
pub open spec fn values_of(numbers: Seq<Real>, value: spec_fn(Real) -> real) -> Seq<real> {
    numbers.map_values(value)
}

/// Whether both times of every pair stand for positive values.
pub open spec fn pairs_have_logarithms(
    cmd_times: Seq<Real>,
    ref_times: Seq<Real>,
    value: spec_fn(Real) -> real,
) -> bool {
    forall|i: int|
        0 <= i < paired(cmd_times, ref_times) ==> value(#[trigger] cmd_times[i]) > 0real && value(
            ref_times[i],
        ) > 0real
}

/// The differences of the logarithms of paired times.
pub open spec fn log_differences(
    cmd_times: Seq<Real>,
    ref_times: Seq<Real>,
    value: spec_fn(Real) -> real,
    ln: spec_fn(real) -> real,
) -> Seq<real> {
    Seq::new(
        paired(cmd_times, ref_times),
        |i: int| ln(value(cmd_times[i])) - ln(value(ref_times[i])),
    )
}

/// Whether `log_ratio` takes the differences of the logarithms of the pairs at hand.
pub open spec fn log_ratios_are_near<L: Fn(Real, Real) -> Real>(
    cmd_times: Seq<Real>,
    ref_times: Seq<Real>,
    log_ratio: L,
    value: spec_fn(Real) -> real,
    ln: spec_fn(real) -> real,
    error: real,
) -> bool {
    forall|i: int, x: Real|
        0 <= i < paired(cmd_times, ref_times) && #[trigger] call_ensures(
            log_ratio,
            (cmd_times[i], ref_times[i]),
            x,
        ) ==> near(value(x), ln(value(cmd_times[i])) - ln(value(ref_times[i])), error)
}

/// Whether `mean` takes the mean of the log-ratios at hand.
pub open spec fn mean_is_near<F: Fn(&[Real]) -> Real>(
    ratios: Seq<Real>,
    mean: F,
    value: spec_fn(Real) -> real,
    error: real,
) -> bool {
    forall|m: Real| #[trigger]
        gives(mean, ratios, m) ==> near(
            (ratios.len() as real) * value(m),
            sum(values_of(ratios, value)),
            (ratios.len() as real) * error,
        )
}

/// Whether `exp_neg` takes the exponential of the negated mean of the log-ratios at hand. The error
/// is that of the logarithm of the result.
pub open spec fn exponential_is_near<F: Fn(&[Real]) -> Real, E: Fn(Real) -> Real>(
    ratios: Seq<Real>,
    mean: F,
    exp_neg: E,
    value: spec_fn(Real) -> real,
    ln: spec_fn(real) -> real,
    error: real,
) -> bool {
    forall|m: Real, y: Real| #[trigger]
        gives(mean, ratios, m) && #[trigger] call_ensures(exp_neg, (m,), y) ==> value(y) > 0real
            && near(ln(value(y)), -value(m), error)
}

/// Whether the arithmetic at hand, that of one speedup from its pairs, is off by no more than the
/// error at each of its steps, and the log-ratios and the speedup are what it gives.
pub open spec fn is_near_speedup<
    L: Fn(Real, Real) -> Real,
    F: Fn(&[Real]) -> Real,
    E: Fn(Real) -> Real,
>(
    cmd_times: Seq<Real>,
    ref_times: Seq<Real>,
    log_ratio: L,
    mean: F,
    exp_neg: E,
    value: spec_fn(Real) -> real,
    ln: spec_fn(real) -> real,
    error: real,
    ratios: Seq<Real>,
    speedup: Real,
) -> bool {
    &&& pairs_have_logarithms(cmd_times, ref_times, value)
    &&& log_ratios_are_near(cmd_times, ref_times, log_ratio, value, ln, error)
    &&& mean_is_near(ratios, mean, value, error)
    &&& exponential_is_near(ratios, mean, exp_neg, value, ln, error)
    &&& are_log_ratios(cmd_times, ref_times, log_ratio, ratios)
    &&& is_speedup(ratios, mean, exp_neg, speedup)
}

proof fn lemma_sums_are_near(a: Seq<real>, b: Seq<real>, error: real)
    requires
        a.len() == b.len(),
        forall|i: int| 0 <= i < a.len() ==> near(#[trigger] a[i], b[i], error),
    ensures
        near(sum(a), sum(b), (a.len() as real) * error),
    decreases a.len(),
{
    if a.len() == 0 {
        assert(0real * error == 0real) by (nonlinear_arith);
    } else {
        assert forall|i: int| 0 <= i < a.drop_last().len() implies near(
            #[trigger] a.drop_last()[i],
            b.drop_last()[i],
            error,
        ) by {
            assert(near(a[i], b[i], error));
        }
        lemma_sums_are_near(a.drop_last(), b.drop_last(), error);
        assert(near(a[a.len() - 1], b[a.len() - 1], error));
        let (k, n) = (a.drop_last().len() as real, a.len() as real);
        assert(n == k + 1real);
        assert(k * error + error == n * error) by (nonlinear_arith)
            requires
                n == k + 1real,
        ;
    }
}

proof fn lemma_sum_negates(a: Seq<real>, b: Seq<real>)
    requires
        a.len() == b.len(),
        forall|i: int| 0 <= i < a.len() ==> #[trigger] a[i] == -b[i],
    ensures
        sum(a) == -sum(b),
    decreases a.len(),
{
    if a.len() > 0 {
        assert forall|i: int| 0 <= i < a.drop_last().len() implies #[trigger] a.drop_last()[i]
            == -b.drop_last()[i] by {
            assert(a[i] == -b[i]);
        }
        lemma_sum_negates(a.drop_last(), b.drop_last());
        assert(a[a.len() - 1] == -b[a.len() - 1]);
    }
}

/// As many times the logarithm of the speedup as there are pairs is near the negated sum of the
/// differences of logarithms.
proof fn lemma_log_of_speedup<
    L: Fn(Real, Real) -> Real,
    F: Fn(&[Real]) -> Real,
    E: Fn(Real) -> Real,
>(
    cmd_times: Seq<Real>,
    ref_times: Seq<Real>,
    log_ratio: L,
    mean: F,
    exp_neg: E,
    value: spec_fn(Real) -> real,
    ln: spec_fn(real) -> real,
    error: real,
    ratios: Seq<Real>,
    speedup: Real,
)
    requires
        paired(cmd_times, ref_times) > 0,
        is_near_speedup(
            cmd_times,
            ref_times,
            log_ratio,
            mean,
            exp_neg,
            value,
            ln,
            error,
            ratios,
            speedup,
        ),
    ensures
        value(speedup) > 0real,
        near(
            (paired(cmd_times, ref_times) as real) * ln(value(speedup)),
            -sum(log_differences(cmd_times, ref_times, value, ln)),
            3real * ((paired(cmd_times, ref_times) as real) * error),
        ),
{
    let logs = log_differences(cmd_times, ref_times, value, ln);
    assert forall|i: int| 0 <= i < ratios.len() implies near(
        #[trigger] values_of(ratios, value)[i],
        logs[i],
        error,
    ) by {
        assert(call_ensures(log_ratio, (cmd_times[i], ref_times[i]), ratios[i]));
    }
    lemma_sums_are_near(values_of(ratios, value), logs, error);
    let m = choose|m: Real|
        #[trigger] gives(mean, ratios, m) && call_ensures(exp_neg, (m,), speedup);
    let (n, v, l) = (ratios.len() as real, value(m), ln(value(speedup)));
    assert(near(l, -v, error));
    assert(n * l + n * v <= n * error && -(n * l) - n * v <= n * error) by (nonlinear_arith)
        requires
            n >= 0real,
            l + v <= error,
            -l - v <= error,
    ;
}

proof fn lemma_log_of_one(ln: spec_fn(real) -> real)
    requires
        is_logarithm(ln),
    ensures
        ln(1real) == 0real,
{
    assert(ln(1real * 1real) == ln(1real) + ln(1real));
}

proof fn lemma_log_of_quotient(ln: spec_fn(real) -> real, x: real, y: real)
    requires
        is_logarithm(ln),
        x > 0real,
        y > 0real,
    ensures
        x / y > 0real,
        ln(x / y) == ln(x) - ln(y),
{
    assert(x / y > 0real && (x / y) * y == x) by (nonlinear_arith)
        requires
            x > 0real,
            y > 0real,
    ;
    assert(ln((x / y) * y) == ln(x / y) + ln(y));
}

proof fn lemma_log_of_power(ln: spec_fn(real) -> real, x: real, n: nat)
    requires
        is_logarithm(ln),
        x > 0real,
    ensures
        power(x, n) > 0real,
        ln(power(x, n)) == (n as real) * ln(x),
    decreases n,
{
    let l = ln(x);
    if n == 0 {
        lemma_log_of_one(ln);
        assert(0real * l == 0real) by (nonlinear_arith);
    } else {
        let p = power(x, (n - 1) as nat);
        lemma_log_of_power(ln, x, (n - 1) as nat);
        assert(p * x > 0real) by (nonlinear_arith)
            requires
                p > 0real,
                x > 0real,
        ;
        assert(ln(p * x) == ln(p) + l);
        let (k, m) = (((n - 1) as nat) as real, n as real);
        assert(m == k + 1real);
        assert(k * l + l == m * l) by (nonlinear_arith)
            requires
                m == k + 1real,
        ;
    }
}

proof fn lemma_log_of_product(ln: spec_fn(real) -> real, factors: Seq<real>, logs: Seq<real>)
    requires
        is_logarithm(ln),
        factors.len() == logs.len(),
        forall|i: int|
            0 <= i < factors.len() ==> #[trigger] factors[i] > 0real && logs[i] == -ln(factors[i]),
    ensures
        product(factors) > 0real,
        ln(product(factors)) == -sum(logs),
    decreases factors.len(),
{
    if factors.len() == 0 {
        lemma_log_of_one(ln);
    } else {
        let (fewer, last) = (factors.drop_last(), factors.last());
        assert forall|i: int| 0 <= i < fewer.len() implies #[trigger] fewer[i] > 0real
            && logs.drop_last()[i] == -ln(fewer[i]) by {
            assert(fewer[i] == factors[i]);
        }
        lemma_log_of_product(ln, fewer, logs.drop_last());
        assert(factors[factors.len() - 1] > 0real);
        let p = product(fewer);
        assert(p * last > 0real) by (nonlinear_arith)
            requires
                p > 0real,
                last > 0real,
        ;
        assert(ln(p * last) == ln(p) + ln(last));
    }
}

/// How many times faster the command is than the reference, pair by pair.
pub open spec fn paired_ratios(
    cmd_times: Seq<Real>,
    ref_times: Seq<Real>,
    value: spec_fn(Real) -> real,
) -> Seq<real> {
    Seq::new(
        paired(cmd_times, ref_times),
        |i: int| value(ref_times[i]) / value(cmd_times[i]),
    )
}

/// The speedup is the geometric mean of the paired ratios: as a power with as many factors as there
/// are pairs, it is their product. With errors at each step, the logarithms of the two are apart by
/// at most three errors for each pair.
pub proof fn speedup_is_the_geometric_mean<
    L: Fn(Real, Real) -> Real,
    F: Fn(&[Real]) -> Real,
    E: Fn(Real) -> Real,
>(
    cmd_times: Seq<Real>,
    ref_times: Seq<Real>,
    log_ratio: L,
    mean: F,
    exp_neg: E,
    value: spec_fn(Real) -> real,
    ln: spec_fn(real) -> real,
    error: real,
    ratios: Seq<Real>,
    speedup: Real,
)
    requires
        paired(cmd_times, ref_times) > 0,
        is_logarithm(ln),
        is_near_speedup(
            cmd_times,
            ref_times,
            log_ratio,
            mean,
            exp_neg,
            value,
            ln,
            error,
            ratios,
            speedup,
        ),
    ensures
        value(speedup) > 0real,
        near(
            ln(power(value(speedup), paired(cmd_times, ref_times))),
            ln(product(paired_ratios(cmd_times, ref_times, value))),
            3real * ((paired(cmd_times, ref_times) as real) * error),
        ),
        error == 0real ==> power(value(speedup), paired(cmd_times, ref_times)) == product(
            paired_ratios(cmd_times, ref_times, value),
        ),
{
    let factors = paired_ratios(cmd_times, ref_times, value);
    let logs = log_differences(cmd_times, ref_times, value, ln);
    let n = paired(cmd_times, ref_times);
    assert forall|i: int| 0 <= i < factors.len() implies #[trigger] factors[i] > 0real && logs[i]
        == -ln(factors[i]) by {
        assert(value(cmd_times[i]) > 0real && value(ref_times[i]) > 0real);
        lemma_log_of_quotient(ln, value(ref_times[i]), value(cmd_times[i]));
    }
    lemma_log_of_product(ln, factors, logs);
    lemma_log_of_speedup(
        cmd_times,
        ref_times,
        log_ratio,
        mean,
        exp_neg,
        value,
        ln,
        error,
        ratios,
        speedup,
    );
    lemma_log_of_power(ln, value(speedup), n);
    if error == 0real {
        assert((n as real) * error == 0real) by (nonlinear_arith)
            requires
                error == 0real,
        ;
    }
}

/// Swapping the command and the reference turns the speedup into its reciprocal. With errors at each
/// step, the logarithms are apart by at most six of them.
pub proof fn swapping_gives_the_reciprocal<
    L: Fn(Real, Real) -> Real,
    F: Fn(&[Real]) -> Real,
    E: Fn(Real) -> Real,
>(
    cmd_times: Seq<Real>,
    ref_times: Seq<Real>,
    log_ratio: L,
    mean: F,
    exp_neg: E,
    value: spec_fn(Real) -> real,
    ln: spec_fn(real) -> real,
    error: real,
    ratios: Seq<Real>,
    swapped_ratios: Seq<Real>,
    speedup: Real,
    swapped_speedup: Real,
)
    requires
        paired(cmd_times, ref_times) > 0,
        is_logarithm(ln),
        is_near_speedup(
            cmd_times,
            ref_times,
            log_ratio,
            mean,
            exp_neg,
            value,
            ln,
            error,
            ratios,
            speedup,
        ),
        is_near_speedup(
            ref_times,
            cmd_times,
            log_ratio,
            mean,
            exp_neg,
            value,
            ln,
            error,
            swapped_ratios,
            swapped_speedup,
        ),
    ensures
        near(ln(value(swapped_speedup)), -ln(value(speedup)), 6real * error),
        error == 0real ==> value(swapped_speedup) * value(speedup) == 1real,
{
    lemma_log_of_speedup(
        cmd_times,
        ref_times,
        log_ratio,
        mean,
        exp_neg,
        value,
        ln,
        error,
        ratios,
        speedup,
    );
    lemma_log_of_speedup(
        ref_times,
        cmd_times,
        log_ratio,
        mean,
        exp_neg,
        value,
        ln,
        error,
        swapped_ratios,
        swapped_speedup,
    );
    lemma_sum_negates(
        log_differences(ref_times, cmd_times, value, ln),
        log_differences(cmd_times, ref_times, value, ln),
    );
    let n = paired(cmd_times, ref_times) as real;
    let (a, b) = (ln(value(speedup)), ln(value(swapped_speedup)));
    assert(n >= 1real);
    assert(near(b, -a, 6real * error)) by {
        assert(b + a <= 6real * error && -a - b <= 6real * error) by (nonlinear_arith)
            requires
                n >= 1real,
                n * a + n * b <= 6real * (n * error),
                -(n * a) - n * b <= 6real * (n * error),
        ;
    }
    if error == 0real {
        let (x, y) = (value(swapped_speedup), value(speedup));
        lemma_log_of_one(ln);
        assert(x * y > 0real) by (nonlinear_arith)
            requires
                x > 0real,
                y > 0real,
        ;
        assert(ln(x * y) == ln(x) + ln(y));
    }
}

/// Whether the times of each pair are those of the other pair times a positive factor that they have
/// in common, up to an error in their logarithms.
pub open spec fn have_common_factors(
    cmd_times: Seq<Real>,
    ref_times: Seq<Real>,
    scaled_cmd_times: Seq<Real>,
    scaled_ref_times: Seq<Real>,
    factors: Seq<real>,
    value: spec_fn(Real) -> real,
    ln: spec_fn(real) -> real,
    error: real,
) -> bool {
    &&& scaled_cmd_times.len() == cmd_times.len()
    &&& scaled_ref_times.len() == ref_times.len()
    &&& factors.len() == paired(cmd_times, ref_times)
    &&& forall|i: int|
        0 <= i < factors.len() ==> {
            &&& #[trigger] factors[i] > 0real
            &&& near(
                ln(value(scaled_cmd_times[i])),
                ln(factors[i] * value(cmd_times[i])),
                error,
            )
            &&& near(
                ln(value(scaled_ref_times[i])),
                ln(factors[i] * value(ref_times[i])),
                error,
            )
        }
}

/// A factor that both times of a pair have in common, such as drift or load, cancels: it changes
/// neither the log-ratios nor the speedup. With errors at each step, the log-ratios are apart by at
/// most four of them, and the logarithms of the speedups by at most eight.
pub proof fn common_factors_cancel<
    L: Fn(Real, Real) -> Real,
    F: Fn(&[Real]) -> Real,
    E: Fn(Real) -> Real,
>(
    cmd_times: Seq<Real>,
    ref_times: Seq<Real>,
    scaled_cmd_times: Seq<Real>,
    scaled_ref_times: Seq<Real>,
    factors: Seq<real>,
    log_ratio: L,
    mean: F,
    exp_neg: E,
    value: spec_fn(Real) -> real,
    ln: spec_fn(real) -> real,
    error: real,
    ratios: Seq<Real>,
    scaled_ratios: Seq<Real>,
    speedup: Real,
    scaled_speedup: Real,
)
    requires
        paired(cmd_times, ref_times) > 0,
        is_logarithm(ln),
        have_common_factors(
            cmd_times,
            ref_times,
            scaled_cmd_times,
            scaled_ref_times,
            factors,
            value,
            ln,
            error,
        ),
        is_near_speedup(
            cmd_times,
            ref_times,
            log_ratio,
            mean,
            exp_neg,
            value,
            ln,
            error,
            ratios,
            speedup,
        ),
        is_near_speedup(
            scaled_cmd_times,
            scaled_ref_times,
            log_ratio,
            mean,
            exp_neg,
            value,
            ln,
            error,
            scaled_ratios,
            scaled_speedup,
        ),
    ensures
        scaled_ratios.len() == ratios.len(),
        forall|i: int|
            0 <= i < ratios.len() ==> near(
                value(#[trigger] scaled_ratios[i]),
                value(ratios[i]),
                4real * error,
            ),
        near(ln(value(scaled_speedup)), ln(value(speedup)), 8real * error),
        error == 0real ==> value(scaled_speedup) == value(speedup),
{
    let logs = log_differences(cmd_times, ref_times, value, ln);
    let scaled_logs = log_differences(scaled_cmd_times, scaled_ref_times, value, ln);
    assert forall|i: int| 0 <= i < logs.len() implies near(
        #[trigger] scaled_logs[i],
        logs[i],
        2real * error,
    ) by {
        let (k, c, r) = (factors[i], value(cmd_times[i]), value(ref_times[i]));
        assert(c > 0real && r > 0real && k > 0real);
        assert(ln(k * c) == ln(k) + ln(c));
        assert(ln(k * r) == ln(k) + ln(r));
    }
    assert forall|i: int| 0 <= i < ratios.len() implies near(
        value(#[trigger] scaled_ratios[i]),
        value(ratios[i]),
        4real * error,
    ) by {
        assert(call_ensures(log_ratio, (cmd_times[i], ref_times[i]), ratios[i]));
        assert(call_ensures(
            log_ratio,
            (scaled_cmd_times[i], scaled_ref_times[i]),
            scaled_ratios[i],
        ));
        assert(near(scaled_logs[i], logs[i], 2real * error));
    }
    lemma_sums_are_near(scaled_logs, logs, 2real * error);
    lemma_log_of_speedup(
        cmd_times,
        ref_times,
        log_ratio,
        mean,
        exp_neg,
        value,
        ln,
        error,
        ratios,
        speedup,
    );
    lemma_log_of_speedup(
        scaled_cmd_times,
        scaled_ref_times,
        log_ratio,
        mean,
        exp_neg,
        value,
        ln,
        error,
        scaled_ratios,
        scaled_speedup,
    );
    let n = paired(cmd_times, ref_times) as real;
    let (a, b) = (ln(value(speedup)), ln(value(scaled_speedup)));
    assert(n >= 1real);
    assert(n * (2real * error) == 2real * (n * error)) by (nonlinear_arith);
    assert(near(b, a, 8real * error)) by {
        assert(b - a <= 8real * error && a - b <= 8real * error) by (nonlinear_arith)
            requires
                n >= 1real,
                n * b - n * a <= 8real * (n * error),
                n * a - n * b <= 8real * (n * error),
        ;
    }
}

} // verus!
