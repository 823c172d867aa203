//! Log-ratio based speedup calculation.
//!
//! Uses the log-ratio method for computing geometric mean speedup:
//! 1. Compute log-ratios: `r_i = log(t_cmd_i) - log(t_ref_i)`
//! 2. Speedup = `exp(-mean(r_i))`
//!
//! This approach is preferred because:
//! - Geometric mean is appropriate for ratios
//! - Log-space analysis handles multiplicative effects naturally
//! - Paired differences cancel common factors (drift, load)
//!
//! The caller brings the arithmetic: `log_ratio` takes the difference of two logarithms, `mean` the
//! mean of some numbers, and `exp_neg` the exponential of a negated number.

use crate::analysis::bootstrap::{
    all_have, bootstrap_percentile_ci, constant_data_has_no_width, gives, indices_drawn,
    interval_is_ordered, interval_is_reproducible, is_bootstrap_interval, is_function_of_samples,
    is_level, keep_order, lemma_bounds_are_numbers, means_are_numbers, takes_samples,
    PercentilePositions,
};
use crate::number::Real;
use crate::random::{words_after, words_left};
use rand_chacha::ChaCha8Rng;
use vstd::prelude::*;

verus! {

/// How many samples of the two sequences pair up.
pub open spec fn paired(cmd_times: Seq<Real>, ref_times: Seq<Real>) -> nat {
    if cmd_times.len() < ref_times.len() {
        cmd_times.len()
    } else {
        ref_times.len()
    }
}

/// Whether both samples of every pair are above zero.
pub open spec fn pairs_are_positive(cmd_times: Seq<Real>, ref_times: Seq<Real>) -> bool {
    forall|i: int|
        0 <= i < paired(cmd_times, ref_times) ==> (#[trigger] cmd_times[i]).positive()
            && ref_times[i].positive()
}

/// Whether all times that pair up are finite.
pub open spec fn pairs_are_finite(cmd_times: Seq<Real>, ref_times: Seq<Real>) -> bool {
    forall|i: int|
        0 <= i < paired(cmd_times, ref_times) ==> (#[trigger] cmd_times[i]).finite()
            && ref_times[i].finite()
}

/// Whether `f` may be called with every pair of positive numbers.
pub open spec fn takes_positive_pairs<L: Fn(Real, Real) -> Real>(f: L) -> bool {
    forall|c: Real, r: Real|
        c.positive() && r.positive() ==> #[trigger] call_requires(f, (c, r))
}

/// Whether `f` may be called with every number, the NaNs among them.
pub open spec fn takes_numbers<E: Fn(Real) -> Real>(f: E) -> bool {
    forall|x: Real| #[trigger] call_requires(f, (x,))
}

/// Whether `ratios` holds, pair by pair, what `log_ratio` gives.
pub open spec fn are_log_ratios<L: Fn(Real, Real) -> Real>(
    cmd_times: Seq<Real>,
    ref_times: Seq<Real>,
    log_ratio: L,
    ratios: Seq<Real>,
) -> bool {
    &&& ratios.len() == paired(cmd_times, ref_times)
    &&& forall|i: int|
        0 <= i < ratios.len() ==> call_ensures(
            log_ratio,
            (cmd_times[i], ref_times[i]),
            #[trigger] ratios[i],
        )
}

/// Whether `speedup` is the exponential of the negated mean of the log-ratios, or a NaN where there
/// are none.
pub open spec fn is_speedup<F: Fn(&[Real]) -> Real, E: Fn(Real) -> Real>(
    ratios: Seq<Real>,
    mean: F,
    exp_neg: E,
    speedup: Real,
) -> bool {
    if ratios.len() == 0 {
        speedup.nan()
    } else {
        exists|m: Real| #[trigger] gives(mean, ratios, m) && call_ensures(exp_neg, (m,), speedup)
    }
}

/// Whether `result` holds the speedup of the paired samples and the bounds of its confidence
/// interval, the lower bound coming from the upper bound of the log-ratios.
pub open spec fn is_speedup_with_ci<
    L: Fn(Real, Real) -> Real,
    F: Fn(&[Real]) -> Real,
    E: Fn(Real) -> Real,
>(
    cmd_times: Seq<Real>,
    ref_times: Seq<Real>,
    positions: PercentilePositions,
    resamples: usize,
    log_ratio: L,
    mean: F,
    exp_neg: E,
    words: Map<nat, u32>,
    result: (Real, Real, Real),
) -> bool {
    exists|ratios: Seq<Real>, interval: (Real, Real)|
        {
            &&& #[trigger] are_log_ratios(cmd_times, ref_times, log_ratio, ratios)
            &&& is_speedup(ratios, mean, exp_neg, result.0)
            &&& #[trigger] is_bootstrap_interval(
                ratios,
                positions,
                resamples,
                mean,
                words,
                interval,
            )
            &&& call_ensures(exp_neg, (interval.1,), result.1)
            &&& call_ensures(exp_neg, (interval.0,), result.2)
        }
}

/// Computes the log-ratios between paired timing samples.
///
/// For each pair of a command time and a reference time, `log_ratio` takes the difference of their
/// logarithms. If the sequences have different lengths, only the overlapping portion is used.
pub fn compute_log_ratios<L: Fn(Real, Real) -> Real>(
    cmd_times: &[Real],
    ref_times: &[Real],
    log_ratio: &L,
) -> (ratios: Vec<Real>)
    requires
        pairs_are_positive(cmd_times@, ref_times@),
        takes_positive_pairs(*log_ratio),
    ensures
        are_log_ratios(cmd_times@, ref_times@, *log_ratio, ratios@),
{
    let n: usize = if cmd_times.len() < ref_times.len() {
        cmd_times.len()
    } else {
        ref_times.len()
    };
    let mut ratios: Vec<Real> = Vec::with_capacity(n);
    let mut i: usize = 0;
    while i < n
        invariant
            i <= n,
            n == paired(cmd_times@, ref_times@),
            pairs_are_positive(cmd_times@, ref_times@),
            takes_positive_pairs(*log_ratio),
            ratios@.len() == i,
            forall|k: int|
                0 <= k < i ==> call_ensures(
                    *log_ratio,
                    (cmd_times@[k], ref_times@[k]),
                    #[trigger] ratios@[k],
                ),
        decreases n - i,
    {
        let cmd_time = cmd_times[i];
        let ref_time = ref_times[i];
        assert(cmd_times@[i as int].positive());
        ratios.push(log_ratio(cmd_time, ref_time));
        i = i + 1;
    }
    ratios
}

/// Computes the speedup from log-ratios: the exponential of their negated mean.
///
/// A speedup above one means that the command is faster than the reference, one below one that it
/// is slower. Without log-ratios it is NaN.
pub fn speedup_from_log_ratios<F: Fn(&[Real]) -> Real, E: Fn(Real) -> Real>(
    log_ratios: &[Real],
    mean: &F,
    exp_neg: &E,
) -> (speedup: Real)
    requires
        takes_samples(*mean),
        takes_numbers(*exp_neg),
    ensures
        is_speedup(log_ratios@, *mean, *exp_neg, speedup),
{
    if log_ratios.len() == 0 {
        return Real::not_a_number();
    }
    let m = mean(log_ratios);
    assert(gives(*mean, log_ratios@, m));
    exp_neg(m)
}

/// Computes the speedup with confidence interval from timing samples.
///
/// Combines [`compute_log_ratios`], [`speedup_from_log_ratios`] and the bootstrap interval to
/// produce a speedup estimate with confidence bounds, already converted from log-space. Because of
/// the negation, the lower log-ratio is the higher speedup.
pub fn compute_speedup_with_ci<
    L: Fn(Real, Real) -> Real,
    F: Fn(&[Real]) -> Real,
    E: Fn(Real) -> Real,
>(
    cmd_times: &[Real],
    ref_times: &[Real],
    positions: PercentilePositions,
    resamples: usize,
    log_ratio: &L,
    mean: &F,
    exp_neg: &E,
    rng: &mut ChaCha8Rng,
) -> (result: (Real, Real, Real))
    requires
        pairs_are_positive(cmd_times@, ref_times@),
        takes_positive_pairs(*log_ratio),
        takes_samples(*mean),
        takes_numbers(*exp_neg),
        paired(cmd_times@, ref_times@) > 1 ==> resamples > 0,
    ensures
        is_speedup_with_ci(
            cmd_times@,
            ref_times@,
            positions,
            resamples,
            *log_ratio,
            *mean,
            *exp_neg,
            words_left(*old(rng)),
            result,
        ),
        words_left(*final(rng)) == words_after(
            words_left(*old(rng)),
            paired(cmd_times@, ref_times@) as usize,
            indices_drawn(paired(cmd_times@, ref_times@), resamples),
        ),
{
    let log_ratios = compute_log_ratios(cmd_times, ref_times, log_ratio);
    let speedup = speedup_from_log_ratios(log_ratios.as_slice(), mean, exp_neg);
    let interval = bootstrap_percentile_ci(log_ratios.as_slice(), positions, resamples, mean, rng);
    let ci_lower = exp_neg(interval.1);
    let ci_upper = exp_neg(interval.0);
    proof {
        assert(are_log_ratios(cmd_times@, ref_times@, *log_ratio, log_ratios@));
        assert(is_bootstrap_interval(
            log_ratios@,
            positions,
            resamples,
            *mean,
            words_left(*old(rng)),
            interval,
        ));
    }
    (speedup, ci_lower, ci_upper)
}

/// Whether `f` has one result only for the same pair.
pub open spec fn is_function_of_pairs<L: Fn(Real, Real) -> Real>(f: L) -> bool {
    forall|c: Real, d: Real, r: Real, s: Real|
        #[trigger] call_ensures(f, (c, d), r) && #[trigger] call_ensures(f, (c, d), s) ==> r == s
}

/// Whether `f` has one result only for the same number.
pub open spec fn is_function_of_number<E: Fn(Real) -> Real>(f: E) -> bool {
    forall|x: Real, r: Real, s: Real|
        #[trigger] call_ensures(f, (x,), r) && #[trigger] call_ensures(f, (x,), s) ==> r == s
}

/// Whether `f` falls as its argument grows, and makes a NaN of every NaN.
pub open spec fn is_falling<E: Fn(Real) -> Real>(f: E) -> bool {
    &&& forall|x: Real, y: Real, r: Real, s: Real|
        x.le(y) && #[trigger] call_ensures(f, (x,), r) && #[trigger] call_ensures(f, (y,), s)
            ==> s.le(r)
    &&& forall|x: Real, r: Real| x.nan() && #[trigger] call_ensures(f, (x,), r) ==> r.nan()
}

/// The same samples analysed with the same words give the same speedup and the same bounds.
pub proof fn speedup_is_reproducible<
    L: Fn(Real, Real) -> Real,
    F: Fn(&[Real]) -> Real,
    E: Fn(Real) -> Real,
>(
    cmd_times: Seq<Real>,
    ref_times: Seq<Real>,
    positions: PercentilePositions,
    resamples: usize,
    log_ratio: L,
    mean: F,
    exp_neg: E,
    words: Map<nat, u32>,
    a: (Real, Real, Real),
    b: (Real, Real, Real),
)
    requires
        paired(cmd_times, ref_times) > 0,
        is_function_of_pairs(log_ratio),
        is_function_of_samples(mean),
        is_function_of_number(exp_neg),
        is_speedup_with_ci(
            cmd_times,
            ref_times,
            positions,
            resamples,
            log_ratio,
            mean,
            exp_neg,
            words,
            a,
        ),
        is_speedup_with_ci(
            cmd_times,
            ref_times,
            positions,
            resamples,
            log_ratio,
            mean,
            exp_neg,
            words,
            b,
        ),
    ensures
        a == b,
{
    let (p, i) = choose|ratios: Seq<Real>, interval: (Real, Real)|
        {
            &&& #[trigger] are_log_ratios(cmd_times, ref_times, log_ratio, ratios)
            &&& is_speedup(ratios, mean, exp_neg, a.0)
            &&& #[trigger] is_bootstrap_interval(
                ratios,
                positions,
                resamples,
                mean,
                words,
                interval,
            )
            &&& call_ensures(exp_neg, (interval.1,), a.1)
            &&& call_ensures(exp_neg, (interval.0,), a.2)
        };
    let (q, j) = choose|ratios: Seq<Real>, interval: (Real, Real)|
        {
            &&& #[trigger] are_log_ratios(cmd_times, ref_times, log_ratio, ratios)
            &&& is_speedup(ratios, mean, exp_neg, b.0)
            &&& #[trigger] is_bootstrap_interval(
                ratios,
                positions,
                resamples,
                mean,
                words,
                interval,
            )
            &&& call_ensures(exp_neg, (interval.1,), b.1)
            &&& call_ensures(exp_neg, (interval.0,), b.2)
        };
    assert(p =~= q) by {
        assert forall|k: int| 0 <= k < p.len() implies p[k] == q[k] by {
            assert(call_ensures(log_ratio, (cmd_times[k], ref_times[k]), p[k]));
            assert(call_ensures(log_ratio, (cmd_times[k], ref_times[k]), q[k]));
        }
    }
    interval_is_reproducible(
        p,
        positions,
        resamples,
        mean,
        words,
        i,
        j,
    );
    let m = choose|m: Real| #[trigger] gives(mean, p, m) && call_ensures(exp_neg, (m,), a.0);
    let k = choose|m: Real| #[trigger] gives(mean, p, m) && call_ensures(exp_neg, (m,), b.0);
    assert(m == k);
}

/// The bounds of a speedup are in order, where the positions are and the exponential of a negated
/// number falls as the number grows. Bounds that are NaN are in no order.
pub proof fn speedup_bounds_are_ordered<
    L: Fn(Real, Real) -> Real,
    F: Fn(&[Real]) -> Real,
    E: Fn(Real) -> Real,
>(
    cmd_times: Seq<Real>,
    ref_times: Seq<Real>,
    positions: PercentilePositions,
    resamples: usize,
    log_ratio: L,
    mean: F,
    exp_neg: E,
    words: Map<nat, u32>,
    result: (Real, Real, Real),
)
    requires
        paired(cmd_times, ref_times) > 0,
        paired(cmd_times, ref_times) > 1 ==> resamples > 0,
        positions.lower <= positions.upper,
        is_falling(exp_neg),
        !result.1.nan(),
        !result.2.nan(),
        is_speedup_with_ci(
            cmd_times,
            ref_times,
            positions,
            resamples,
            log_ratio,
            mean,
            exp_neg,
            words,
            result,
        ),
    ensures
        result.1.le(result.2),
{
    let (ratios, interval) = choose|ratios: Seq<Real>, interval: (Real, Real)|
        {
            &&& #[trigger] are_log_ratios(cmd_times, ref_times, log_ratio, ratios)
            &&& is_speedup(ratios, mean, exp_neg, result.0)
            &&& #[trigger] is_bootstrap_interval(
                ratios,
                positions,
                resamples,
                mean,
                words,
                interval,
            )
            &&& call_ensures(exp_neg, (interval.1,), result.1)
            &&& call_ensures(exp_neg, (interval.0,), result.2)
        };
    interval_is_ordered(ratios, positions, resamples, mean, words, interval);
}

/// Times without variance have a confidence interval without width: its bounds are the speedup.
pub proof fn steady_times_have_no_width<
    L: Fn(Real, Real) -> Real,
    F: Fn(&[Real]) -> Real,
    E: Fn(Real) -> Real,
>(
    cmd_times: Seq<Real>,
    ref_times: Seq<Real>,
    cmd_time: Real,
    ref_time: Real,
    positions: PercentilePositions,
    resamples: usize,
    log_ratio: L,
    mean: F,
    exp_neg: E,
    words: Map<nat, u32>,
    result: (Real, Real, Real),
)
    requires
        1 < paired(cmd_times, ref_times) <= usize::MAX,
        resamples > 0,
        forall|i: int| 0 <= i < cmd_times.len() ==> cmd_times[i] == cmd_time,
        forall|i: int| 0 <= i < ref_times.len() ==> ref_times[i] == ref_time,
        is_function_of_pairs(log_ratio),
        is_function_of_samples(mean),
        is_function_of_number(exp_neg),
        is_speedup_with_ci(
            cmd_times,
            ref_times,
            positions,
            resamples,
            log_ratio,
            mean,
            exp_neg,
            words,
            result,
        ),
    ensures
        result.1 == result.0,
        result.2 == result.0,
{
    let (ratios, interval) = choose|ratios: Seq<Real>, interval: (Real, Real)|
        {
            &&& #[trigger] are_log_ratios(cmd_times, ref_times, log_ratio, ratios)
            &&& is_speedup(ratios, mean, exp_neg, result.0)
            &&& #[trigger] is_bootstrap_interval(
                ratios,
                positions,
                resamples,
                mean,
                words,
                interval,
            )
            &&& call_ensures(exp_neg, (interval.1,), result.1)
            &&& call_ensures(exp_neg, (interval.0,), result.2)
        };
    assert forall|i: int| 0 <= i < ratios.len() implies #[trigger] ratios[i] == ratios[0] by {
        assert(call_ensures(log_ratio, (cmd_times[i], ref_times[i]), ratios[i]));
        assert(call_ensures(log_ratio, (cmd_times[0], ref_times[0]), ratios[0]));
    }
    constant_data_has_no_width(
        ratios,
        ratios[0],
        positions,
        resamples,
        mean,
        words,
        interval,
    );
    let m = choose|m: Real|
        #[trigger] gives(mean, ratios, m) && call_ensures(exp_neg, (m,), result.0);
    assert(m == interval.0);
}

/// Whether the log-ratio of two finite positive times is finite.
pub open spec fn log_ratios_are_finite<L: Fn(Real, Real) -> Real>(log_ratio: L) -> bool {
    forall|c: Real, r: Real, x: Real|
        c.positive() && r.positive() && c.finite() && r.finite() && #[trigger] call_ensures(
            log_ratio,
            (c, r),
            x,
        ) ==> x.finite()
}

/// For finite times and any confidence level, the lower bound of the speedup is not above the upper
/// one.
pub proof fn bounds_are_ordered_at_every_level<
    L: Fn(Real, Real) -> Real,
    F: Fn(&[Real]) -> Real,
    E: Fn(Real) -> Real,
    P: Fn(Real, usize) -> PercentilePositions,
>(
    cmd_times: Seq<Real>,
    ref_times: Seq<Real>,
    confidence: Real,
    positions_of: P,
    positions: PercentilePositions,
    resamples: usize,
    log_ratio: L,
    mean: F,
    exp_neg: E,
    words: Map<nat, u32>,
    result: (Real, Real, Real),
)
    requires
        0 < paired(cmd_times, ref_times) <= usize::MAX,
        paired(cmd_times, ref_times) > 1 ==> resamples > 0,
        pairs_are_positive(cmd_times, ref_times),
        pairs_are_finite(cmd_times, ref_times),
        is_level(confidence),
        keep_order(positions_of),
        call_ensures(positions_of, (confidence, resamples), positions),
        log_ratios_are_finite(log_ratio),
        means_are_numbers(mean),
        is_falling(exp_neg),
        is_speedup_with_ci(
            cmd_times,
            ref_times,
            positions,
            resamples,
            log_ratio,
            mean,
            exp_neg,
            words,
            result,
        ),
    ensures
        result.1.le(result.2),
{
    let (ratios, interval) = choose|ratios: Seq<Real>, interval: (Real, Real)|
        {
            &&& #[trigger] are_log_ratios(cmd_times, ref_times, log_ratio, ratios)
            &&& is_speedup(ratios, mean, exp_neg, result.0)
            &&& #[trigger] is_bootstrap_interval(
                ratios,
                positions,
                resamples,
                mean,
                words,
                interval,
            )
            &&& call_ensures(exp_neg, (interval.1,), result.1)
            &&& call_ensures(exp_neg, (interval.0,), result.2)
        };
    assert(all_have(ratios, |x: Real| x.finite())) by {
        assert forall|i: int| 0 <= i < ratios.len() implies (#[trigger] ratios[i]).finite() by {
            assert(call_ensures(log_ratio, (cmd_times[i], ref_times[i]), ratios[i]));
            assert(cmd_times[i].positive() && cmd_times[i].finite());
        }
    }
    interval_is_ordered(ratios, positions, resamples, mean, words, interval);
    lemma_bounds_are_numbers(ratios, positions, resamples, mean, words, interval);
}

/// The speedup itself depends on the samples alone: neither on the positions nor on the resampling.
pub proof fn speedup_does_not_depend_on_resampling<
    L: Fn(Real, Real) -> Real,
    F: Fn(&[Real]) -> Real,
    E: Fn(Real) -> Real,
>(
    cmd_times: Seq<Real>,
    ref_times: Seq<Real>,
    positions: PercentilePositions,
    other_positions: PercentilePositions,
    resamples: usize,
    other_resamples: usize,
    log_ratio: L,
    mean: F,
    exp_neg: E,
    words: Map<nat, u32>,
    other_words: Map<nat, u32>,
    result: (Real, Real, Real),
    other_result: (Real, Real, Real),
)
    requires
        paired(cmd_times, ref_times) > 0,
        is_function_of_pairs(log_ratio),
        is_function_of_samples(mean),
        is_function_of_number(exp_neg),
        is_speedup_with_ci(
            cmd_times,
            ref_times,
            positions,
            resamples,
            log_ratio,
            mean,
            exp_neg,
            words,
            result,
        ),
        is_speedup_with_ci(
            cmd_times,
            ref_times,
            other_positions,
            other_resamples,
            log_ratio,
            mean,
            exp_neg,
            other_words,
            other_result,
        ),
    ensures
        result.0 == other_result.0,
{
    let p = choose|ratios: Seq<Real>|
        #[trigger] are_log_ratios(cmd_times, ref_times, log_ratio, ratios) && is_speedup(
            ratios,
            mean,
            exp_neg,
            result.0,
        );
    let q = choose|ratios: Seq<Real>|
        #[trigger] are_log_ratios(cmd_times, ref_times, log_ratio, ratios) && is_speedup(
            ratios,
            mean,
            exp_neg,
            other_result.0,
        );
    assert(p =~= q) by {
        assert forall|k: int| 0 <= k < p.len() implies p[k] == q[k] by {
            assert(call_ensures(log_ratio, (cmd_times[k], ref_times[k]), p[k]));
            assert(call_ensures(log_ratio, (cmd_times[k], ref_times[k]), q[k]));
        }
    }
    let m = choose|m: Real| #[trigger] gives(mean, p, m) && call_ensures(exp_neg, (m,), result.0);
    let k = choose|m: Real|
        #[trigger] gives(mean, p, m) && call_ensures(exp_neg, (m,), other_result.0);
    assert(m == k);
}

/// Samples pair up as far as the shorter sequence goes.
pub proof fn pairs_reach_to_the_shorter(cmd_times: Seq<Real>, ref_times: Seq<Real>)
    ensures
        paired(cmd_times, ref_times) <= cmd_times.len(),
        paired(cmd_times, ref_times) <= ref_times.len(),
        paired(cmd_times, ref_times) == cmd_times.len() || paired(cmd_times, ref_times)
            == ref_times.len(),
        paired(cmd_times, ref_times) == paired(ref_times, cmd_times),
{
}

/// The speedup and its bounds come from one log-ratio for each pair of samples, that of the command
/// before that of the reference. The speedup is what the negated exponential makes of their mean, and
/// the bounds are what it makes of the bounds of a bootstrap over them, which change places. Without
/// a pair there is no speedup.
pub proof fn bounds_come_from_the_log_ratios<
    L: Fn(Real, Real) -> Real,
    F: Fn(&[Real]) -> Real,
    E: Fn(Real) -> Real,
>(
    cmd_times: Seq<Real>,
    ref_times: Seq<Real>,
    positions: PercentilePositions,
    resamples: usize,
    log_ratio: L,
    mean: F,
    exp_neg: E,
    words: Map<nat, u32>,
    result: (Real, Real, Real),
)
    requires
        is_speedup_with_ci(
            cmd_times,
            ref_times,
            positions,
            resamples,
            log_ratio,
            mean,
            exp_neg,
            words,
            result,
        ),
    ensures
        cmd_times.len() == 0 || ref_times.len() == 0 ==> result.0.nan(),
        exists|ratios: Seq<Real>, bounds: (Real, Real)|
            {
                &&& ratios.len() <= cmd_times.len() && ratios.len() <= ref_times.len()
                &&& ratios.len() == cmd_times.len() || ratios.len() == ref_times.len()
                &&& forall|i: int|
                    0 <= i < ratios.len() ==> call_ensures(
                        log_ratio,
                        (cmd_times[i], ref_times[i]),
                        #[trigger] ratios[i],
                    )
                &&& ratios.len() > 0 ==> exists|m: Real| #[trigger]
                    gives(mean, ratios, m) && call_ensures(exp_neg, (m,), result.0)
                &&& #[trigger] is_bootstrap_interval(
                    ratios,
                    positions,
                    resamples,
                    mean,
                    words,
                    bounds,
                )
                &&& call_ensures(exp_neg, (bounds.1,), result.1)
                &&& call_ensures(exp_neg, (bounds.0,), result.2)
            },
{
    let (ratios, bounds) = choose|ratios: Seq<Real>, interval: (Real, Real)|
        {
            &&& #[trigger] are_log_ratios(cmd_times, ref_times, log_ratio, ratios)
            &&& is_speedup(ratios, mean, exp_neg, result.0)
            &&& #[trigger] is_bootstrap_interval(
                ratios,
                positions,
                resamples,
                mean,
                words,
                interval,
            )
            &&& call_ensures(exp_neg, (interval.1,), result.1)
            &&& call_ensures(exp_neg, (interval.0,), result.2)
        };
    assert(is_bootstrap_interval(ratios, positions, resamples, mean, words, bounds));
}

/// A single pair of samples has bounds without width: both come from the log-ratio of that pair, and
/// no index is drawn.
pub proof fn one_pair_has_no_width<
    L: Fn(Real, Real) -> Real,
    F: Fn(&[Real]) -> Real,
    E: Fn(Real) -> Real,
>(
    cmd_times: Seq<Real>,
    ref_times: Seq<Real>,
    positions: PercentilePositions,
    resamples: usize,
    log_ratio: L,
    mean: F,
    exp_neg: E,
    words: Map<nat, u32>,
    result: (Real, Real, Real),
)
    requires
        cmd_times.len() >= 1,
        ref_times.len() >= 1,
        cmd_times.len() == 1 || ref_times.len() == 1,
        is_function_of_number(exp_neg),
        is_speedup_with_ci(
            cmd_times,
            ref_times,
            positions,
            resamples,
            log_ratio,
            mean,
            exp_neg,
            words,
            result,
        ),
    ensures
        result.1 == result.2,
        exists|ratio: Real| #[trigger]
            call_ensures(log_ratio, (cmd_times[0], ref_times[0]), ratio) && call_ensures(
                exp_neg,
                (ratio,),
                result.1,
            ),
{
    let (ratios, bounds) = choose|ratios: Seq<Real>, interval: (Real, Real)|
        {
            &&& #[trigger] are_log_ratios(cmd_times, ref_times, log_ratio, ratios)
            &&& is_speedup(ratios, mean, exp_neg, result.0)
            &&& #[trigger] is_bootstrap_interval(
                ratios,
                positions,
                resamples,
                mean,
                words,
                interval,
            )
            &&& call_ensures(exp_neg, (interval.1,), result.1)
            &&& call_ensures(exp_neg, (interval.0,), result.2)
        };
    assert(ratios.len() == 1);
    assert(call_ensures(log_ratio, (cmd_times[0], ref_times[0]), ratios[0]));
}

/// There is one log-ratio for each pair of samples, in order, up to the end of the shorter sequence:
/// what was returned for the time of the command and that of the reference at the same place.
pub proof fn each_pair_has_a_log_ratio<L: Fn(Real, Real) -> Real>(
    cmd_times: Seq<Real>,
    ref_times: Seq<Real>,
    log_ratio: L,
    ratios: Seq<Real>,
    i: int,
)
    requires
        are_log_ratios(cmd_times, ref_times, log_ratio, ratios),
    ensures
        ratios.len() <= cmd_times.len(),
        ratios.len() <= ref_times.len(),
        ratios.len() == cmd_times.len() || ratios.len() == ref_times.len(),
        0 <= i < cmd_times.len() && i < ref_times.len() ==> call_ensures(
            log_ratio,
            (cmd_times[i], ref_times[i]),
            ratios[i],
        ),
{
}

/// A speedup is what the negated exponential makes of the mean of all log-ratios, taken in order.
/// Without log-ratios it is a NaN.
pub proof fn a_speedup_comes_from_the_mean<F: Fn(&[Real]) -> Real, E: Fn(Real) -> Real>(
    ratios: Seq<Real>,
    mean: F,
    exp_neg: E,
    speedup: Real,
)
    requires
        is_speedup(ratios, mean, exp_neg, speedup),
    ensures
        ratios.len() == 0 ==> speedup.nan(),
        ratios.len() > 0 ==> exists|x: &[Real], m: Real|
            x@ == ratios && #[trigger] call_ensures(mean, (x,), m) && call_ensures(
                exp_neg,
                (m,),
                speedup,
            ),
{
    if ratios.len() > 0 {
        let m = choose|m: Real| #[trigger]
            gives(mean, ratios, m) && call_ensures(exp_neg, (m,), speedup);
        let x = choose|x: &[Real]| #[trigger] call_ensures(mean, (x,), m) && x@ == ratios;
        assert(x@ == ratios && call_ensures(mean, (x,), m));
    }
}

} // verus!
