//! The signs of log-ratios, and speedups of commands that are never slower, or never faster, than
//! the reference.

use crate::analysis::bootstrap::{
    all_have, bounds_have_what_means_have, gives, is_bootstrap_interval, keeps,
    PercentilePositions,
};
use crate::analysis::speedup::{
    are_log_ratios, is_speedup, is_speedup_with_ci, paired, pairs_are_finite, pairs_are_positive,
};
use crate::analysis::verdict::{verdict_of, EquivalenceZone, Verdict};
use crate::number::{one, zero, Real};
use vstd::prelude::*;

verus! {

/// Whether a log-ratio is the difference of the logarithms of two finite positive times, which are
/// finite.
pub open spec fn is_difference_of_logs<L: Fn(Real, Real) -> Real>(
    log_ratio: L,
    log: spec_fn(Real) -> Real,
    minus: spec_fn(Real, Real) -> Real,
) -> bool {
    forall|c: Real, r: Real, x: Real|
        c.positive() && r.positive() && c.finite() && r.finite() && #[trigger] call_ensures(
            log_ratio,
            (c, r),
            x,
        ) ==> x == minus(log(c), log(r)) && log(c).finite() && log(r).finite()
}

/// Whether differences of finite numbers are numbers, and change their sign when the two are
/// swapped.
pub open spec fn changes_sign(minus: spec_fn(Real, Real) -> Real) -> bool {
    forall|a: Real, b: Real|
        a.finite() && b.finite() ==> !(#[trigger] minus(a, b)).nan() && minus(b, a).rank()
            == -minus(a, b).rank()
}

/// Swapping the command and the reference negates every log-ratio.
pub proof fn swapping_negates_log_ratios<L: Fn(Real, Real) -> Real>(
    cmd_times: Seq<Real>,
    ref_times: Seq<Real>,
    log_ratio: L,
    log: spec_fn(Real) -> Real,
    minus: spec_fn(Real, Real) -> Real,
    ratios: Seq<Real>,
    swapped: Seq<Real>,
)
    requires
        pairs_are_positive(cmd_times, ref_times),
        pairs_are_finite(cmd_times, ref_times),
        is_difference_of_logs(log_ratio, log, minus),
        changes_sign(minus),
        are_log_ratios(cmd_times, ref_times, log_ratio, ratios),
        are_log_ratios(ref_times, cmd_times, log_ratio, swapped),
    ensures
        swapped.len() == ratios.len(),
        forall|i: int|
            0 <= i < ratios.len() ==> !(#[trigger] ratios[i]).nan() && !swapped[i].nan()
                && swapped[i].rank() == -ratios[i].rank(),
{
    assert forall|i: int| 0 <= i < ratios.len() implies !(#[trigger] ratios[i]).nan()
        && !swapped[i].nan() && swapped[i].rank() == -ratios[i].rank() by {
        let (c, r) = (cmd_times[i], ref_times[i]);
        assert(c.positive() && r.positive() && c.finite() && r.finite());
        assert(call_ensures(log_ratio, (c, r), ratios[i]));
        assert(call_ensures(log_ratio, (r, c), swapped[i]));
        assert(!minus(log(r), log(c)).nan());
    }
}

/// Equal times have a log-ratio of zero.
pub proof fn equal_times_have_no_log_ratio<L: Fn(Real, Real) -> Real>(
    times: Seq<Real>,
    log_ratio: L,
    log: spec_fn(Real) -> Real,
    minus: spec_fn(Real, Real) -> Real,
    ratios: Seq<Real>,
)
    requires
        pairs_are_positive(times, times),
        pairs_are_finite(times, times),
        is_difference_of_logs(log_ratio, log, minus),
        changes_sign(minus),
        are_log_ratios(times, times, log_ratio, ratios),
    ensures
        ratios.len() == times.len(),
        forall|i: int| 0 <= i < ratios.len() ==> (#[trigger] ratios[i]).same(zero()),
{
    swapping_negates_log_ratios(times, times, log_ratio, log, minus, ratios, ratios);
}

/// Whether a log-ratio tells the shorter of two finite times: it is at most zero where the first is
/// not longer, and at least zero where the second is not longer.
pub open spec fn tells_shorter<L: Fn(Real, Real) -> Real>(log_ratio: L) -> bool {
    forall|c: Real, r: Real, x: Real|
        c.positive() && r.positive() && c.finite() && r.finite() && #[trigger] call_ensures(
            log_ratio,
            (c, r),
            x,
        ) ==> (c.le(r) ==> x.le(zero())) && (r.le(c) ==> zero().le(x))
}

/// Whether the exponential of a negated number is at least one where the number is at most zero, and
/// at most one where it is at least zero.
pub open spec fn turns_at_one<E: Fn(Real) -> Real>(exp_neg: E) -> bool {
    forall|x: Real, y: Real|
        #[trigger] call_ensures(exp_neg, (x,), y) ==> (x.le(zero()) ==> one().le(y)) && (
        zero().le(x) ==> y.le(one()))
}

/// Whether the speedup and both bounds come from numbers with the given property.
spec fn comes_from<E: Fn(Real) -> Real>(
    property: spec_fn(Real) -> bool,
    exp_neg: E,
    result: (Real, Real, Real),
) -> bool {
    exists|m: Real, lower: Real, upper: Real|
        {
            &&& property(m) && #[trigger] call_ensures(exp_neg, (m,), result.0)
            &&& property(upper) && #[trigger] call_ensures(exp_neg, (upper,), result.1)
            &&& property(lower) && #[trigger] call_ensures(exp_neg, (lower,), result.2)
        }
}

/// A property that all log-ratios have and that the mean keeps is behind the speedup and its bounds.
proof fn lemma_comes_from<
    L: Fn(Real, Real) -> Real,
    F: Fn(&[Real]) -> Real,
    E: Fn(Real) -> Real,
>(
    cmd_times: Seq<Real>,
    ref_times: Seq<Real>,
    property: spec_fn(Real) -> bool,
    positions: PercentilePositions,
    resamples: usize,
    log_ratio: L,
    mean: F,
    exp_neg: E,
    words: Map<nat, u32>,
    result: (Real, Real, Real),
)
    requires
        0 < paired(cmd_times, ref_times) <= usize::MAX,
        paired(cmd_times, ref_times) > 1 ==> resamples > 0,
        forall|i: int, x: Real|
            0 <= i < paired(cmd_times, ref_times) && #[trigger] call_ensures(
                log_ratio,
                (cmd_times[i], ref_times[i]),
                x,
            ) ==> property(x),
        keeps(mean, property),
        is_speedup_with_ci(
            cmd_times,
            ref_times,
            positions,
            resamples,
            log_ratio,
            mean,
            exp_neg,
            words,
            result,
        ),
    ensures
        comes_from(property, exp_neg, result),
{
    let (ratios, interval) = choose|ratios: Seq<Real>, interval: (Real, Real)|
        {
            &&& #[trigger] are_log_ratios(cmd_times, ref_times, log_ratio, ratios)
            &&& is_speedup(ratios, mean, exp_neg, result.0)
            &&& #[trigger] is_bootstrap_interval(
                ratios,
                positions,
                resamples,
                mean,
                words,
                interval,
            )
            &&& call_ensures(exp_neg, (interval.1,), result.1)
            &&& call_ensures(exp_neg, (interval.0,), result.2)
        };
    assert(all_have(ratios, property));
    bounds_have_what_means_have(
        ratios,
        property,
        property,
        positions,
        resamples,
        mean,
        words,
        interval,
    );
    let m = choose|m: Real|
        #[trigger] gives(mean, ratios, m) && call_ensures(exp_neg, (m,), result.0);
    assert(property(m));
    assert(property(interval.0) && property(interval.1));
}

/// A command that is in no pair slower than the reference has a speedup and bounds of at least one,
/// and is not found to be slower. The arithmetic has to tell shorter times, to keep the sign of the
/// log-ratios in their mean, and to turn at one.
pub proof fn never_slower_is_no_slowdown<
    L: Fn(Real, Real) -> Real,
    F: Fn(&[Real]) -> Real,
    E: Fn(Real) -> Real,
>(
    cmd_times: Seq<Real>,
    ref_times: Seq<Real>,
    positions: PercentilePositions,
    resamples: usize,
    log_ratio: L,
    mean: F,
    exp_neg: E,
    words: Map<nat, u32>,
    result: (Real, Real, Real),
    zone: EquivalenceZone,
)
    requires
        0 < paired(cmd_times, ref_times) <= usize::MAX,
        paired(cmd_times, ref_times) > 1 ==> resamples > 0,
        pairs_are_positive(cmd_times, ref_times),
        pairs_are_finite(cmd_times, ref_times),
        forall|i: int|
            0 <= i < paired(cmd_times, ref_times) ==> (#[trigger] cmd_times[i]).le(ref_times[i]),
        tells_shorter(log_ratio),
        keeps(mean, |x: Real| x.le(zero())),
        turns_at_one(exp_neg),
        zone.lower.le(one()),
        is_speedup_with_ci(
            cmd_times,
            ref_times,
            positions,
            resamples,
            log_ratio,
            mean,
            exp_neg,
            words,
            result,
        ),
    ensures
        one().le(result.0),
        one().le(result.1),
        one().le(result.2),
        verdict_of(result.1, result.2, zone) != Verdict::Slower,
{
    let property = |x: Real| x.le(zero());
    assert forall|i: int, x: Real|
        0 <= i < paired(cmd_times, ref_times) && #[trigger] call_ensures(
            log_ratio,
            (cmd_times[i], ref_times[i]),
            x,
        ) implies property(x) by {
        assert(cmd_times[i].le(ref_times[i]));
    }
    lemma_comes_from(
        cmd_times,
        ref_times,
        property,
        positions,
        resamples,
        log_ratio,
        mean,
        exp_neg,
        words,
        result,
    );
}

/// A command that is in no pair faster than the reference has a speedup and bounds of at most one,
/// and is not found to be faster. The arithmetic has to tell shorter times, to keep the sign of the
/// log-ratios in their mean, and to turn at one.
pub proof fn never_faster_is_no_speedup<
    L: Fn(Real, Real) -> Real,
    F: Fn(&[Real]) -> Real,
    E: Fn(Real) -> Real,
>(
    cmd_times: Seq<Real>,
    ref_times: Seq<Real>,
    positions: PercentilePositions,
    resamples: usize,
    log_ratio: L,
    mean: F,
    exp_neg: E,
    words: Map<nat, u32>,
    result: (Real, Real, Real),
    zone: EquivalenceZone,
)
    requires
        0 < paired(cmd_times, ref_times) <= usize::MAX,
        paired(cmd_times, ref_times) > 1 ==> resamples > 0,
        pairs_are_positive(cmd_times, ref_times),
        pairs_are_finite(cmd_times, ref_times),
        forall|i: int|
            0 <= i < paired(cmd_times, ref_times) ==> ref_times[i].le(#[trigger] cmd_times[i]),
        tells_shorter(log_ratio),
        keeps(mean, |x: Real| zero().le(x)),
        turns_at_one(exp_neg),
        one().le(zone.upper),
        is_speedup_with_ci(
            cmd_times,
            ref_times,
            positions,
            resamples,
            log_ratio,
            mean,
            exp_neg,
            words,
            result,
        ),
    ensures
        result.0.le(one()),
        result.1.le(one()),
        result.2.le(one()),
        verdict_of(result.1, result.2, zone) != Verdict::Faster,
{
    let property = |x: Real| zero().le(x);
    assert forall|i: int, x: Real|
        0 <= i < paired(cmd_times, ref_times) && #[trigger] call_ensures(
            log_ratio,
            (cmd_times[i], ref_times[i]),
            x,
        ) implies property(x) by {
        assert(ref_times[i].le(cmd_times[i]));
    }
    lemma_comes_from(
        cmd_times,
        ref_times,
        property,
        positions,
        resamples,
        log_ratio,
        mean,
        exp_neg,
        words,
        result,
    );
}

} // verus!
