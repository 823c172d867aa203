//! Warnings about benchmark results.

use crate::number::{unsigned_forgets_the_sign, Real, Second};
use crate::options::ExecutorKind;
use vstd::prelude::*;

verus! {

/// The bit pattern of five milliseconds, in seconds.
pub const MIN_EXECUTION_TIME_BITS: u64 = 0x3f74_7ae1_47ae_147b;

/// What is already done against outliers.
#[derive(Debug, Clone, Copy, PartialEq, Eq, Structural)]
pub struct OutlierWarningOptions {
    pub warmup_in_use: bool,
    pub prepare_in_use: bool,
}

/// A list of all possible warnings
#[derive(Debug, Clone, Copy, PartialEq, Eq, Structural)]
pub enum Warnings {
    FastExecutionTime,
    NonZeroExitCode,
    SlowInitialRun(Second, OutlierWarningOptions),
    OutliersDetected(OutlierWarningOptions),
}

/// Threshold for warning about fast execution time
pub fn min_execution_time() -> (time: Second)
    ensures
        time.bits == MIN_EXECUTION_TIME_BITS,
{
    Real { bits: MIN_EXECUTION_TIME_BITS }
}

/// Whether some time is below the threshold.
pub open spec fn has_fast_run(times_real: Seq<Second>) -> bool {
    exists|i: int|
        0 <= i < times_real.len() && (#[trigger] times_real[i]).lt(
            Real { bits: MIN_EXECUTION_TIME_BITS },
        )
}

/// Whether the absolute value of some score is above the threshold.
pub open spec fn has_outlier(scores: Seq<Real>, threshold: Real) -> bool {
    exists|i: int| 0 <= i < scores.len() && threshold.lt((#[trigger] scores[i]).unsigned())
}

/// The warning about outliers, if there is one: a slow first run is preferred to outliers in general.
pub open spec fn outlier_warning(
    first_time: Second,
    scores: Seq<Real>,
    threshold: Real,
    options: OutlierWarningOptions,
) -> Seq<Warnings> {
    if threshold.lt(scores[0]) {
        seq![Warnings::SlowInitialRun(first_time, options)]
    } else if has_outlier(scores, threshold) {
        seq![Warnings::OutliersDetected(options)]
    } else {
        seq![]
    }
}

/// All warnings about the runs of a command.
pub open spec fn warnings_of(
    times_real: Seq<Second>,
    all_succeeded: bool,
    executor_kind: ExecutorKind,
    warmup_count: u64,
    has_prepare_command: bool,
    scores: Seq<Real>,
    threshold: Real,
) -> Seq<Warnings> {
    let options = OutlierWarningOptions {
        warmup_in_use: warmup_count > 0,
        prepare_in_use: has_prepare_command,
    };
    (if executor_kind == ExecutorKind::Shell && has_fast_run(times_real) {
        seq![Warnings::FastExecutionTime]
    } else {
        seq![]
    }) + (if !all_succeeded {
        seq![Warnings::NonZeroExitCode]
    } else {
        seq![]
    }) + outlier_warning(times_real[0], scores, threshold, options)
}

fn any_fast_run(times_real: &[Second]) -> (found: bool)
    ensures
        found == has_fast_run(times_real@),
{
    let threshold = min_execution_time();
    let mut i: usize = 0;
    while i < times_real.len()
        invariant
            i <= times_real@.len(),
            threshold == (Real { bits: MIN_EXECUTION_TIME_BITS }),
            forall|k: int| 0 <= k < i ==> !(#[trigger] times_real@[k]).lt(threshold),
        decreases times_real@.len() - i,
    {
        if times_real[i].less_than(&threshold) {
            return true;
        }
        i = i + 1;
    }
    false
}

fn any_outlier(scores: &[Real], threshold: &Real) -> (found: bool)
    ensures
        found == has_outlier(scores@, *threshold),
{
    let mut i: usize = 0;
    while i < scores.len()
        invariant
            i <= scores@.len(),
            forall|k: int| 0 <= k < i ==> !threshold.lt((#[trigger] scores@[k]).unsigned()),
        decreases scores@.len() - i,
    {
        if threshold.less_than(&scores[i].abs()) {
            return true;
        }
        i = i + 1;
    }
    false
}

/// Generate warnings for benchmark results
///
/// The `scores` are the modified z-scores of the times, and an absolute value above `threshold`
/// makes a time an outlier.
pub fn generate_warnings(
    times_real: &[Second],
    all_succeeded: bool,
    executor_kind: &ExecutorKind,
    warmup_count: u64,
    has_prepare_command: bool,
    scores: &[Real],
    threshold: &Real,
) -> (warnings: Vec<Warnings>)
    requires
        times_real@.len() > 0,
        scores@.len() > 0,
    ensures
        warnings@ == warnings_of(
            times_real@,
            all_succeeded,
            *executor_kind,
            warmup_count,
            has_prepare_command,
            scores@,
            *threshold,
        ),
{
    let mut warnings: Vec<Warnings> = Vec::new();
    let uses_shell = match executor_kind {
        ExecutorKind::Shell => true,
        _ => false,
    };
    if uses_shell && any_fast_run(times_real) {
        warnings.push(Warnings::FastExecutionTime);
    }
    if !all_succeeded {
        warnings.push(Warnings::NonZeroExitCode);
    }
    let options = OutlierWarningOptions {
        warmup_in_use: warmup_count > 0,
        prepare_in_use: has_prepare_command,
    };
    if threshold.less_than(&scores[0]) {
        warnings.push(Warnings::SlowInitialRun(times_real[0], options));
    } else if any_outlier(scores, threshold) {
        warnings.push(Warnings::OutliersDetected(options));
    }
    assert(warnings@ =~= warnings_of(
        times_real@,
        all_succeeded,
        *executor_kind,
        warmup_count,
        has_prepare_command,
        scores@,
        *threshold,
    ));
    warnings
}

/// With a threshold that is not negative, there is a warning about outliers just where the absolute
/// value of some score is above it, and never more than one.
pub proof fn outliers_bring_one_warning(
    first_time: Second,
    scores: Seq<Real>,
    threshold: Real,
    options: OutlierWarningOptions,
)
    requires
        scores.len() > 0,
        threshold.rank() >= 0,
    ensures
        outlier_warning(first_time, scores, threshold, options).len() <= 1,
        outlier_warning(first_time, scores, threshold, options).len() == 1 <==> has_outlier(
            scores,
            threshold,
        ),
{
    if threshold.lt(scores[0]) {
        assert(threshold.lt(scores[0].unsigned()));
    }
}

/// A warning about outliers is given just where some score lies outside the range from the negated
/// threshold to the threshold. Where the first score is above the threshold, the warning is that the
/// first run was slow, and it tells the time of that run. Else the warning is about outliers in
/// general.
pub proof fn scores_out_of_range_bring_a_warning(
    times_real: Seq<Second>,
    all_succeeded: bool,
    executor_kind: ExecutorKind,
    warmup_count: u64,
    has_prepare_command: bool,
    scores: Seq<Real>,
    threshold: Real,
)
    requires
        times_real.len() > 0,
        scores.len() > 0,
    ensures
        ({
            let warnings = warnings_of(
                times_real,
                all_succeeded,
                executor_kind,
                warmup_count,
                has_prepare_command,
                scores,
                threshold,
            );
            let options = OutlierWarningOptions {
                warmup_in_use: warmup_count > 0,
                prepare_in_use: has_prepare_command,
            };
            let slow_start = !threshold.nan() && !scores[0].nan() && threshold.rank() < scores[0].rank();
            let out_of_range = !threshold.nan() && exists|i: int|
                0 <= i < scores.len() && !(#[trigger] scores[i]).nan() && (threshold.rank()
                    < scores[i].rank() || scores[i].rank() < -threshold.rank());
            &&& (exists|k: int|
                0 <= k < warnings.len() && (#[trigger] warnings[k] is SlowInitialRun
                    || warnings[k] is OutliersDetected)) <==> out_of_range
            &&& warnings.contains(Warnings::SlowInitialRun(times_real[0], options)) <==> slow_start
            &&& warnings.contains(Warnings::OutliersDetected(options)) <==> (out_of_range
                && !slow_start)
            &&& forall|k: int|
                0 <= k < warnings.len() ==> match #[trigger] warnings[k] {
                    Warnings::SlowInitialRun(time, given) => time == times_real[0] && given
                        == options,
                    Warnings::OutliersDetected(given) => given == options,
                    _ => true,
                }
        }),
{
    let warnings = warnings_of(
        times_real,
        all_succeeded,
        executor_kind,
        warmup_count,
        has_prepare_command,
        scores,
        threshold,
    );
    let options = OutlierWarningOptions {
        warmup_in_use: warmup_count > 0,
        prepare_in_use: has_prepare_command,
    };
    let last = warnings.len() - 1;
    assert forall|i: int| 0 <= i < scores.len() implies (threshold.lt(
        (#[trigger] scores[i]).unsigned(),
    ) <==> !threshold.nan() && !scores[i].nan() && (threshold.rank() < scores[i].rank() || scores[i].rank()
        < -threshold.rank())) by {
        unsigned_forgets_the_sign(scores[i]);
    }
    if has_outlier(scores, threshold) {
        assert(warnings[last] is SlowInitialRun || warnings[last] is OutliersDetected);
    }
    if threshold.lt(scores[0]) {
        assert(warnings[last] == Warnings::SlowInitialRun(times_real[0], options));
    } else if has_outlier(scores, threshold) {
        assert(warnings[last] == Warnings::OutliersDetected(options));
    }
}

/// A run that is too fast brings a warning just where a shell starts the commands, a failed run
/// always brings one, and no warning is given twice.
pub proof fn fast_and_failed_runs_bring_a_warning(
    times_real: Seq<Second>,
    all_succeeded: bool,
    executor_kind: ExecutorKind,
    warmup_count: u64,
    has_prepare_command: bool,
    scores: Seq<Real>,
    threshold: Real,
)
    ensures
        ({
            let warnings = warnings_of(
                times_real,
                all_succeeded,
                executor_kind,
                warmup_count,
                has_prepare_command,
                scores,
                threshold,
            );
            &&& warnings.contains(Warnings::FastExecutionTime) <==> (executor_kind
                == ExecutorKind::Shell && exists|i: int|
                0 <= i < times_real.len() && (#[trigger] times_real[i]).lt(
                    Real { bits: MIN_EXECUTION_TIME_BITS },
                ))
            &&& warnings.contains(Warnings::NonZeroExitCode) <==> !all_succeeded
            &&& warnings.no_duplicates()
        }),
{
    let warnings = warnings_of(
        times_real,
        all_succeeded,
        executor_kind,
        warmup_count,
        has_prepare_command,
        scores,
        threshold,
    );
    let fast = executor_kind == ExecutorKind::Shell && has_fast_run(times_real);
    if fast {
        assert(warnings[0] == Warnings::FastExecutionTime);
    }
    if !all_succeeded {
        assert(warnings[if fast { 1 } else { 0 }] == Warnings::NonZeroExitCode);
    }
}

} // verus!
