//! How often a command is run.

use crate::number::{zero, Real, Second};
use crate::options::{Options, RunBounds};
use vstd::prelude::*;

verus! {

/// The number of runs, given how many of them fit into the minimum benchmarking time: at least the
/// lower bound, and never above the upper bound.
pub open spec fn run_count_of(bounds: RunBounds, runs_in_min_time: u64) -> u64 {
    let enough = if runs_in_min_time > bounds.min {
        runs_in_min_time
    } else {
        bounds.min
    };
    match bounds.max {
        Some(max) => if max < enough {
            max
        } else {
            enough
        },
        None => enough,
    }
}

/// Keeps a number of runs within bounds.
pub fn bounded_run_count(bounds: &RunBounds, runs_in_min_time: u64) -> (count: u64)
    ensures
        count == run_count_of(*bounds, runs_in_min_time),
{
    let enough: u64 = if runs_in_min_time > bounds.min { runs_in_min_time } else { bounds.min };
    match bounds.max {
        Some(max) => {
            if max < enough {
                max
            } else {
                enough
            }
        },
        None => enough,
    }
}

/// The number of runs keeps within bounds that are in order.
pub proof fn run_count_within_bounds(bounds: RunBounds, runs_in_min_time: u64)
    requires
        bounds.max matches Some(max) ==> bounds.min <= max,
    ensures
        bounds.min <= run_count_of(bounds, runs_in_min_time),
        bounds.max matches Some(max) ==> run_count_of(bounds, runs_in_min_time) <= max,
{
}

/// The number of runs is the number that fits into the minimum benchmarking time, the lower bound or
/// the upper bound. It is below neither of the first two unless the upper bound cuts it off, and so
/// without an upper bound it is at least as large as both.
pub proof fn run_count_is_large_enough(bounds: RunBounds, runs_in_min_time: u64)
    ensures
        bounds.max is None ==> {
            let count = run_count_of(bounds, runs_in_min_time);
            &&& runs_in_min_time <= count
            &&& bounds.min <= count
            &&& count == runs_in_min_time || count == bounds.min
        },
        bounds.max matches Some(max) ==> {
            let count = run_count_of(bounds, runs_in_min_time);
            &&& count <= max
            &&& runs_in_min_time <= count || count == max
            &&& bounds.min <= count || count == max
            &&& count == runs_in_min_time || count == bounds.min || count == max
            &&& runs_in_min_time <= max && bounds.min <= max ==> count == runs_in_min_time || count
                == bounds.min
        },
{
}

/// An upper bound takes effect only where there would be more runs without it.
pub proof fn an_upper_bound_only_cuts_off(min: u64, max: u64, runs_in_min_time: u64)
    ensures
        ({
            let bounded = run_count_of(RunBounds { min, max: Some(max) }, runs_in_min_time);
            let unbounded = run_count_of(RunBounds { min, max: None }, runs_in_min_time);
            &&& unbounded <= max ==> bounded == unbounded
            &&& unbounded > max ==> bounded == max
        }),
{
}

/// The more runs fit into the minimum benchmarking time, the more runs there are.
pub proof fn run_count_is_monotone(bounds: RunBounds, a: u64, b: u64)
    requires
        a <= b,
    ensures
        run_count_of(bounds, a) <= run_count_of(bounds, b),
{
}

/// Whether `f` may be called with every pair of times.
pub open spec fn takes_times<T, A: Fn(Real, Real) -> T>(f: A) -> bool {
    forall|x: Real, y: Real| #[trigger] call_requires(f, (x, y))
}

/// Whether `total` is the sum of the times of one run and of what is run around it, taken from left
/// to right: the run, the executor, the preparation, the conclusion.
pub open spec fn is_sum_of_times<A: Fn(Real, Real) -> Real>(
    initial_time: Second,
    preparation_overhead: Second,
    conclusion_overhead: Second,
    executor_overhead: Second,
    plus: A,
    total: Second,
) -> bool {
    exists|a: Real, b: Real|
        {
            &&& #[trigger] call_ensures(plus, (initial_time, executor_overhead), a)
            &&& #[trigger] call_ensures(plus, (a, preparation_overhead), b)
            &&& call_ensures(plus, (b, conclusion_overhead), total)
        }
}

/// Adds up the times of one run and of what is run around it.
pub fn add_times<A: Fn(Real, Real) -> Real>(
    initial_time: Second,
    preparation_overhead: Second,
    conclusion_overhead: Second,
    executor_overhead: Second,
    plus: &A,
) -> (total: Second)
    requires
        takes_times(*plus),
    ensures
        is_sum_of_times(
            initial_time,
            preparation_overhead,
            conclusion_overhead,
            executor_overhead,
            *plus,
            total,
        ),
{
    let a = plus(initial_time, executor_overhead);
    let b = plus(a, preparation_overhead);
    plus(b, conclusion_overhead)
}

/// Whether `count` is the number of runs for the given times: as many as fit into the minimum
/// benchmarking time, within the bounds.
pub open spec fn is_run_count<A: Fn(Real, Real) -> Real, Q: Fn(Real, Real) -> u64>(
    options: Options,
    initial_time: Second,
    preparation_overhead: Second,
    conclusion_overhead: Second,
    executor_overhead: Second,
    plus: A,
    quotient: Q,
    count: u64,
) -> bool {
    exists|total: Second, runs: u64|
        {
            &&& is_sum_of_times(
                initial_time,
                preparation_overhead,
                conclusion_overhead,
                executor_overhead,
                plus,
                total,
            )
            &&& #[trigger] call_ensures(quotient, (options.min_benchmarking_time, total), runs)
            &&& count == run_count_of(options.run_bounds, runs)
        }
}

/// Calculate the number of benchmark runs based on timing
///
/// The caller brings the arithmetic: the sum of two times, and how many times the second of two
/// times fits into the first.
pub fn calculate_run_count<A: Fn(Real, Real) -> Real, Q: Fn(Real, Real) -> u64>(
    options: &Options,
    initial_time: Second,
    preparation_overhead: Second,
    conclusion_overhead: Second,
    executor_overhead: Second,
    plus: &A,
    quotient: &Q,
) -> (count: u64)
    requires
        takes_times(*plus),
        takes_times(*quotient),
    ensures
        is_run_count(
            *options,
            initial_time,
            preparation_overhead,
            conclusion_overhead,
            executor_overhead,
            *plus,
            *quotient,
            count,
        ),
{
    let total = add_times(
        initial_time,
        preparation_overhead,
        conclusion_overhead,
        executor_overhead,
        plus,
    );
    let runs: u64 = quotient(options.min_benchmarking_time, total);
    bounded_run_count(&options.run_bounds, runs)
}

/// Whether no longer time fits more often into the given one.
pub open spec fn falls_with_time<Q: Fn(Real, Real) -> u64>(quotient: Q, min_time: Second) -> bool {
    forall|t: Real, u: Real, q: u64, r: u64|
        t.positive() && t.le(u) && #[trigger] call_ensures(quotient, (min_time, t), q)
            && #[trigger] call_ensures(quotient, (min_time, u), r) ==> r <= q
}

/// The longer one run takes, the fewer runs there are, or as many.
pub proof fn longer_runs_are_no_more<Q: Fn(Real, Real) -> u64>(
    bounds: RunBounds,
    min_time: Second,
    quotient: Q,
    t: Second,
    u: Second,
    q: u64,
    r: u64,
)
    requires
        t.positive(),
        t.le(u),
        falls_with_time(quotient, min_time),
        call_ensures(quotient, (min_time, t), q),
        call_ensures(quotient, (min_time, u), r),
    ensures
        run_count_of(bounds, r) <= run_count_of(bounds, q),
{
    run_count_is_monotone(bounds, r, q);
}

/// Whether a sum of times that are not negative grows with its first part, and is not negative
/// either.
pub open spec fn grows<A: Fn(Real, Real) -> Real>(plus: A) -> bool {
    forall|a: Real, b: Real, c: Real, x: Real, y: Real|
        zero().le(a) && a.le(b) && zero().le(c) && #[trigger] call_ensures(plus, (a, c), x)
            && #[trigger] call_ensures(plus, (b, c), y) ==> zero().le(x) && x.le(y)
}

/// A slower command never gets more runs than a faster one whose other times are the same.
pub proof fn slower_commands_get_no_more_runs<
    A: Fn(Real, Real) -> Real,
    Q: Fn(Real, Real) -> u64,
>(
    options: Options,
    time: Second,
    slower_time: Second,
    preparation_overhead: Second,
    conclusion_overhead: Second,
    executor_overhead: Second,
    plus: A,
    quotient: Q,
    count: u64,
    slower_count: u64,
)
    requires
        zero().le(time),
        time.le(slower_time),
        zero().le(preparation_overhead),
        zero().le(conclusion_overhead),
        zero().le(executor_overhead),
        forall|total: Real|
            #[trigger] is_sum_of_times(
                time,
                preparation_overhead,
                conclusion_overhead,
                executor_overhead,
                plus,
                total,
            ) ==> total.positive(),
        grows(plus),
        falls_with_time(quotient, options.min_benchmarking_time),
        is_run_count(
            options,
            time,
            preparation_overhead,
            conclusion_overhead,
            executor_overhead,
            plus,
            quotient,
            count,
        ),
        is_run_count(
            options,
            slower_time,
            preparation_overhead,
            conclusion_overhead,
            executor_overhead,
            plus,
            quotient,
            slower_count,
        ),
    ensures
        slower_count <= count,
{
    let min_time = options.min_benchmarking_time;
    let (t, q) = choose|total: Second, runs: u64|
        {
            &&& is_sum_of_times(
                time,
                preparation_overhead,
                conclusion_overhead,
                executor_overhead,
                plus,
                total,
            )
            &&& #[trigger] call_ensures(quotient, (min_time, total), runs)
            &&& count == run_count_of(options.run_bounds, runs)
        };
    let (u, r) = choose|total: Second, runs: u64|
        {
            &&& is_sum_of_times(
                slower_time,
                preparation_overhead,
                conclusion_overhead,
                executor_overhead,
                plus,
                total,
            )
            &&& #[trigger] call_ensures(quotient, (min_time, total), runs)
            &&& slower_count == run_count_of(options.run_bounds, runs)
        };
    longer_runs_are_no_more(options.run_bounds, min_time, quotient, t, u, q, r);
}

/// Whether adding no time to a positive time leaves it as it is.
pub open spec fn adds_nothing<A: Fn(Real, Real) -> Real>(plus: A) -> bool {
    forall|x: Real, y: Real| x.positive() && #[trigger] call_ensures(plus, (x, zero()), y) ==> y == x
}

/// Whether `f` has one result only for the same times.
pub open spec fn is_function_of_times<T, A: Fn(Real, Real) -> T>(f: A) -> bool {
    forall|x: Real, y: Real, r: T, s: T|
        #[trigger] call_ensures(f, (x, y), r) && #[trigger] call_ensures(f, (x, y), s) ==> r == s
}

/// Only the total time of one run matters for the number of runs, not what it is made up of.
pub proof fn only_the_total_matters<A: Fn(Real, Real) -> Real, Q: Fn(Real, Real) -> u64>(
    options: Options,
    initial_time: Second,
    preparation_overhead: Second,
    conclusion_overhead: Second,
    executor_overhead: Second,
    total: Second,
    plus: A,
    quotient: Q,
    count: u64,
    count_of_total: u64,
)
    requires
        is_function_of_times(plus),
        is_function_of_times(quotient),
        adds_nothing(plus),
        total.positive(),
        is_sum_of_times(
            initial_time,
            preparation_overhead,
            conclusion_overhead,
            executor_overhead,
            plus,
            total,
        ),
        is_run_count(
            options,
            initial_time,
            preparation_overhead,
            conclusion_overhead,
            executor_overhead,
            plus,
            quotient,
            count,
        ),
        is_run_count(
            options,
            total,
            zero(),
            zero(),
            zero(),
            plus,
            quotient,
            count_of_total,
        ),
    ensures
        count == count_of_total,
{
}

/// The number of runs goes by how often the time of one run, of the executor, of the preparation and
/// of the conclusion together fits into the minimum benchmarking time. It is that number or a bound,
/// at least that number and the lower bound unless the upper bound cuts it off, and never above the
/// upper bound.
pub proof fn run_count_goes_by_the_total_time<
    A: Fn(Real, Real) -> Real,
    Q: Fn(Real, Real) -> u64,
>(
    options: Options,
    initial_time: Second,
    preparation_overhead: Second,
    conclusion_overhead: Second,
    executor_overhead: Second,
    plus: A,
    quotient: Q,
    count: u64,
    sum: spec_fn(Real, Real) -> Real,
    fits: spec_fn(Real, Real) -> u64,
)
    requires
        is_run_count(
            options,
            initial_time,
            preparation_overhead,
            conclusion_overhead,
            executor_overhead,
            plus,
            quotient,
            count,
        ),
        forall|x: Real, y: Real, z: Real| #[trigger] call_ensures(plus, (x, y), z) ==> z == sum(x, y),
        forall|x: Real, y: Real, runs: u64| #[trigger]
            call_ensures(quotient, (x, y), runs) ==> runs == fits(x, y),
    ensures
        ({
            let total = sum(
                sum(sum(initial_time, executor_overhead), preparation_overhead),
                conclusion_overhead,
            );
            let runs = fits(options.min_benchmarking_time, total);
            let bounds = options.run_bounds;
            let uncut = bounds.max is None || count != bounds.max->0;
            &&& count == runs || count == bounds.min || Some(count) == bounds.max
            &&& uncut ==> runs <= count && bounds.min <= count
            &&& bounds.max matches Some(max) ==> count <= max
        }),
{
}

} // verus!
