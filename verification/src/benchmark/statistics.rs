//! Statistics of timing data.

use crate::analysis::bootstrap::{gives, is_function_of_samples, takes_samples};
use crate::analysis::order::{is_kth_smallest, is_order_of};
use crate::analysis::rearrangement::{
    are_rearranged, is_rearranged_by, lemma_listing_is_complete, sorting_forgets_the_order,
};
use crate::number::{Real, Second};
use vstd::prelude::*;

verus! {

/// Computed statistics from benchmark timing data
#[derive(Debug, Clone, Copy, PartialEq, Eq, Structural)]
pub struct BenchmarkStatistics {
    pub mean: Second,
    pub stddev: Option<Second>,
    pub median: Second,
    pub min: Second,
    pub max: Second,
    pub user_mean: Second,
    pub system_mean: Second,
}

/// Whether every value is a number.
pub open spec fn are_numbers(values: Seq<Real>) -> bool {
    forall|i: int| 0 <= i < values.len() ==> !(#[trigger] values[i]).nan()
}

/// Whether every value is a number other than the infinities.
pub open spec fn are_finite(values: Seq<Real>) -> bool {
    forall|i: int| 0 <= i < values.len() ==> (#[trigger] values[i]).finite()
}

/// Whether `x` is the first of the smallest values.
pub open spec fn is_first_smallest(values: Seq<Real>, x: Real) -> bool {
    exists|k: int|
        {
            &&& 0 <= k < values.len()
            &&& x == #[trigger] values[k]
            &&& forall|j: int| 0 <= j < values.len() ==> x.le(#[trigger] values[j])
            &&& forall|j: int| 0 <= j < k ==> x.lt(#[trigger] values[j])
        }
}

/// Whether `x` is the last of the largest values.
pub open spec fn is_last_largest(values: Seq<Real>, x: Real) -> bool {
    exists|k: int|
        {
            &&& 0 <= k < values.len()
            &&& x == #[trigger] values[k]
            &&& forall|j: int| 0 <= j < values.len() ==> (#[trigger] values[j]).le(x)
            &&& forall|j: int| k < j < values.len() ==> (#[trigger] values[j]).lt(x)
        }
}

/// The smallest of some numbers.
pub fn min(values: &[Real]) -> (smallest: Real)
    requires
        values@.len() > 0,
        are_numbers(values@),
    ensures
        is_first_smallest(values@, smallest),
{
    let mut best: usize = 0;
    let mut i: usize = 1;
    while i < values.len()
        invariant
            0 <= best < i <= values@.len(),
            are_numbers(values@),
            forall|j: int| 0 <= j < i ==> values@[best as int].le(#[trigger] values@[j]),
            forall|j: int| 0 <= j < best ==> values@[best as int].lt(#[trigger] values@[j]),
        decreases values@.len() - i,
    {
        assert(!values@[i as int].nan());
        if values[i].less_than(&values[best]) {
            best = i;
        }
        i = i + 1;
    }
    assert(values@[best as int] == values@[best as int]);
    values[best]
}

/// The largest of some numbers.
pub fn max(values: &[Real]) -> (largest: Real)
    requires
        values@.len() > 0,
        are_numbers(values@),
    ensures
        is_last_largest(values@, largest),
{
    let mut best: usize = 0;
    let mut i: usize = 1;
    while i < values.len()
        invariant
            0 <= best < i <= values@.len(),
            are_numbers(values@),
            forall|j: int| 0 <= j < i ==> (#[trigger] values@[j]).le(values@[best as int]),
            forall|j: int| best < j < i ==> (#[trigger] values@[j]).lt(values@[best as int]),
        decreases values@.len() - i,
    {
        assert(!values@[i as int].nan());
        if !values[i].less_than(&values[best]) {
            best = i;
        }
        i = i + 1;
    }
    assert(values@[best as int] == values@[best as int]);
    values[best]
}

/// Whether `f` may be called with every sequence of numbers, the empty one too.
pub open spec fn takes_any_samples<F: Fn(&[Real]) -> Real>(f: F) -> bool {
    forall|x: &[Real]| #[trigger] call_requires(f, (x,))
}

/// Whether `f` may be called with every sequence of two or more numbers and their mean.
pub open spec fn takes_several_samples<S: Fn(&[Real], Real) -> Real>(f: S) -> bool {
    forall|x: &[Real], m: Real| x@.len() > 1 ==> #[trigger] call_requires(f, (x, m))
}

/// Whether `f`, called with the given samples and their mean, may return `r`.
pub open spec fn gives_deviation<S: Fn(&[Real], Real) -> Real>(
    f: S,
    samples: Seq<Real>,
    mean: Real,
    r: Real,
) -> bool {
    exists|x: &[Real]| #[trigger] call_ensures(f, (x, mean), r) && x@ == samples
}

/// Whether `stats` are the statistics of the given times. A standard deviation is there just where
/// there are two or more times.
pub open spec fn are_statistics<
    M: Fn(&[Real]) -> Real,
    S: Fn(&[Real], Real) -> Real,
    D: Fn(&[Real]) -> Real,
>(
    times_real: Seq<Second>,
    times_user: Seq<Second>,
    times_system: Seq<Second>,
    mean: M,
    stddev: S,
    median: D,
    stats: BenchmarkStatistics,
) -> bool {
    &&& gives(mean, times_real, stats.mean)
    &&& stats.stddev is Some <==> times_real.len() > 1
    &&& stats.stddev matches Some(deviation) ==> gives_deviation(
        stddev,
        times_real,
        stats.mean,
        deviation,
    )
    &&& gives(median, times_real, stats.median)
    &&& is_first_smallest(times_real, stats.min)
    &&& is_last_largest(times_real, stats.max)
    &&& gives(mean, times_user, stats.user_mean)
    &&& gives(mean, times_system, stats.system_mean)
}

impl BenchmarkStatistics {
    /// Compute statistics from timing vectors
    ///
    /// The caller brings the arithmetic: the mean, the standard deviation around a given mean and
    /// the median.
    pub fn from_times<
        M: Fn(&[Real]) -> Real,
        S: Fn(&[Real], Real) -> Real,
        D: Fn(&[Real]) -> Real,
    >(
        times_real: &[Second],
        times_user: &[Second],
        times_system: &[Second],
        mean: &M,
        stddev: &S,
        median: &D,
    ) -> (stats: BenchmarkStatistics)
        requires
            times_real@.len() > 0,
            are_numbers(times_real@),
            takes_any_samples(*mean),
            takes_several_samples(*stddev),
            takes_samples(*median),
        ensures
            are_statistics(
                times_real@,
                times_user@,
                times_system@,
                *mean,
                *stddev,
                *median,
                stats,
            ),
    {
        let t_mean = mean(times_real);
        let t_stddev = if times_real.len() > 1 {
            Some(stddev(times_real, t_mean))
        } else {
            None
        };
        let t_median = median(times_real);
        let t_min = self::min(times_real);
        let t_max = self::max(times_real);
        let user_mean = mean(times_user);
        let system_mean = mean(times_system);
        let stats = BenchmarkStatistics {
            mean: t_mean,
            stddev: t_stddev,
            median: t_median,
            min: t_min,
            max: t_max,
            user_mean,
            system_mean,
        };
        assert(gives(*mean, times_real@, stats.mean));
        assert(gives(*median, times_real@, stats.median));
        stats
    }
}

/// The smallest time is never above the largest.
pub proof fn smallest_is_not_above_largest(values: Seq<Real>, smallest: Real, largest: Real)
    requires
        is_first_smallest(values, smallest),
        is_last_largest(values, largest),
    ensures
        smallest.le(largest),
{
    let k = choose|k: int|
        {
            &&& 0 <= k < values.len()
            &&& largest == #[trigger] values[k]
            &&& forall|j: int| 0 <= j < values.len() ==> (#[trigger] values[j]).le(largest)
            &&& forall|j: int| k < j < values.len() ==> (#[trigger] values[j]).lt(largest)
        };
    assert(smallest.le(values[k]));
}

/// Whether `m` lies between the two values in the middle of the sorted samples, which are one value
/// where there is an odd number of samples.
pub open spec fn is_middle(samples: Seq<Real>, m: Real) -> bool {
    exists|lower: Real, upper: Real|
        {
            &&& #[trigger] is_kth_smallest(samples, (samples.len() - 1) / 2, lower)
            &&& #[trigger] is_kth_smallest(samples, samples.len() as int / 2, upper)
            &&& lower.le(m)
            &&& m.le(upper)
        }
}

/// A median that lies in the middle of the times lies between the smallest and the largest.
pub proof fn median_is_within_the_range<
    M: Fn(&[Real]) -> Real,
    S: Fn(&[Real], Real) -> Real,
    D: Fn(&[Real]) -> Real,
>(
    times_real: Seq<Second>,
    times_user: Seq<Second>,
    times_system: Seq<Second>,
    mean: M,
    stddev: S,
    median: D,
    stats: BenchmarkStatistics,
)
    requires
        times_real.len() > 0,
        are_statistics(times_real, times_user, times_system, mean, stddev, median, stats),
        is_middle(times_real, stats.median),
    ensures
        stats.min.le(stats.median),
        stats.median.le(stats.max),
{
    let n = times_real.len() as int;
    let (lower, upper) = choose|lower: Real, upper: Real|
        {
            &&& #[trigger] is_kth_smallest(times_real, (n - 1) / 2, lower)
            &&& #[trigger] is_kth_smallest(times_real, n / 2, upper)
            &&& lower.le(stats.median)
            &&& stats.median.le(upper)
        };
    let p = choose|order: Seq<usize>|
        #[trigger] is_order_of(times_real, order) && lower == times_real[order[(n - 1)
            / 2] as int];
    let q = choose|order: Seq<usize>|
        #[trigger] is_order_of(times_real, order) && upper == times_real[order[n / 2] as int];
    assert(p[(n - 1) / 2] < n);
    assert(q[n / 2] < n);
    assert(stats.min.le(lower));
    assert(upper.le(stats.max));
}

/// Whether the values in the middle of the sorted samples are the same for both.
pub open spec fn have_same_middle(a: Seq<Real>, b: Seq<Real>) -> bool {
    &&& a.len() == b.len()
    &&& forall|k: int, x: Real, y: Real|
        (k == (a.len() - 1) / 2 || k == a.len() as int / 2) && #[trigger] is_kth_smallest(a, k, x)
            && #[trigger] is_kth_smallest(b, k, y) ==> x.rank() == y.rank()
}

/// Whether `f` has the same value for finite samples whose sorted middle is the same.
pub open spec fn is_function_of_middle<D: Fn(&[Real]) -> Real>(f: D) -> bool {
    forall|a: Seq<Real>, b: Seq<Real>, x: Real, y: Real|
        a.len() > 0 && are_finite(a) && are_finite(b) && have_same_middle(a, b)
            && #[trigger] gives(f, a, x) && #[trigger] gives(f, b, y) ==> x.rank() == y.rank()
}

/// Rearranging finite times keeps the smallest, the largest and the median, where the median depends on
/// the sorted middle alone. The means of the other times do not depend on these times at all: they
/// are what `mean` gives for their own.
pub proof fn statistics_forget_the_order<
    M: Fn(&[Real]) -> Real,
    S: Fn(&[Real], Real) -> Real,
    D: Fn(&[Real]) -> Real,
>(
    times_real: Seq<Second>,
    other_times: Seq<Second>,
    times_user: Seq<Second>,
    times_system: Seq<Second>,
    mean: M,
    stddev: S,
    median: D,
    stats: BenchmarkStatistics,
    other_stats: BenchmarkStatistics,
)
    requires
        times_real.len() > 0,
        are_finite(times_real),
        are_rearranged(times_real, other_times),
        is_function_of_samples(mean),
        is_function_of_middle(median),
        are_statistics(times_real, times_user, times_system, mean, stddev, median, stats),
        are_statistics(other_times, times_user, times_system, mean, stddev, median, other_stats),
    ensures
        stats.min.same(other_stats.min),
        stats.max.same(other_stats.max),
        stats.median.rank() == other_stats.median.rank(),
        stats.user_mean == other_stats.user_mean,
        stats.system_mean == other_stats.system_mean,
        stats.stddev is Some <==> other_stats.stddev is Some,
{
    let listing = choose|listing: Seq<int>|
        #[trigger] is_rearranged_by(times_real, other_times, listing);
    assert forall|i: int| 0 <= i < other_times.len() implies (
    #[trigger] other_times[i]).finite() by {
        assert(0 <= listing[i] < times_real.len());
    }
    assert(have_same_middle(times_real, other_times)) by {
        assert forall|k: int, x: Real, y: Real|
            (k == (times_real.len() - 1) / 2 || k == times_real.len() as int / 2)
                && #[trigger] is_kth_smallest(times_real, k, x) && #[trigger] is_kth_smallest(
                other_times,
                k,
                y,
            ) implies x.rank() == y.rank() by {
            sorting_forgets_the_order(times_real, other_times, k, x, y);
        }
    }
    lemma_extremes_forget_the_order(
        times_real,
        other_times,
        listing,
        stats.min,
        stats.max,
        other_stats.min,
        other_stats.max,
    );
}

proof fn lemma_extremes_forget_the_order(
    a: Seq<Real>,
    b: Seq<Real>,
    listing: Seq<int>,
    min: Real,
    max: Real,
    other_min: Real,
    other_max: Real,
)
    requires
        is_rearranged_by(a, b, listing),
        is_first_smallest(a, min),
        is_last_largest(a, max),
        is_first_smallest(b, other_min),
        is_last_largest(b, other_max),
    ensures
        min.same(other_min),
        max.same(other_max),
{
    assert forall|i: int| 0 <= i < b.len() implies min.le(#[trigger] b[i]) && b[i].le(max) by {
        assert(b[i] == a[listing[i]]);
        assert(0 <= listing[i] < a.len());
    }
    assert forall|i: int| 0 <= i < a.len() implies other_min.le(#[trigger] a[i]) && a[i].le(
        other_max,
    ) by {
        lemma_listing_is_complete(listing, a.len() as int, i);
        let j = choose|j: int| 0 <= j < listing.len() && #[trigger] listing[j] == i;
        assert(b[j] == a[i]);
    }
}

/// What the summary of a benchmark shows.
#[derive(Debug, Clone, Copy, PartialEq, Eq, Structural)]
pub enum Summary {
    /// The time of a single run
    Single { time: Second, user: Second, system: Second },
    /// The mean and the range of several runs
    Series {
        mean: Second,
        stddev: Second,
        user: Second,
        system: Second,
        min: Second,
        max: Second,
        runs: usize,
    },
}

/// What the summary of so many runs shows.
pub open spec fn shown_summary(stats: BenchmarkStatistics, run_count: usize) -> Summary {
    if run_count == 1 {
        Summary::Single { time: stats.mean, user: stats.user_mean, system: stats.system_mean }
    } else {
        Summary::Series {
            mean: stats.mean,
            stddev: stats.stddev->0,
            user: stats.user_mean,
            system: stats.system_mean,
            min: stats.min,
            max: stats.max,
            runs: run_count,
        }
    }
}

/// Chooses what the summary of a benchmark shows.
pub fn benchmark_summary(stats: &BenchmarkStatistics, run_count: usize) -> (summary: Summary)
    requires
        run_count != 1 ==> stats.stddev is Some,
    ensures
        summary == shown_summary(*stats, run_count),
        summary == if run_count == 1 {
            (Summary::Single {
                time: stats.mean,
                user: stats.user_mean,
                system: stats.system_mean,
            })
        } else {
            (Summary::Series {
                mean: stats.mean,
                stddev: stats.stddev->0,
                user: stats.user_mean,
                system: stats.system_mean,
                min: stats.min,
                max: stats.max,
                runs: run_count,
            })
        },
{
    if run_count == 1 {
        return Summary::Single {
            time: stats.mean,
            user: stats.user_mean,
            system: stats.system_mean,
        };
    }
    let stddev = stats.stddev.unwrap();
    Summary::Series {
        mean: stats.mean,
        stddev,
        user: stats.user_mean,
        system: stats.system_mean,
        min: stats.min,
        max: stats.max,
        runs: run_count,
    }
}

/// The statistics describe their times. No time is below the smallest or above the largest, and both
/// were measured. The mean, the median and the deviation around the mean are those of the wall clock
/// times, the other means are those of the times in user mode and in kernel mode, and there is a
/// deviation just of two or more times.
pub proof fn statistics_describe_their_times<
    M: Fn(&[Real]) -> Real,
    S: Fn(&[Real], Real) -> Real,
    D: Fn(&[Real]) -> Real,
>(
    times_real: Seq<Second>,
    times_user: Seq<Second>,
    times_system: Seq<Second>,
    mean: M,
    stddev: S,
    median: D,
    stats: BenchmarkStatistics,
    i: int,
)
    requires
        are_statistics(times_real, times_user, times_system, mean, stddev, median, stats),
        0 <= i < times_real.len(),
    ensures
        stats.min.le(times_real[i]),
        times_real[i].le(stats.max),
        times_real.contains(stats.min),
        times_real.contains(stats.max),
        stats.stddev is Some <==> times_real.len() >= 2,
        exists|x: &[Real]| #[trigger] call_ensures(mean, (x,), stats.mean) && x@ == times_real,
        exists|x: &[Real]| #[trigger] call_ensures(median, (x,), stats.median) && x@ == times_real,
        exists|x: &[Real]| #[trigger] call_ensures(mean, (x,), stats.user_mean) && x@ == times_user,
        exists|x: &[Real]|
            #[trigger] call_ensures(mean, (x,), stats.system_mean) && x@ == times_system,
        stats.stddev matches Some(deviation) ==> exists|x: &[Real]|
            #[trigger] call_ensures(stddev, (x, stats.mean), deviation) && x@ == times_real,
{
    let a = choose|k: int|
        {
            &&& 0 <= k < times_real.len()
            &&& stats.min == #[trigger] times_real[k]
            &&& forall|j: int| 0 <= j < times_real.len() ==> stats.min.le(#[trigger] times_real[j])
            &&& forall|j: int| 0 <= j < k ==> stats.min.lt(#[trigger] times_real[j])
        };
    let b = choose|k: int|
        {
            &&& 0 <= k < times_real.len()
            &&& stats.max == #[trigger] times_real[k]
            &&& forall|j: int| 0 <= j < times_real.len() ==> (#[trigger] times_real[j]).le(stats.max)
            &&& forall|j: int| k < j < times_real.len() ==> (#[trigger] times_real[j]).lt(stats.max)
        };
    assert(times_real[a] == stats.min && times_real[b] == stats.max);
}

/// Among equal times, the smallest is the one that was measured first, and the largest the one that
/// was measured last.
pub proof fn extremes_are_first_and_last(values: Seq<Real>, smallest: Real, largest: Real)
    requires
        is_first_smallest(values, smallest),
        is_last_largest(values, largest),
    ensures
        exists|k: int|
            0 <= k < values.len() && #[trigger] values[k] == smallest && forall|j: int|
                0 <= j < values.len() && #[trigger] values[j].same(smallest) ==> k <= j,
        exists|k: int|
            0 <= k < values.len() && #[trigger] values[k] == largest && forall|j: int|
                0 <= j < values.len() && #[trigger] values[j].same(largest) ==> j <= k,
{
    let a = choose|k: int|
        {
            &&& 0 <= k < values.len()
            &&& smallest == #[trigger] values[k]
            &&& forall|j: int| 0 <= j < values.len() ==> smallest.le(#[trigger] values[j])
            &&& forall|j: int| 0 <= j < k ==> smallest.lt(#[trigger] values[j])
        };
    let b = choose|k: int|
        {
            &&& 0 <= k < values.len()
            &&& largest == #[trigger] values[k]
            &&& forall|j: int| 0 <= j < values.len() ==> (#[trigger] values[j]).le(largest)
            &&& forall|j: int| k < j < values.len() ==> (#[trigger] values[j]).lt(largest)
        };
    assert forall|j: int| 0 <= j < values.len() && #[trigger] values[j].same(
        smallest,
    ) implies a <= j by {
        if j < a {
            assert(smallest.lt(values[j]));
        }
    }
    assert forall|j: int| 0 <= j < values.len() && #[trigger] values[j].same(
        largest,
    ) implies j <= b by {
        if b < j {
            assert(values[j].lt(largest));
        }
    }
    assert(values[a] == smallest && values[b] == largest);
}

/// A single run is summed up by its time alone, several runs by their mean, deviation and range. Both
/// tell the times in user mode and in kernel mode.
pub proof fn summaries_tell_mean_and_range(stats: BenchmarkStatistics, run_count: usize)
    ensures
        shown_summary(stats, run_count) is Single <==> run_count == 1,
        shown_summary(stats, run_count) matches Summary::Single { time, user, system } ==> time
            == stats.mean && user == stats.user_mean && system == stats.system_mean,
        shown_summary(stats, run_count) matches Summary::Series {
            mean,
            stddev,
            user,
            system,
            min,
            max,
            runs,
        } ==> {
            &&& mean == stats.mean
            &&& stats.stddev is Some ==> stats.stddev == Some(stddev)
            &&& user == stats.user_mean
            &&& system == stats.system_mean
            &&& min == stats.min
            &&& max == stats.max
            &&& runs == run_count
        },
{
}

} // verus!
