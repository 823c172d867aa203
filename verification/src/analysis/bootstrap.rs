//! Bootstrap resampling for confidence interval estimation.

use crate::analysis::order::{
    is_kth_smallest, is_order_of, kth_smallest_ascends, kth_smallest_is_unique, order_of,
};
use crate::number::{one, zero, Real};
use crate::random::{draw_index, nth_index, words_after, words_left};
use rand_chacha::ChaCha8Rng;
use vstd::prelude::*;

verus! {

/// Where the bounds of a confidence interval stand among the sorted means of `resamples` resamples.
///
/// For a confidence level `c`, with `alpha = 1 - c`, these are the floor of
/// `alpha / 2 * resamples` and the ceiling of `(1 - alpha / 2) * resamples`.
#[derive(Clone, Copy, Debug, PartialEq, Eq, Structural)]
pub struct PercentilePositions {
    pub lower: usize,
    pub upper: usize,
}

/// Whether `f` may be called with every sequence of at least one number.
pub open spec fn takes_samples<F: Fn(&[Real]) -> Real>(f: F) -> bool {
    forall|x: &[Real]| x@.len() > 0 ==> #[trigger] call_requires(f, (x,))
}

/// Whether `f`, called with the given samples, may return `r`.
pub open spec fn gives<F: Fn(&[Real]) -> Real>(f: F, samples: Seq<Real>, r: Real) -> bool {
    exists|x: &[Real]| #[trigger] call_ensures(f, (x,), r) && x@ == samples
}

/// Whether `f` has one result only for the same samples.
pub open spec fn is_function_of_samples<F: Fn(&[Real]) -> Real>(f: F) -> bool {
    forall|samples: Seq<Real>, r: Real, s: Real|
        #[trigger] gives(f, samples, r) && #[trigger] gives(f, samples, s) ==> r == s
}

/// As many samples as `data` has, drawn from it with replacement, the first of them with the index
/// that is drawn after `first` others.
pub open spec fn resample_of(data: Seq<Real>, words: Map<nat, u32>, first: nat) -> Seq<Real> {
    Seq::new(
        data.len(),
        |j: int| data[nth_index(words, data.len() as usize, (first + j) as nat) as int],
    )
}

/// Whether the first `count` indices that are drawn from the words for `n` samples each belong to
/// a sample.
pub open spec fn draws_in_range(words: Map<nat, u32>, n: usize, count: nat) -> bool {
    forall|k: nat| k < count ==> #[trigger] nth_index(words, n, k) < n
}

/// Whether `means` are the means of as many resamples, drawn one after the other.
pub open spec fn are_bootstrap_means<F: Fn(&[Real]) -> Real>(
    data: Seq<Real>,
    words: Map<nat, u32>,
    mean: F,
    means: Seq<Real>,
) -> bool {
    &&& draws_in_range(words, data.len() as usize, means.len() * data.len())
    &&& forall|i: int|
        0 <= i < means.len() ==> gives(
            mean,
            resample_of(data, words, (i * data.len()) as nat),
            #[trigger] means[i],
        )
}

/// The nearest position among `count` values.
pub open spec fn clamped(position: usize, count: nat) -> int {
    if position < count {
        position as int
    } else {
        count - 1
    }
}

/// Whether `interval` holds the values at the given positions of the sorted means.
pub open spec fn is_percentile_interval(
    means: Seq<Real>,
    positions: PercentilePositions,
    interval: (Real, Real),
) -> bool {
    &&& is_kth_smallest(means, clamped(positions.lower, means.len()), interval.0)
    &&& is_kth_smallest(means, clamped(positions.upper, means.len()), interval.1)
}

/// Whether `interval` is the percentile bootstrap confidence interval of the mean of `data`, with
/// indices drawn from the given words.
pub open spec fn is_bootstrap_interval<F: Fn(&[Real]) -> Real>(
    data: Seq<Real>,
    positions: PercentilePositions,
    resamples: usize,
    mean: F,
    words: Map<nat, u32>,
    interval: (Real, Real),
) -> bool {
    if data.len() == 0 {
        interval.0.nan() && interval.1.nan()
    } else if data.len() == 1 {
        interval == (data[0], data[0])
    } else {
        exists|means: Seq<Real>|
            {
                &&& means.len() == resamples
                &&& #[trigger] are_bootstrap_means(data, words, mean, means)
                &&& is_percentile_interval(means, positions, interval)
            }
    }
}

/// How many indices a bootstrap over `n` samples draws.
pub open spec fn indices_drawn(n: nat, resamples: usize) -> nat {
    if n < 2 {
        0
    } else {
        resamples as nat * n
    }
}

/// Drawing `b` indices after `a` others leaves what drawing `a + b` indices leaves.
proof fn lemma_words_after_adds(words: Map<nat, u32>, n: usize, a: nat, b: nat)
    ensures
        words_after(words_after(words, n, a), n, b) == words_after(words, n, a + b),
    decreases b,
{
    if b > 0 {
        lemma_words_after_adds(words, n, a, (b - 1) as nat);
    }
}

/// A resample that starts `a` draws later is one from the words left by then.
proof fn lemma_resample_shifts(data: Seq<Real>, words: Map<nat, u32>, a: nat)
    ensures
        resample_of(data, words_after(words, data.len() as usize, a), 0) == resample_of(
            data,
            words,
            a,
        ),
{
    let n = data.len() as usize;
    let shifted = resample_of(data, words_after(words, n, a), 0);
    assert forall|j: int| 0 <= j < data.len() implies #[trigger] shifted[j] == resample_of(
        data,
        words,
        a,
    )[j] by {
        lemma_words_after_adds(words, n, a, j as nat);
    }
    assert(shifted =~= resample_of(data, words, a));
}

/// Indices in range that are drawn after others in range keep all of them in range.
proof fn lemma_draws_extend(words: Map<nat, u32>, n: usize, a: nat, b: nat)
    requires
        draws_in_range(words, n, a),
        draws_in_range(words_after(words, n, a), n, b),
    ensures
        draws_in_range(words, n, a + b),
{
    assert forall|k: nat| k < a + b implies #[trigger] nth_index(words, n, k) < n by {
        if k >= a {
            lemma_words_after_adds(words, n, a, (k - a) as nat);
            assert(nth_index(words_after(words, n, a), n, (k - a) as nat) < n);
        }
    }
}

/// Draws as many samples from `data` as it has, with replacement.
pub fn resample(data: &[Real], rng: &mut ChaCha8Rng) -> (picked: Vec<Real>)
    requires
        data@.len() > 0,
    ensures
        picked@ == resample_of(data@, words_left(*old(rng)), 0),
        draws_in_range(words_left(*old(rng)), data@.len() as usize, data@.len()),
        words_left(*final(rng)) == words_after(
            words_left(*old(rng)),
            data@.len() as usize,
            data@.len(),
        ),
{
    let n: usize = data.len();
    let ghost words = words_left(*rng);
    let mut picked: Vec<Real> = Vec::with_capacity(n);
    let mut j: usize = 0;
    while j < n
        invariant
            j <= n,
            n == data@.len(),
            n > 0,
            words_left(*rng) == words_after(words, n, j as nat),
            picked@.len() == j,
            draws_in_range(words, n, j as nat),
            forall|k: int| 0 <= k < j ==> picked@[k] == data@[nth_index(words, n, k as nat) as int],
        decreases n - j,
    {
        let index: usize = draw_index(rng, n);
        picked.push(data[index]);
        j = j + 1;
    }
    assert(picked@ =~= resample_of(data@, words, 0));
    picked
}

/// Computes the percentile bootstrap confidence interval for a dataset.
///
/// Uses the percentile method: samples with replacement `resamples` times, has the mean of each
/// resample taken by `mean`, and returns the confidence interval bounds from the empirical
/// distribution of means. The bounds of an empty dataset are NaN, those of a single sample are that
/// sample, and neither draws anything.
pub fn bootstrap_percentile_ci<F: Fn(&[Real]) -> Real>(
    data: &[Real],
    positions: PercentilePositions,
    resamples: usize,
    mean: &F,
    rng: &mut ChaCha8Rng,
) -> (interval: (Real, Real))
    requires
        takes_samples(*mean),
        data@.len() > 1 ==> resamples > 0,
    ensures
        is_bootstrap_interval(
            data@,
            positions,
            resamples,
            *mean,
            words_left(*old(rng)),
            interval,
        ),
        words_left(*final(rng)) == words_after(
            words_left(*old(rng)),
            data@.len() as usize,
            indices_drawn(data@.len(), resamples),
        ),
{
    if data.len() == 0 {
        return (Real::not_a_number(), Real::not_a_number());
    }
    if data.len() == 1 {
        return (data[0], data[0]);
    }
    let ghost words = words_left(*rng);
    let n: usize = data.len();
    let mut means: Vec<Real> = Vec::with_capacity(resamples);
    let mut i: usize = 0;
    while i < resamples
        invariant
            i <= resamples,
            n == data@.len(),
            n > 1,
            takes_samples(*mean),
            means@.len() == i,
            are_bootstrap_means(data@, words, *mean, means@),
            words_left(*rng) == words_after(words, n, i as nat * n as nat),
        decreases resamples - i,
    {
        let ghost before = means@;
        proof {
            lemma_resample_shifts(data@, words, i as nat * n as nat);
            lemma_words_after_adds(words, n, i as nat * n as nat, n as nat);
            assert(i as nat * n as nat + n as nat == (i + 1) as nat * n as nat)
                by (nonlinear_arith);
        }
        let picked = resample(data, rng);
        proof {
            lemma_draws_extend(words, n, i as nat * n as nat, n as nat);
        }
        let value = mean(picked.as_slice());
        means.push(value);
        assert(gives(*mean, resample_of(data@, words, (i * n) as nat), value));
        i = i + 1;
        assert forall|k: int| 0 <= k < means@.len() implies gives(
            *mean,
            resample_of(data@, words, (k * n) as nat),
            #[trigger] means@[k],
        ) by {
            if k < before.len() {
                assert(means@[k] == before[k]);
            }
        }
    }
    let interval = percentile_interval(means.as_slice(), positions);
    assert(are_bootstrap_means(data@, words, *mean, means@));
    interval
}

/// Picks the values at the given positions of the sorted means. A position beyond the last mean
/// stands for the last one.
pub fn percentile_interval(means: &[Real], positions: PercentilePositions) -> (interval: (
    Real,
    Real,
))
    requires
        means@.len() > 0,
    ensures
        is_percentile_interval(means@, positions, interval),
{
    let order = order_of(means);
    let last: usize = means.len() - 1;
    let lower: usize = if positions.lower < last { positions.lower } else { last };
    let upper: usize = if positions.upper < last { positions.upper } else { last };
    (means[order[lower]], means[order[upper]])
}

/// The samples at the indices that follow the first `first` draws, as many as there are samples.
pub open spec fn picked_by(data: Seq<Real>, draws: Seq<usize>, first: nat) -> Seq<Real> {
    Seq::new(data.len(), |j: int| data[draws[first + j] as int])
}

/// Whether `means` are the means of the resamples that the draws make up, block by block.
pub open spec fn are_means_of_draws<F: Fn(&[Real]) -> Real>(
    data: Seq<Real>,
    draws: Seq<usize>,
    mean: F,
    means: Seq<Real>,
) -> bool {
    forall|i: int|
        0 <= i < means.len() ==> gives(
            mean,
            picked_by(data, draws, (i * data.len()) as nat),
            #[trigger] means[i],
        )
}

/// Whether `interval` is the percentile interval of the means of the resamples that the draws make
/// up.
pub open spec fn is_interval_of_draws<F: Fn(&[Real]) -> Real>(
    data: Seq<Real>,
    draws: Seq<usize>,
    positions: PercentilePositions,
    resamples: usize,
    mean: F,
    interval: (Real, Real),
) -> bool {
    exists|means: Seq<Real>|
        {
            &&& means.len() == resamples
            &&& #[trigger] are_means_of_draws(data, draws, mean, means)
            &&& is_percentile_interval(means, positions, interval)
        }
}

/// Computes the percentile bootstrap confidence interval for a dataset from indices that were drawn
/// before, as many for each resample as there are samples. They may come from any generator.
pub fn interval_of_draws<F: Fn(&[Real]) -> Real>(
    data: &[Real],
    draws: &[usize],
    positions: PercentilePositions,
    resamples: usize,
    mean: &F,
) -> (interval: (Real, Real))
    requires
        data@.len() > 1,
        resamples > 0,
        draws@.len() == resamples * data@.len(),
        forall|k: int| 0 <= k < draws@.len() ==> #[trigger] draws@[k] < data@.len(),
        takes_samples(*mean),
    ensures
        is_interval_of_draws(data@, draws@, positions, resamples, *mean, interval),
{
    let n: usize = data.len();
    let mut means: Vec<Real> = Vec::with_capacity(resamples);
    let mut first: usize = 0;
    let mut i: usize = 0;
    while i < resamples
        invariant
            i <= resamples,
            n == data@.len(),
            n > 1,
            first == i * n,
            draws@.len() == resamples * n,
            forall|k: int| 0 <= k < draws@.len() ==> #[trigger] draws@[k] < n,
            takes_samples(*mean),
            means@.len() == i,
            are_means_of_draws(data@, draws@, *mean, means@),
        decreases resamples - i,
    {
        let ghost before = means@;
        assert(i * n + n == (i + 1) * n && (i + 1) * n <= resamples * n) by (nonlinear_arith)
            requires
                i + 1 <= resamples,
                n > 1,
        ;
        assert(draws.len() == draws@.len());
        let picked = pick(data, draws, first);
        let value = mean(picked.as_slice());
        means.push(value);
        assert(gives(*mean, picked_by(data@, draws@, (i * n) as nat), value));
        assert forall|k: int| 0 <= k < means@.len() implies gives(
            *mean,
            picked_by(data@, draws@, (k * n) as nat),
            #[trigger] means@[k],
        ) by {
            if k < before.len() {
                assert(means@[k] == before[k]);
            }
        }
        first = first + n;
        i = i + 1;
    }
    let interval = percentile_interval(means.as_slice(), positions);
    assert(are_means_of_draws(data@, draws@, *mean, means@));
    interval
}

fn pick(data: &[Real], draws: &[usize], first: usize) -> (picked: Vec<Real>)
    requires
        first + data@.len() <= draws@.len(),
        forall|k: int| 0 <= k < draws@.len() ==> #[trigger] draws@[k] < data@.len(),
    ensures
        picked@ == picked_by(data@, draws@, first as nat),
{
    let n: usize = data.len();
    let total: usize = draws.len();
    let mut picked: Vec<Real> = Vec::with_capacity(n);
    let mut j: usize = 0;
    while j < n
        invariant
            j <= n,
            n == data@.len(),
            total == draws@.len(),
            first + n <= total,
            forall|k: int| 0 <= k < draws@.len() ==> #[trigger] draws@[k] < n,
            picked@ == picked_by(data@, draws@, first as nat).take(j as int),
        decreases n - j,
    {
        assert(draws@[first + j] < n);
        picked.push(data[draws[first + j]]);
        j = j + 1;
        assert(picked@ =~= picked_by(data@, draws@, first as nat).take(j as int));
    }
    assert(picked@ =~= picked_by(data@, draws@, first as nat));
    picked
}

/// The interval of a bootstrap is that of the indices which its generator draws one after the other.
pub proof fn bootstrap_is_of_its_draws<F: Fn(&[Real]) -> Real>(
    data: Seq<Real>,
    draws: Seq<usize>,
    positions: PercentilePositions,
    resamples: usize,
    mean: F,
    words: Map<nat, u32>,
    interval: (Real, Real),
)
    requires
        1 < data.len() <= usize::MAX,
        draws.len() == resamples * data.len(),
        forall|k: int|
            0 <= k < draws.len() ==> #[trigger] draws[k] == nth_index(
                words,
                data.len() as usize,
                k as nat,
            ),
        is_bootstrap_interval(data, positions, resamples, mean, words, interval),
    ensures
        forall|k: int| 0 <= k < draws.len() ==> #[trigger] draws[k] < data.len(),
        is_interval_of_draws(data, draws, positions, resamples, mean, interval),
{
    let n = data.len();
    let means = choose|means: Seq<Real>|
        {
            &&& means.len() == resamples
            &&& #[trigger] are_bootstrap_means(data, words, mean, means)
            &&& is_percentile_interval(means, positions, interval)
        };
    assert forall|k: int| 0 <= k < draws.len() implies #[trigger] draws[k] < data.len() by {
        assert(nth_index(words, n as usize, k as nat) < n);
    }
    assert forall|i: int| 0 <= i < means.len() implies gives(
        mean,
        picked_by(data, draws, (i * n) as nat),
        #[trigger] means[i],
    ) by {
        assert(i * n >= 0 && i * n + n <= resamples * n) by (nonlinear_arith)
            requires
                0 <= i < resamples,
                n > 1,
        ;
        assert(picked_by(data, draws, (i * n) as nat) =~= resample_of(
            data,
            words,
            (i * n) as nat,
        ));
    }
    assert(are_means_of_draws(data, draws, mean, means));
}

/// With the lower position not above the upper one, the lower bound is not above the upper bound.
pub proof fn interval_is_ordered<F: Fn(&[Real]) -> Real>(
    data: Seq<Real>,
    positions: PercentilePositions,
    resamples: usize,
    mean: F,
    words: Map<nat, u32>,
    interval: (Real, Real),
)
    requires
        data.len() > 0,
        data.len() > 1 ==> resamples > 0,
        positions.lower <= positions.upper,
        is_bootstrap_interval(data, positions, resamples, mean, words, interval),
    ensures
        interval.0.rank() <= interval.1.rank(),
{
    if data.len() > 1 {
        let means = choose|means: Seq<Real>|
            {
                &&& means.len() == resamples
                &&& #[trigger] are_bootstrap_means(data, words, mean, means)
                &&& is_percentile_interval(means, positions, interval)
            };
        kth_smallest_ascends(
            means,
            clamped(positions.lower, means.len()),
            clamped(positions.upper, means.len()),
            interval.0,
            interval.1,
        );
    }
}

/// The same data resampled with the same words has the same means.
proof fn lemma_means_are_unique<F: Fn(&[Real]) -> Real>(
    data: Seq<Real>,
    words: Map<nat, u32>,
    mean: F,
    p: Seq<Real>,
    q: Seq<Real>,
)
    requires
        is_function_of_samples(mean),
        p.len() == q.len(),
        are_bootstrap_means(data, words, mean, p),
        are_bootstrap_means(data, words, mean, q),
    ensures
        p == q,
{
    assert forall|i: int| 0 <= i < p.len() implies p[i] == q[i] by {
        let samples = resample_of(data, words, (i * data.len()) as nat);
        assert(gives(mean, samples, p[i]));
        assert(gives(mean, samples, q[i]));
    }
    assert(p =~= q);
}

/// A higher confidence level, whose positions lie further out, gives an interval that encloses that
/// of the lower level for the same data and the same words.
pub proof fn higher_confidence_is_wider<F: Fn(&[Real]) -> Real>(
    data: Seq<Real>,
    outer: PercentilePositions,
    inner: PercentilePositions,
    resamples: usize,
    mean: F,
    words: Map<nat, u32>,
    wide: (Real, Real),
    narrow: (Real, Real),
)
    requires
        data.len() > 0,
        data.len() > 1 ==> resamples > 0,
        outer.lower <= inner.lower,
        inner.upper <= outer.upper,
        is_function_of_samples(mean),
        is_bootstrap_interval(data, outer, resamples, mean, words, wide),
        is_bootstrap_interval(data, inner, resamples, mean, words, narrow),
    ensures
        wide.0.rank() <= narrow.0.rank(),
        narrow.1.rank() <= wide.1.rank(),
{
    if data.len() > 1 {
        let means = choose|means: Seq<Real>|
            {
                &&& means.len() == resamples
                &&& #[trigger] are_bootstrap_means(data, words, mean, means)
                &&& is_percentile_interval(means, outer, wide)
            };
        let same = choose|means: Seq<Real>|
            {
                &&& means.len() == resamples
                &&& #[trigger] are_bootstrap_means(data, words, mean, means)
                &&& is_percentile_interval(means, inner, narrow)
            };
        lemma_means_are_unique(data, words, mean, means, same);
        kth_smallest_ascends(
            means,
            clamped(outer.lower, means.len()),
            clamped(inner.lower, means.len()),
            wide.0,
            narrow.0,
        );
        kth_smallest_ascends(
            means,
            clamped(inner.upper, means.len()),
            clamped(outer.upper, means.len()),
            narrow.1,
            wide.1,
        );
    }
}

/// The same data resampled with the same words gives the same interval.
pub proof fn interval_is_reproducible<F: Fn(&[Real]) -> Real>(
    data: Seq<Real>,
    positions: PercentilePositions,
    resamples: usize,
    mean: F,
    words: Map<nat, u32>,
    a: (Real, Real),
    b: (Real, Real),
)
    requires
        data.len() > 0,
        is_function_of_samples(mean),
        is_bootstrap_interval(data, positions, resamples, mean, words, a),
        is_bootstrap_interval(data, positions, resamples, mean, words, b),
    ensures
        a == b,
{
    if data.len() > 1 {
        let p = choose|means: Seq<Real>|
            {
                &&& means.len() == resamples
                &&& #[trigger] are_bootstrap_means(data, words, mean, means)
                &&& is_percentile_interval(means, positions, a)
            };
        let q = choose|means: Seq<Real>|
            {
                &&& means.len() == resamples
                &&& #[trigger] are_bootstrap_means(data, words, mean, means)
                &&& is_percentile_interval(means, positions, b)
            };
        lemma_means_are_unique(data, words, mean, p, q);
        kth_smallest_is_unique(p, clamped(positions.lower, p.len()), a.0, b.0);
        kth_smallest_is_unique(p, clamped(positions.upper, p.len()), a.1, b.1);
    }
}

/// Data without variance has an interval without width: both bounds are the mean of the data.
pub proof fn constant_data_has_no_width<F: Fn(&[Real]) -> Real>(
    data: Seq<Real>,
    value: Real,
    positions: PercentilePositions,
    resamples: usize,
    mean: F,
    words: Map<nat, u32>,
    interval: (Real, Real),
)
    requires
        1 < data.len() <= usize::MAX,
        resamples > 0,
        forall|i: int| 0 <= i < data.len() ==> data[i] == value,
        is_function_of_samples(mean),
        is_bootstrap_interval(data, positions, resamples, mean, words, interval),
    ensures
        interval.0 == interval.1,
        gives(mean, data, interval.0),
{
    let means = choose|means: Seq<Real>|
        {
            &&& means.len() == resamples
            &&& #[trigger] are_bootstrap_means(data, words, mean, means)
            &&& is_percentile_interval(means, positions, interval)
        };
    assert forall|i: int| 0 <= i < means.len() implies gives(mean, data, #[trigger] means[i]) by {
        let samples = resample_of(data, words, (i * data.len()) as nat);
        assert forall|j: int| 0 <= j < samples.len() implies samples[j] == data[j] by {
            let k = ((i * data.len()) as nat + j) as nat;
            assert(k < means.len() * data.len()) by (nonlinear_arith)
                requires
                    k == i * data.len() + j,
                    0 <= j < data.len(),
                    0 <= i < means.len(),
            ;
            assert(nth_index(words, data.len() as usize, k) < data.len());
        }
        assert(samples =~= data);
    }
    let lower = choose|order: Seq<usize>|
        #[trigger] is_order_of(means, order) && interval.0
            == means[order[clamped(positions.lower, means.len())] as int];
    let upper = choose|order: Seq<usize>|
        #[trigger] is_order_of(means, order) && interval.1
            == means[order[clamped(positions.upper, means.len())] as int];
    assert(lower[clamped(positions.lower, means.len())] < means.len());
    assert(upper[clamped(positions.upper, means.len())] < means.len());
    assert(gives(mean, data, interval.0));
    assert(gives(mean, data, interval.1));
}

/// Whether the mean of samples that all have one property has the other.
pub open spec fn carries<F: Fn(&[Real]) -> Real>(
    mean: F,
    from: spec_fn(Real) -> bool,
    to: spec_fn(Real) -> bool,
) -> bool {
    forall|samples: Seq<Real>, m: Real|
        samples.len() > 0 && all_have(samples, from) && #[trigger] gives(mean, samples, m) ==> to(
            m,
        )
}

/// Whether the mean of samples that all have a property has it too.
pub open spec fn keeps<F: Fn(&[Real]) -> Real>(mean: F, property: spec_fn(Real) -> bool) -> bool {
    carries(mean, property, property)
}

/// Whether all samples have a property.
pub open spec fn all_have(samples: Seq<Real>, property: spec_fn(Real) -> bool) -> bool {
    forall|i: int| 0 <= i < samples.len() ==> property(#[trigger] samples[i])
}

/// Both bounds have a property that samples with another one pass on to their mean, where all
/// samples have that other one and the one follows from the other.
pub proof fn bounds_have_what_means_have<F: Fn(&[Real]) -> Real>(
    data: Seq<Real>,
    from: spec_fn(Real) -> bool,
    to: spec_fn(Real) -> bool,
    positions: PercentilePositions,
    resamples: usize,
    mean: F,
    words: Map<nat, u32>,
    interval: (Real, Real),
)
    requires
        0 < data.len() <= usize::MAX,
        data.len() > 1 ==> resamples > 0,
        all_have(data, from),
        forall|x: Real| #[trigger] from(x) ==> to(x),
        carries(mean, from, to),
        is_bootstrap_interval(data, positions, resamples, mean, words, interval),
    ensures
        to(interval.0),
        to(interval.1),
{
    assert(from(data[0]));
    if data.len() > 1 {
        lemma_bounds_have_what_means_have(
            data,
            from,
            to,
            positions,
            resamples,
            mean,
            words,
            interval,
        );
    }
}

proof fn lemma_bounds_have_what_means_have<F: Fn(&[Real]) -> Real>(
    data: Seq<Real>,
    from: spec_fn(Real) -> bool,
    to: spec_fn(Real) -> bool,
    positions: PercentilePositions,
    resamples: usize,
    mean: F,
    words: Map<nat, u32>,
    interval: (Real, Real),
)
    requires
        1 < data.len() <= usize::MAX,
        resamples > 0,
        all_have(data, from),
        carries(mean, from, to),
        is_bootstrap_interval(data, positions, resamples, mean, words, interval),
    ensures
        to(interval.0),
        to(interval.1),
{
    let means = choose|means: Seq<Real>|
        {
            &&& means.len() == resamples
            &&& #[trigger] are_bootstrap_means(data, words, mean, means)
            &&& is_percentile_interval(means, positions, interval)
        };
    assert forall|i: int| 0 <= i < means.len() implies to(#[trigger] means[i]) by {
        let samples = resample_of(data, words, (i * data.len()) as nat);
        assert forall|j: int| 0 <= j < samples.len() implies from(#[trigger] samples[j]) by {
            let k = ((i * data.len()) as nat + j) as nat;
            assert(k < means.len() * data.len()) by (nonlinear_arith)
                requires
                    k == i * data.len() + j,
                    0 <= j < data.len(),
                    0 <= i < means.len(),
            ;
            assert(nth_index(words, data.len() as usize, k) < data.len());
            assert(from(data[nth_index(words, data.len() as usize, k) as int]));
        }
        assert(gives(mean, samples, means[i]));
    }
    let lower = choose|order: Seq<usize>|
        #[trigger] is_order_of(means, order) && interval.0 == means[order[clamped(
            positions.lower,
            means.len(),
        )] as int];
    let upper = choose|order: Seq<usize>|
        #[trigger] is_order_of(means, order) && interval.1 == means[order[clamped(
            positions.upper,
            means.len(),
        )] as int];
    assert(lower[clamped(positions.lower, means.len())] < means.len());
    assert(upper[clamped(positions.upper, means.len())] < means.len());
}

/// Whether a confidence level lies between zero and one.
pub open spec fn is_level(confidence: Real) -> bool {
    zero().le(confidence) && confidence.le(one())
}

/// Whether `f` may be called with every confidence level and every number of resamples.
pub open spec fn takes_levels<P: Fn(Real, usize) -> PercentilePositions>(f: P) -> bool {
    forall|confidence: Real, resamples: usize| #[trigger] call_requires(f, (confidence, resamples))
}

/// Whether the positions for a higher confidence level never lie further in than those for a lower
/// one.
pub open spec fn spread_with_confidence<P: Fn(Real, usize) -> PercentilePositions>(f: P) -> bool {
    forall|low: Real, high: Real, resamples: usize, p: PercentilePositions, q: PercentilePositions|
        is_level(low) && is_level(high) && low.le(high) && #[trigger] call_ensures(
            f,
            (low, resamples),
            p,
        ) && #[trigger] call_ensures(f, (high, resamples), q) ==> q.lower <= p.lower && p.upper
            <= q.upper
}

/// Whether the lower position for a confidence level is never above the upper one.
pub open spec fn keep_order<P: Fn(Real, usize) -> PercentilePositions>(f: P) -> bool {
    forall|confidence: Real, resamples: usize, p: PercentilePositions|
        is_level(confidence) && #[trigger] call_ensures(f, (confidence, resamples), p) ==> p.lower
            <= p.upper
}

/// Whether the mean of finite numbers is a number.
pub open spec fn means_are_numbers<F: Fn(&[Real]) -> Real>(mean: F) -> bool {
    carries(mean, |x: Real| x.finite(), |x: Real| !x.nan())
}

/// For finite data, the interval for a higher confidence level contains that for a lower one, where
/// the data and the words are the same.
pub proof fn intervals_widen_with_confidence<
    F: Fn(&[Real]) -> Real,
    P: Fn(Real, usize) -> PercentilePositions,
>(
    data: Seq<Real>,
    low: Real,
    high: Real,
    positions_of: P,
    inner: PercentilePositions,
    outer: PercentilePositions,
    resamples: usize,
    mean: F,
    words: Map<nat, u32>,
    narrow: (Real, Real),
    wide: (Real, Real),
)
    requires
        0 < data.len() <= usize::MAX,
        data.len() > 1 ==> resamples > 0,
        all_have(data, |x: Real| x.finite()),
        is_level(low),
        is_level(high),
        low.le(high),
        spread_with_confidence(positions_of),
        call_ensures(positions_of, (low, resamples), inner),
        call_ensures(positions_of, (high, resamples), outer),
        is_function_of_samples(mean),
        means_are_numbers(mean),
        is_bootstrap_interval(data, inner, resamples, mean, words, narrow),
        is_bootstrap_interval(data, outer, resamples, mean, words, wide),
    ensures
        wide.0.le(narrow.0),
        narrow.1.le(wide.1),
{
    higher_confidence_is_wider(data, outer, inner, resamples, mean, words, wide, narrow);
    lemma_bounds_are_numbers(data, outer, resamples, mean, words, wide);
    lemma_bounds_are_numbers(data, inner, resamples, mean, words, narrow);
}

/// The bounds of finite data are numbers.
pub(crate) proof fn lemma_bounds_are_numbers<F: Fn(&[Real]) -> Real>(
    data: Seq<Real>,
    positions: PercentilePositions,
    resamples: usize,
    mean: F,
    words: Map<nat, u32>,
    interval: (Real, Real),
)
    requires
        0 < data.len() <= usize::MAX,
        data.len() > 1 ==> resamples > 0,
        all_have(data, |x: Real| x.finite()),
        means_are_numbers(mean),
        is_bootstrap_interval(data, positions, resamples, mean, words, interval),
    ensures
        !interval.0.nan(),
        !interval.1.nan(),
{
    let from = |x: Real| x.finite();
    let to = |x: Real| !x.nan();
    bounds_have_what_means_have(data, from, to, positions, resamples, mean, words, interval);
}

/// Two calls with the same data, from generators that are to hand out the same words, give the same
/// interval and leave generators that are to hand out the same words.
pub proof fn bootstrap_is_reproducible<F: Fn(&[Real]) -> Real>(
    data: Seq<Real>,
    positions: PercentilePositions,
    resamples: usize,
    mean: F,
    words: Map<nat, u32>,
    other_words: Map<nat, u32>,
    interval: (Real, Real),
    other_interval: (Real, Real),
    left: Map<nat, u32>,
    other_left: Map<nat, u32>,
)
    requires
        data.len() > 0,
        words == other_words,
        is_function_of_samples(mean),
        is_bootstrap_interval(data, positions, resamples, mean, words, interval),
        is_bootstrap_interval(data, positions, resamples, mean, other_words, other_interval),
        left == words_after(words, data.len() as usize, indices_drawn(data.len(), resamples)),
        other_left == words_after(
            other_words,
            data.len() as usize,
            indices_drawn(data.len(), resamples),
        ),
    ensures
        interval == other_interval,
        left == other_left,
{
    interval_is_reproducible(
        data,
        positions,
        resamples,
        mean,
        words,
        interval,
        other_interval,
    );
}

/// A position that is beyond the last value is that of the last value. Every other one is kept.
pub proof fn positions_beyond_the_end_are_the_last(position: usize, count: nat)
    requires
        count > 0,
    ensures
        0 <= clamped(position, count) < count,
        position < count ==> clamped(position, count) == position,
        position >= count ==> clamped(position, count) == count - 1,
{
}

/// Each resample has as many samples as the data. Every sample of it is the one whose index was drawn
/// for it: the first after the draws that came before, and each later one next.
pub proof fn resamples_take_what_was_drawn(
    data: Seq<Real>,
    words: Map<nat, u32>,
    draws: Seq<usize>,
    first: nat,
    j: int,
)
    requires
        0 <= j < data.len(),
    ensures
        resample_of(data, words, first).len() == data.len(),
        resample_of(data, words, first)[j] == data[nth_index(
            words,
            data.len() as usize,
            (first + j) as nat,
        ) as int],
        picked_by(data, draws, first).len() == data.len(),
        picked_by(data, draws, first)[j] == data[draws[first + j] as int],
{
}

/// Without data the bounds are NaNs, and a single value is both bounds. Of two or more values, as
/// many resamples are drawn as there are to be, one after the other, and the bounds are the means
/// that stand at the two positions once the means are sorted.
pub proof fn bounds_are_sorted_means<F: Fn(&[Real]) -> Real>(
    data: Seq<Real>,
    positions: PercentilePositions,
    resamples: usize,
    mean: F,
    words: Map<nat, u32>,
    interval: (Real, Real),
) -> (means: Seq<Real>)
    requires
        is_bootstrap_interval(data, positions, resamples, mean, words, interval),
        resamples > 0,
    ensures
        data.len() == 0 ==> interval.0.nan() && interval.1.nan(),
        data.len() == 1 ==> interval.0 == data[0] && interval.1 == data[0],
        data.len() >= 2 ==> {
            &&& means.len() == resamples
            &&& forall|i: int|
                0 <= i < resamples ==> gives(
                    mean,
                    Seq::new(
                        data.len(),
                        |j: int|
                            data[nth_index(
                                words,
                                data.len() as usize,
                                (i * data.len() + j) as nat,
                            ) as int],
                    ),
                    #[trigger] means[i],
                )
            &&& positions.lower < resamples ==> is_kth_smallest(
                means,
                positions.lower as int,
                interval.0,
            )
            &&& positions.lower >= resamples ==> is_kth_smallest(means, resamples - 1, interval.0)
            &&& positions.upper < resamples ==> is_kth_smallest(
                means,
                positions.upper as int,
                interval.1,
            )
            &&& positions.upper >= resamples ==> is_kth_smallest(means, resamples - 1, interval.1)
        },
{
    let means = choose|means: Seq<Real>|
        {
            &&& means.len() == resamples
            &&& #[trigger] are_bootstrap_means(data, words, mean, means)
            &&& is_percentile_interval(means, positions, interval)
        };
    if data.len() >= 2 {
        assert forall|i: int| 0 <= i < resamples implies gives(
            mean,
            Seq::new(
                data.len(),
                |j: int|
                    data[nth_index(
                        words,
                        data.len() as usize,
                        (i * data.len() + j) as nat,
                    ) as int],
            ),
            #[trigger] means[i],
        ) by {
            assert(0 <= i * data.len()) by (nonlinear_arith)
                requires
                    i >= 0,
            ;
            let resample = resample_of(data, words, (i * data.len()) as nat);
            assert(gives(mean, resample, means[i]));
            assert(resample =~= Seq::new(
                data.len(),
                |j: int|
                    data[nth_index(
                        words,
                        data.len() as usize,
                        (i * data.len() + j) as nat,
                    ) as int],
            ));
        }
    }
    means
}

/// What a function gives for some samples is what a call with just these samples, in this order,
/// returns.
pub proof fn what_is_given_was_returned<F: Fn(&[Real]) -> Real>(
    f: F,
    samples: Seq<Real>,
    r: Real,
    call: &[Real],
)
    ensures
        gives(f, samples, r) ==> exists|x: &[Real]|
            #[trigger] call_ensures(f, (x,), r) && x@ == samples,
        call_ensures(f, (call,), r) ==> gives(f, call@, r),
{
}

/// The bounds that come from given draws are the means that stand at the two positions once the means
/// are sorted. Each mean is that of the samples at as many draws as there are samples, and no draw
/// counts twice.
pub proof fn bounds_of_draws_are_sorted_means<F: Fn(&[Real]) -> Real>(
    data: Seq<Real>,
    draws: Seq<usize>,
    positions: PercentilePositions,
    resamples: usize,
    mean: F,
    interval: (Real, Real),
) -> (means: Seq<Real>)
    requires
        is_interval_of_draws(data, draws, positions, resamples, mean, interval),
        resamples > 0,
    ensures
        means.len() == resamples,
        forall|i: int|
            0 <= i < resamples ==> gives(
                mean,
                Seq::new(data.len(), |j: int| data[draws[i * data.len() + j] as int]),
                #[trigger] means[i],
            ),
        positions.lower < resamples ==> is_kth_smallest(
            means,
            positions.lower as int,
            interval.0,
        ),
        positions.lower >= resamples ==> is_kth_smallest(means, resamples - 1, interval.0),
        positions.upper < resamples ==> is_kth_smallest(
            means,
            positions.upper as int,
            interval.1,
        ),
        positions.upper >= resamples ==> is_kth_smallest(means, resamples - 1, interval.1),
{
    let means = choose|means: Seq<Real>|
        {
            &&& means.len() == resamples
            &&& #[trigger] are_means_of_draws(data, draws, mean, means)
            &&& is_percentile_interval(means, positions, interval)
        };
    assert forall|i: int| 0 <= i < resamples implies gives(
        mean,
        Seq::new(data.len(), |j: int| data[draws[i * data.len() + j] as int]),
        #[trigger] means[i],
    ) by {
        assert(0 <= i * data.len()) by (nonlinear_arith)
            requires
                i >= 0,
        ;
        let resample = picked_by(data, draws, (i * data.len()) as nat);
        assert(gives(mean, resample, means[i]));
        assert(resample =~= Seq::new(
            data.len(),
            |j: int| data[draws[i * data.len() + j] as int],
        ));
    }
    means
}

/// A bootstrap draws one index for each sample of each resample, and none where there are fewer than
/// two samples.
pub proof fn each_resampled_sample_is_drawn(n: nat, resamples: usize)
    ensures
        n >= 2 ==> indices_drawn(n, resamples) == resamples * n,
        n < 2 ==> indices_drawn(n, resamples) == 0,
{
}

} // verus!
