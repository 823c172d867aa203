//! What is made of the results of benchmarks.

use crate::analysis::bootstrap::{
    indices_drawn, is_function_of_samples, takes_levels, takes_samples, PercentilePositions,
};
use crate::analysis::speedup::{
    compute_speedup_with_ci, is_function_of_number, is_function_of_pairs, is_speedup_with_ci,
    paired, pairs_are_positive, speedup_is_reproducible, takes_numbers, takes_positive_pairs,
};
use crate::analysis::verdict::{
    determine_verdict, takes_deltas, verdict_of, EquivalenceZone, Verdict,
};
use crate::analysis::AnalysisResult;
use crate::benchmark::result::BenchmarkResult;
use crate::number::Real;
use crate::options::{Options, OutputStyleOption};
use crate::random::{entropy_generator, seeded_generator, seeded_words, words_after, words_left};
use rand_chacha::ChaCha8Rng;
use vstd::prelude::*;

verus! {

/// The bit pattern of the default confidence level, ninety-five hundredths.
pub const DEFAULT_CONFIDENCE_BITS: u64 = 0x3fee_6666_6666_6666;

/// The bit pattern of the default practical delta, one hundredth.
pub const DEFAULT_DELTA_BITS: u64 = 0x3f84_7ae1_47ae_147b;

/// The default number of bootstrap resamples.
pub const DEFAULT_RESAMPLES: usize = 10000;

/// The benchmarks of a session, their results and the analysis of these.
pub struct Scheduler {
    pub options: Options,
    pub results: Vec<BenchmarkResult>,
    pub analysis_results: Option<Vec<AnalysisResult>>,
}

/// The run times of each result, none for one that has none.
pub open spec fn times_of(results: Seq<BenchmarkResult>) -> Seq<Seq<Real>> {
    results.map_values(
        |r: BenchmarkResult|
            match r.times {
                Some(times) => times@,
                None => seq![],
            },
    )
}

/// Whether all results have their run times.
pub open spec fn all_have_times(results: Seq<BenchmarkResult>) -> bool {
    forall|i: int| 0 <= i < results.len() ==> (#[trigger] results[i]).times is Some
}

/// The words that are left when the turn of command `i` comes. Only the commands after the first,
/// which is the reference, have a turn.
pub open spec fn words_before(
    times: Seq<Seq<Real>>,
    resamples: usize,
    words: Map<nat, u32>,
    i: int,
) -> Map<nat, u32>
    decreases i,
{
    if i <= 1 {
        words
    } else {
        words_after(
            words_before(times, resamples, words, i - 1),
            paired(times[i - 1], times[0]) as usize,
            indices_drawn(paired(times[i - 1], times[0]), resamples),
        )
    }
}

/// Whether `estimates` holds the speedup and the bounds of each command but the first, with the
/// first as reference.
pub open spec fn are_estimates<
    L: Fn(Real, Real) -> Real,
    F: Fn(&[Real]) -> Real,
    E: Fn(Real) -> Real,
>(
    times: Seq<Seq<Real>>,
    positions: PercentilePositions,
    resamples: usize,
    log_ratio: L,
    mean: F,
    exp_neg: E,
    words: Map<nat, u32>,
    estimates: Seq<(Real, Real, Real)>,
) -> bool {
    forall|i: int|
        0 <= i < estimates.len() ==> is_speedup_with_ci(
            times[i + 1],
            times[0],
            positions,
            resamples,
            log_ratio,
            mean,
            exp_neg,
            words_before(times, resamples, words, i + 1),
            #[trigger] estimates[i],
        )
}

/// The numbers of the first `n` estimates whose speedup is a number.
pub open spec fn reported(estimates: Seq<(Real, Real, Real)>, n: nat) -> Seq<int>
    decreases n,
{
    if n == 0 {
        seq![]
    } else if estimates[n - 1].0.nan() {
        reported(estimates, (n - 1) as nat)
    } else {
        reported(estimates, (n - 1) as nat).push(n - 1)
    }
}

/// Whether `entry` reports the given estimate of the command with the given result.
pub open spec fn is_entry(
    entry: AnalysisResult,
    result: BenchmarkResult,
    estimate: (Real, Real, Real),
    confidence: Real,
    zone: EquivalenceZone,
) -> bool {
    &&& entry.command@ == result.command@
    &&& entry.speedup == estimate.0
    &&& entry.ci_lower == estimate.1
    &&& entry.ci_upper == estimate.2
    &&& entry.confidence == confidence
    &&& entry.verdict == verdict_of(estimate.1, estimate.2, zone)
}

/// Whether `analysis` reports each of the first `n` estimates whose speedup is a number, in order.
pub open spec fn reports(
    results: Seq<BenchmarkResult>,
    estimates: Seq<(Real, Real, Real)>,
    n: nat,
    confidence: Real,
    zone: EquivalenceZone,
    analysis: Seq<AnalysisResult>,
) -> bool {
    let numbers = reported(estimates, n);
    &&& analysis.len() == numbers.len()
    &&& forall|j: int|
        0 <= j < analysis.len() ==> is_entry(
            #[trigger] analysis[j],
            results[numbers[j] + 1],
            estimates[numbers[j]],
            confidence,
            zone,
        )
}

/// Whether `analysis` compares each command with the first, with indices drawn from the given words.
pub open spec fn is_analysis<
    L: Fn(Real, Real) -> Real,
    F: Fn(&[Real]) -> Real,
    E: Fn(Real) -> Real,
>(
    results: Seq<BenchmarkResult>,
    options: Options,
    positions: PercentilePositions,
    zone: EquivalenceZone,
    log_ratio: L,
    mean: F,
    exp_neg: E,
    words: Map<nat, u32>,
    analysis: Seq<AnalysisResult>,
) -> bool {
    exists|estimates: Seq<(Real, Real, Real)>|
        {
            &&& estimates.len() == results.len() - 1
            &&& #[trigger] are_estimates(
                times_of(results),
                positions,
                options.resamples,
                log_ratio,
                mean,
                exp_neg,
                words,
                estimates,
            )
            &&& reports(
                results,
                estimates,
                estimates.len(),
                options.confidence,
                zone,
                analysis,
            )
        }
}

/// The reported numbers ascend, and are those of the estimates whose speedup is a number.
proof fn lemma_reported(estimates: Seq<(Real, Real, Real)>, n: nat)
    ensures
        forall|j: int|
            0 <= j < reported(estimates, n).len() ==> 0 <= #[trigger] reported(estimates, n)[j] < n
                && !estimates[reported(estimates, n)[j]].0.nan(),
        forall|a: int, b: int|
            0 <= a < b < reported(estimates, n).len() ==> reported(estimates, n)[a] < reported(
                estimates,
                n,
            )[b],
        forall|i: int|
            0 <= i < n && !(#[trigger] estimates[i]).0.nan() ==> reported(estimates, n).contains(i),
    decreases n,
{
    if n > 0 {
        let before = reported(estimates, (n - 1) as nat);
        let after = reported(estimates, n);
        lemma_reported(estimates, (n - 1) as nat);
        assert forall|j: int| 0 <= j < after.len() implies 0 <= #[trigger] after[j] < n
            && !estimates[after[j]].0.nan() by {
            if j < before.len() {
                assert(after[j] == before[j]);
            }
        }
        assert forall|a: int, b: int| 0 <= a < b < after.len() implies after[a] < after[b] by {
            assert(after[a] == before[a]);
            if b < before.len() {
                assert(after[b] == before[b]);
            }
        }
        assert forall|i: int| 0 <= i < n && !(#[trigger] estimates[i]).0.nan() implies after.contains(
            i,
        ) by {
            if i < n - 1 {
                assert(before.contains(i));
                let j = choose|j: int| 0 <= j < before.len() && before[j] == i;
                assert(after[j] == i);
            } else {
                assert(after[before.len() as int] == i);
            }
        }
    }
}

/// Each entry of an analysis holds the estimate of one command and the verdict on that estimate.
proof fn lemma_entries<L: Fn(Real, Real) -> Real, F: Fn(&[Real]) -> Real, E: Fn(Real) -> Real>(
    results: Seq<BenchmarkResult>,
    options: Options,
    positions: PercentilePositions,
    zone: EquivalenceZone,
    log_ratio: L,
    mean: F,
    exp_neg: E,
    words: Map<nat, u32>,
    analysis: Seq<AnalysisResult>,
) -> (numbers: Seq<int>)
    requires
        is_analysis(
            results,
            options,
            positions,
            zone,
            log_ratio,
            mean,
            exp_neg,
            words,
            analysis,
        ),
        results.len() > 0,
    ensures
        numbers.len() == analysis.len(),
        forall|j: int| 0 <= j < numbers.len() ==> 1 <= #[trigger] numbers[j] < results.len(),
        forall|a: int, b: int| 0 <= a < b < numbers.len() ==> numbers[a] < numbers[b],
        forall|j: int|
            0 <= j < analysis.len() ==> {
                &&& (#[trigger] analysis[j]).command@ == results[numbers[j]].command@
                &&& !analysis[j].speedup.nan()
                &&& analysis[j].confidence == options.confidence
                &&& analysis[j].verdict == verdict_of(
                    analysis[j].ci_lower,
                    analysis[j].ci_upper,
                    zone,
                )
                &&& is_speedup_with_ci(
                    times_of(results)[numbers[j]],
                    times_of(results)[0],
                    positions,
                    options.resamples,
                    log_ratio,
                    mean,
                    exp_neg,
                    words_before(times_of(results), options.resamples, words, numbers[j]),
                    (analysis[j].speedup, analysis[j].ci_lower, analysis[j].ci_upper),
                )
            },
        forall|i: int|
            1 <= i < results.len() && !#[trigger] numbers.contains(i) ==> exists|
                estimate: (Real, Real, Real),
            |
                estimate.0.nan() && #[trigger] is_speedup_with_ci(
                    times_of(results)[i],
                    times_of(results)[0],
                    positions,
                    options.resamples,
                    log_ratio,
                    mean,
                    exp_neg,
                    words_before(times_of(results), options.resamples, words, i),
                    estimate,
                ),
{
    let estimates = choose|estimates: Seq<(Real, Real, Real)>|
        {
            &&& estimates.len() == results.len() - 1
            &&& #[trigger] are_estimates(
                times_of(results),
                positions,
                options.resamples,
                log_ratio,
                mean,
                exp_neg,
                words,
                estimates,
            )
            &&& reports(
                results,
                estimates,
                estimates.len(),
                options.confidence,
                zone,
                analysis,
            )
        };
    let found = reported(estimates, estimates.len());
    lemma_reported(estimates, estimates.len());
    let numbers = Seq::new(found.len(), |j: int| found[j] + 1);
    assert forall|j: int| 0 <= j < analysis.len() implies {
        &&& (#[trigger] analysis[j]).command@ == results[numbers[j]].command@
        &&& !analysis[j].speedup.nan()
        &&& analysis[j].confidence == options.confidence
        &&& analysis[j].verdict == verdict_of(analysis[j].ci_lower, analysis[j].ci_upper, zone)
        &&& is_speedup_with_ci(
            times_of(results)[numbers[j]],
            times_of(results)[0],
            positions,
            options.resamples,
            log_ratio,
            mean,
            exp_neg,
            words_before(times_of(results), options.resamples, words, numbers[j]),
            (analysis[j].speedup, analysis[j].ci_lower, analysis[j].ci_upper),
        )
    } by {
        assert(is_entry(
            analysis[j],
            results[found[j] + 1],
            estimates[found[j]],
            options.confidence,
            zone,
        ));
        let estimate = estimates[found[j]];
        assert(estimate == (analysis[j].speedup, analysis[j].ci_lower, analysis[j].ci_upper));
    }
    assert forall|i: int| 1 <= i < results.len() && !#[trigger] numbers.contains(i) implies exists|
        estimate: (Real, Real, Real),
    |
        estimate.0.nan() && #[trigger] is_speedup_with_ci(
            times_of(results)[i],
            times_of(results)[0],
            positions,
            options.resamples,
            log_ratio,
            mean,
            exp_neg,
            words_before(times_of(results), options.resamples, words, i),
            estimate,
        ) by {
        let estimate = estimates[i - 1];
        if !estimate.0.nan() {
            assert(found.contains(i - 1));
            let j = choose|j: int| 0 <= j < found.len() && found[j] == i - 1;
            assert(numbers[j] == i);
        }
    }
    numbers
}

/// Every entry of an analysis whose bounds are in order says where its own interval lies: the
/// command is faster just when every number of the interval is above the zone, slower just when
/// every one is below it, and there is no clear difference just when the interval and the zone
/// share a number.
pub proof fn entries_tell_where_their_intervals_lie<
    L: Fn(Real, Real) -> Real,
    F: Fn(&[Real]) -> Real,
    E: Fn(Real) -> Real,
>(
    results: Seq<BenchmarkResult>,
    options: Options,
    positions: PercentilePositions,
    zone: EquivalenceZone,
    log_ratio: L,
    mean: F,
    exp_neg: E,
    words: Map<nat, u32>,
    analysis: Seq<AnalysisResult>,
    j: int,
)
    requires
        results.len() > 0,
        is_analysis(
            results,
            options,
            positions,
            zone,
            log_ratio,
            mean,
            exp_neg,
            words,
            analysis,
        ),
        0 <= j < analysis.len(),
        analysis[j].ci_lower.le(analysis[j].ci_upper),
        zone.lower.le(zone.upper),
    ensures
        analysis[j].verdict == Verdict::Faster <==> (forall|x: Real|
            (#[trigger] analysis[j].ci_lower.le(x)) && x.le(analysis[j].ci_upper) ==> zone.upper.lt(
                x,
            )),
        analysis[j].verdict == Verdict::Slower <==> (forall|x: Real|
            (#[trigger] analysis[j].ci_lower.le(x)) && x.le(analysis[j].ci_upper) ==> x.lt(
                zone.lower,
            )),
        analysis[j].verdict == Verdict::NoClearDifference <==> (exists|x: Real|
            (#[trigger] analysis[j].ci_lower.le(x)) && x.le(analysis[j].ci_upper) && zone.lower.le(
                x,
            ) && x.le(zone.upper)),
{
    let numbers = lemma_entries(
        results,
        options,
        positions,
        zone,
        log_ratio,
        mean,
        exp_neg,
        words,
        analysis,
    );
    let lower = analysis[j].ci_lower;
    let upper = analysis[j].ci_upper;
    assert(lower.le(lower));
    assert(lower.le(upper));
    if !zone.upper.lt(lower) && !upper.lt(zone.lower) {
        let shared = if lower.lt(zone.lower) { zone.lower } else { lower };
        assert(lower.le(shared) && shared.le(upper) && zone.lower.le(shared) && shared.le(
            zone.upper,
        ));
    }
}

/// An analysis compares commands with the first one. It has an entry for each other command whose
/// speedup over the first is a number, in the order of the commands, and an entry holds the speedup
/// and the bounds of the command that it names. A command without an entry has no speedup.
pub proof fn commands_are_compared_with_the_first<
    L: Fn(Real, Real) -> Real,
    F: Fn(&[Real]) -> Real,
    E: Fn(Real) -> Real,
>(
    results: Seq<BenchmarkResult>,
    options: Options,
    positions: PercentilePositions,
    zone: EquivalenceZone,
    log_ratio: L,
    mean: F,
    exp_neg: E,
    words: Map<nat, u32>,
    analysis: Seq<AnalysisResult>,
) -> (numbers: Seq<int>)
    requires
        results.len() > 0,
        all_have_times(results),
        is_analysis(
            results,
            options,
            positions,
            zone,
            log_ratio,
            mean,
            exp_neg,
            words,
            analysis,
        ),
    ensures
        numbers.len() == analysis.len(),
        forall|j: int| 0 <= j < numbers.len() ==> 1 <= #[trigger] numbers[j] < results.len(),
        forall|a: int, b: int| 0 <= a < b < numbers.len() ==> numbers[a] < numbers[b],
        forall|j: int|
            0 <= j < analysis.len() ==> {
                &&& (#[trigger] analysis[j]).command@ == results[numbers[j]].command@
                &&& !analysis[j].speedup.nan()
                &&& analysis[j].confidence == options.confidence
                &&& analysis[j].verdict == Verdict::Faster <==> zone.upper.lt(analysis[j].ci_lower)
                &&& analysis[j].verdict == Verdict::Slower <==> (!zone.upper.lt(
                    analysis[j].ci_lower,
                ) && analysis[j].ci_upper.lt(zone.lower))
                &&& is_speedup_with_ci(
                    results[numbers[j]].times->0@,
                    results[0].times->0@,
                    positions,
                    options.resamples,
                    log_ratio,
                    mean,
                    exp_neg,
                    words_before(times_of(results), options.resamples, words, numbers[j]),
                    (analysis[j].speedup, analysis[j].ci_lower, analysis[j].ci_upper),
                )
            },
        forall|i: int|
            1 <= i < results.len() && !#[trigger] numbers.contains(i) ==> exists|
                estimate: (Real, Real, Real),
            |
                estimate.0.nan() && #[trigger] is_speedup_with_ci(
                    results[i].times->0@,
                    results[0].times->0@,
                    positions,
                    options.resamples,
                    log_ratio,
                    mean,
                    exp_neg,
                    words_before(times_of(results), options.resamples, words, i),
                    estimate,
                ),
{
    let numbers = lemma_entries(
        results,
        options,
        positions,
        zone,
        log_ratio,
        mean,
        exp_neg,
        words,
        analysis,
    );
    let times = times_of(results);
    assert forall|i: int| 0 <= i < results.len() implies #[trigger] times[i]
        == results[i].times->0@ by {
        assert(results[i].times is Some);
    }
    assert(times[0] == results[0].times->0@);
    assert forall|j: int| 0 <= j < analysis.len() implies {
        &&& (#[trigger] analysis[j]).command@ == results[numbers[j]].command@
        &&& !analysis[j].speedup.nan()
        &&& analysis[j].confidence == options.confidence
        &&& is_speedup_with_ci(
            results[numbers[j]].times->0@,
            results[0].times->0@,
            positions,
            options.resamples,
            log_ratio,
            mean,
            exp_neg,
            words_before(times_of(results), options.resamples, words, numbers[j]),
            (analysis[j].speedup, analysis[j].ci_lower, analysis[j].ci_upper),
        )
    } by {
        assert(times[numbers[j]] == results[numbers[j]].times->0@);
    }
    assert forall|i: int| 1 <= i < results.len() && !#[trigger] numbers.contains(i) implies exists|
        estimate: (Real, Real, Real),
    |
        estimate.0.nan() && #[trigger] is_speedup_with_ci(
            results[i].times->0@,
            results[0].times->0@,
            positions,
            options.resamples,
            log_ratio,
            mean,
            exp_neg,
            words_before(times_of(results), options.resamples, words, i),
            estimate,
        ) by {
        assert(times[i] == results[i].times->0@);
    }
    numbers
}

/// The commands draw from one sequence of words, one after the other: the second command draws
/// first, and each later one draws from what the command before it left. Without a pair of runs, or
/// with only one, a command draws nothing.
pub proof fn commands_draw_one_after_the_other(
    times: Seq<Seq<Real>>,
    resamples: usize,
    words: Map<nat, u32>,
    i: int,
)
    requires
        1 <= i < times.len(),
    ensures
        words_before(times, resamples, words, 1) == words,
        ({
            let pairs = if times[i].len() <= times[0].len() { times[i].len() } else { times[0].len() };
            &&& pairs >= 2 ==> words_before(times, resamples, words, i + 1) == words_after(
                words_before(times, resamples, words, i),
                pairs as usize,
                resamples as nat * pairs,
            )
            &&& pairs < 2 ==> words_before(times, resamples, words, i + 1) == words_before(
                times,
                resamples,
                words,
                i,
            )
        }),
{
    reveal_with_fuel(words_before, 2);
    assert(words_before(times, resamples, words, i + 1) == words_after(
        words_before(times, resamples, words, i),
        paired(times[i], times[0]) as usize,
        indices_drawn(paired(times[i], times[0]), resamples),
    ));
}

/// Whether indices may be drawn from the given words: with a seed, these are fixed.
pub open spec fn obeys_seed(seed: Option<u64>, words: Map<nat, u32>) -> bool {
    match seed {
        Some(seed) => words == seeded_words(seed),
        None => true,
    }
}

/// Whether every run time that is compared is above zero, and there are resamples where there is
/// something to resample.
pub open spec fn can_be_compared(results: Seq<BenchmarkResult>, resamples: usize) -> bool {
    forall|i: int|
        1 <= i < results.len() ==> {
            &&& pairs_are_positive(#[trigger] times_of(results)[i], times_of(results)[0])
            &&& paired(times_of(results)[i], times_of(results)[0]) > 1 ==> resamples > 0
        }
}

/// How the verdict of a command is coloured.
#[derive(Debug, Clone, Copy, PartialEq, Eq, Structural)]
pub enum VerdictColor {
    Green,
    Red,
    Yellow,
}

/// What is printed about the analysis of a command.
#[derive(Debug, Clone, Copy, PartialEq, Eq, Structural)]
pub struct AnalysisLine {
    pub verdict: Verdict,
    pub color: VerdictColor,
}

/// Green stands for a faster command, red for a slower one, and yellow for no clear difference.
pub open spec fn color_of(verdict: Verdict) -> VerdictColor {
    match verdict {
        Verdict::Faster => VerdictColor::Green,
        Verdict::Slower => VerdictColor::Red,
        Verdict::NoClearDifference => VerdictColor::Yellow,
    }
}

/// What is printed about each entry of the analysis.
pub open spec fn analysis_lines(analysis: Seq<AnalysisResult>) -> Seq<AnalysisLine> {
    analysis.map_values(
        |entry: AnalysisResult|
            AnalysisLine { verdict: entry.verdict, color: color_of(entry.verdict) },
    )
}

impl Scheduler {
    /// A session without any results yet.
    pub fn new(options: Options) -> (scheduler: Scheduler)
        ensures
            scheduler.options == options,
            scheduler.results@ == Seq::<BenchmarkResult>::empty(),
            scheduler.analysis_results is None,
    {
        Scheduler { options, results: Vec::new(), analysis_results: None }
    }

    /// Whether the analysis applies: two or more results, of commands that took turns, with all
    /// their run times.
    pub open spec fn is_analysed(self) -> bool {
        &&& self.results@.len() >= 2
        &&& self.options.interleave
        &&& all_have_times(self.results@)
    }

    /// Whether some setting of the analysis is not its default.
    pub open spec fn uses_analysis_flags(self) -> bool {
        ||| self.options.seed is Some
        ||| !self.options.confidence.same(Real { bits: DEFAULT_CONFIDENCE_BITS })
        ||| !self.options.practical_delta.same(Real { bits: DEFAULT_DELTA_BITS })
        ||| self.options.resamples != DEFAULT_RESAMPLES
    }

    /// Check if statistical analysis flags are being used
    pub fn has_analysis_flags(&self) -> (used: bool)
        ensures
            used == self.uses_analysis_flags(),
    {
        let default_confidence = Real::from_bits(DEFAULT_CONFIDENCE_BITS);
        let default_delta = Real::from_bits(DEFAULT_DELTA_BITS);
        self.options.seed.is_some() || !self.options.confidence.same_value(&default_confidence)
            || !self.options.practical_delta.same_value(&default_delta) || self.options.resamples
            != DEFAULT_RESAMPLES
    }

    /// Whether settings of the analysis were chosen that have no effect, and this can be told.
    pub open spec fn has_idle_flags(self) -> bool {
        &&& self.results@.len() >= 2
        &&& self.uses_analysis_flags()
        &&& !self.options.interleave
        &&& self.options.output_style.shows_output()
    }

    /// Whether to warn that the settings of the analysis have no effect unless commands take turns.
    pub fn warns_about_analysis_flags(&self) -> (warns: bool)
        ensures
            warns == self.has_idle_flags(),
            warns == (self.results@.len() >= 2 && self.uses_analysis_flags()
                && !self.options.interleave && self.options.output_style.shows_output()),
    {
        let shows_output = match self.options.output_style {
            OutputStyleOption::Disabled => false,
            _ => true,
        };
        self.results.len() >= 2 && self.has_analysis_flags() && !self.options.interleave
            && shows_output
    }

    fn results_have_times(&self) -> (all: bool)
        ensures
            all == all_have_times(self.results@),
    {
        let mut i: usize = 0;
        while i < self.results.len()
            invariant
                i <= self.results@.len(),
                forall|k: int| 0 <= k < i ==> (#[trigger] self.results@[k]).times is Some,
            decreases self.results@.len() - i,
        {
            if self.results[i].times.is_none() {
                return false;
            }
            i = i + 1;
        }
        true
    }

    /// Compares the run times of each command with those of the first.
    ///
    /// A command whose speedup is no number is left out.
    pub fn analyse<L: Fn(Real, Real) -> Real, F: Fn(&[Real]) -> Real, E: Fn(Real) -> Real>(
        &self,
        positions: PercentilePositions,
        zone: EquivalenceZone,
        log_ratio: &L,
        mean: &F,
        exp_neg: &E,
        rng: &mut ChaCha8Rng,
    ) -> (analysis: Vec<AnalysisResult>)
        requires
            self.results@.len() > 0,
            all_have_times(self.results@),
            can_be_compared(self.results@, self.options.resamples),
            takes_positive_pairs(*log_ratio),
            takes_samples(*mean),
            takes_numbers(*exp_neg),
        ensures
            is_analysis(
                self.results@,
                self.options,
                positions,
                zone,
                *log_ratio,
                *mean,
                *exp_neg,
                words_left(*old(rng)),
                analysis@,
            ),
            words_left(*final(rng)) == words_before(
                times_of(self.results@),
                self.options.resamples,
                words_left(*old(rng)),
                self.results@.len() as int,
            ),
    {
        let ghost words = words_left(*rng);
        let ghost times = times_of(self.results@);
        let ghost mut estimates: Seq<(Real, Real, Real)> = seq![];
        let resamples: usize = self.options.resamples;
        let mut analysis: Vec<AnalysisResult> = Vec::new();
        let mut i: usize = 1;
        while i < self.results.len()
            invariant
                1 <= i <= self.results@.len(),
                times == times_of(self.results@),
                resamples == self.options.resamples,
                all_have_times(self.results@),
                can_be_compared(self.results@, resamples),
                takes_positive_pairs(*log_ratio),
                takes_samples(*mean),
                takes_numbers(*exp_neg),
                estimates.len() == i - 1,
                are_estimates(
                    times,
                    positions,
                    resamples,
                    *log_ratio,
                    *mean,
                    *exp_neg,
                    words,
                    estimates,
                ),
                reports(
                    self.results@,
                    estimates,
                    estimates.len(),
                    self.options.confidence,
                    zone,
                    analysis@,
                ),
                words_left(*rng) == words_before(times, resamples, words, i as int),
            decreases self.results@.len() - i,
        {
            let ghost before = estimates;
            let ghost analysis_before = analysis@;
            assert(self.results@[0].times is Some);
            assert(self.results@[i as int].times is Some);
            assert(times[0] == self.results@[0].times->0@);
            assert(times[i as int] == self.results@[i as int].times->0@);
            let ref_times = self.results[0].times.as_ref().unwrap();
            let cmd_times = self.results[i].times.as_ref().unwrap();
            let (speedup, ci_lower, ci_upper) = compute_speedup_with_ci(
                cmd_times.as_slice(),
                ref_times.as_slice(),
                positions,
                resamples,
                log_ratio,
                mean,
                exp_neg,
                rng,
            );
            proof {
                estimates = before.push((speedup, ci_lower, ci_upper));
                lemma_reported_extends(before, estimates, before.len());
                assert forall|k: int| 0 <= k < estimates.len() implies is_speedup_with_ci(
                    times[k + 1],
                    times[0],
                    positions,
                    resamples,
                    *log_ratio,
                    *mean,
                    *exp_neg,
                    words_before(times, resamples, words, k + 1),
                    #[trigger] estimates[k],
                ) by {
                    if k < before.len() {
                        assert(estimates[k] == before[k]);
                    }
                }
            }
            if !speedup.is_nan() {
                let verdict = determine_verdict(ci_lower, ci_upper, zone);
                analysis.push(
                    AnalysisResult {
                        command: self.results[i].command.clone(),
                        speedup,
                        ci_lower,
                        ci_upper,
                        confidence: self.options.confidence,
                        verdict,
                    },
                );
            }
            proof {
                let numbers = reported(estimates, estimates.len());
                lemma_reported_in_range(before, before.len());
                assert forall|j: int| 0 <= j < analysis@.len() implies is_entry(
                    #[trigger] analysis@[j],
                    self.results@[numbers[j] + 1],
                    estimates[numbers[j]],
                    self.options.confidence,
                    zone,
                ) by {
                    if j < analysis_before.len() {
                        assert(analysis@[j] == analysis_before[j]);
                        assert(numbers[j] == reported(before, before.len())[j]);
                    }
                }
            }
            i = i + 1;
        }
        analysis
    }

    /// Run statistical analysis on benchmark results (requires interleaved mode)
    ///
    /// `positions_of` tells where the bounds for a confidence level stand, and `zone_of` which
    /// speedups make no practical difference for a delta. The indices are drawn with the seed of the
    /// options, or with one that the operating system gives. Only where the system has none to give
    /// does the analysis fail.
    pub fn run_analysis<
        P: Fn(Real, usize) -> PercentilePositions,
        Z: Fn(Real) -> EquivalenceZone,
        L: Fn(Real, Real) -> Real,
        F: Fn(&[Real]) -> Real,
        E: Fn(Real) -> Real,
    >(
        &mut self,
        positions_of: &P,
        zone_of: &Z,
        log_ratio: &L,
        mean: &F,
        exp_neg: &E,
    ) -> (done: Result<(), AnalysisError>)
        requires
            old(self).is_analysed() ==> can_be_compared(
                old(self).results@,
                old(self).options.resamples,
            ),
            takes_levels(*positions_of),
            takes_deltas(*zone_of),
            takes_positive_pairs(*log_ratio),
            takes_samples(*mean),
            takes_numbers(*exp_neg),
        ensures
            done is Err ==> old(self).is_analysed() && old(self).options.seed is None
                && *final(self) == *old(self),
            done is Ok ==> has_analysed_by_options(
                *old(self),
                *positions_of,
                *zone_of,
                *log_ratio,
                *mean,
                *exp_neg,
                *final(self),
            ),
    {
        let positions = positions_of(self.options.confidence, self.options.resamples);
        let zone = zone_of(self.options.practical_delta);
        self.run_analysis_within(positions, zone, log_ratio, mean, exp_neg)
    }

    /// Runs the analysis with bounds that stand at the given positions, and with the given zone of
    /// speedups that make no practical difference.
    pub fn run_analysis_within<
        L: Fn(Real, Real) -> Real,
        F: Fn(&[Real]) -> Real,
        E: Fn(Real) -> Real,
    >(
        &mut self,
        positions: PercentilePositions,
        zone: EquivalenceZone,
        log_ratio: &L,
        mean: &F,
        exp_neg: &E,
    ) -> (done: Result<(), AnalysisError>)
        requires
            old(self).is_analysed() ==> can_be_compared(
                old(self).results@,
                old(self).options.resamples,
            ),
            takes_positive_pairs(*log_ratio),
            takes_samples(*mean),
            takes_numbers(*exp_neg),
        ensures
            done is Err ==> old(self).is_analysed() && old(self).options.seed is None
                && *final(self) == *old(self),
            done is Ok ==> has_analysed(
                *old(self),
                positions,
                zone,
                *log_ratio,
                *mean,
                *exp_neg,
                *final(self),
            ),
    {
        if self.results.len() < 2 {
            return Ok(());
        }
        if !self.options.interleave {
            return Ok(());
        }
        if !self.results_have_times() {
            return Ok(());
        }
        let mut rng: ChaCha8Rng = match self.options.seed {
            Some(seed) => seeded_generator(seed),
            None => match entropy_generator() {
                Some(rng) => rng,
                None => {
                    return Err(AnalysisError::NoEntropy);
                },
            },
        };
        let ghost words = words_left(rng);
        assert(obeys_seed(self.options.seed, words));
        let analysis = self.analyse(positions, zone, log_ratio, mean, exp_neg, &mut rng);
        self.analysis_results = Some(analysis);
        assert(is_analysis(
            old(self).results@,
            old(self).options,
            positions,
            zone,
            *log_ratio,
            *mean,
            *exp_neg,
            words,
            self.analysis_results->0@,
        ));
        Ok(())
    }
}

/// Why there is no analysis.
#[derive(Debug, Clone, Copy, PartialEq, Eq, Structural)]
pub enum AnalysisError {
    /// No seed was given, and the operating system has none to give.
    NoEntropy,
}

/// Whether the session `after` is the session `before` with its analysis, where the analysis
/// applies. Elsewhere nothing has changed.
pub open spec fn has_analysed<
    L: Fn(Real, Real) -> Real,
    F: Fn(&[Real]) -> Real,
    E: Fn(Real) -> Real,
>(
    before: Scheduler,
    positions: PercentilePositions,
    zone: EquivalenceZone,
    log_ratio: L,
    mean: F,
    exp_neg: E,
    after: Scheduler,
) -> bool {
    &&& after.options == before.options
    &&& after.results == before.results
    &&& !before.is_analysed() ==> after.analysis_results == before.analysis_results
    &&& before.is_analysed() ==> {
        &&& after.analysis_results is Some
        &&& exists|words: Map<nat, u32>|
            {
                &&& obeys_seed(before.options.seed, words)
                &&& #[trigger] is_analysis(
                    before.results@,
                    before.options,
                    positions,
                    zone,
                    log_ratio,
                    mean,
                    exp_neg,
                    words,
                    after.analysis_results->0@,
                )
            }
    }
}

/// Whether the session `after` is the session `before` with its analysis, at the confidence level
/// and with the practical delta of its options.
pub open spec fn has_analysed_by_options<
    P: Fn(Real, usize) -> PercentilePositions,
    Z: Fn(Real) -> EquivalenceZone,
    L: Fn(Real, Real) -> Real,
    F: Fn(&[Real]) -> Real,
    E: Fn(Real) -> Real,
>(
    before: Scheduler,
    positions_of: P,
    zone_of: Z,
    log_ratio: L,
    mean: F,
    exp_neg: E,
    after: Scheduler,
) -> bool {
    exists|positions: PercentilePositions, zone: EquivalenceZone|
        {
            &&& call_ensures(
                positions_of,
                (before.options.confidence, before.options.resamples),
                positions,
            )
            &&& call_ensures(zone_of, (before.options.practical_delta,), zone)
            &&& #[trigger] has_analysed(
                before,
                positions,
                zone,
                log_ratio,
                mean,
                exp_neg,
                after,
            )
        }
}

impl Scheduler {
    /// What is printed about the analysis: a line for each entry, where there is any and where
    /// anything is printed.
    pub fn analysis_report(&self) -> (report: Option<Vec<AnalysisLine>>)
        ensures
            match report {
                Some(lines) => {
                    &&& self.options.output_style.shows_output()
                    &&& self.analysis_results matches Some(analysis) && analysis@.len() > 0
                        && lines@ == analysis_lines(analysis@)
                },
                None => !self.options.output_style.shows_output() || (
                self.analysis_results matches Some(analysis) ==> analysis@.len() == 0),
            },
    {
        match self.options.output_style {
            OutputStyleOption::Disabled => {
                return None;
            },
            _ => {},
        }
        let analysis = match &self.analysis_results {
            Some(analysis) => analysis,
            None => {
                return None;
            },
        };
        if analysis.len() == 0 {
            return None;
        }
        let mut lines: Vec<AnalysisLine> = Vec::with_capacity(analysis.len());
        let mut i: usize = 0;
        while i < analysis.len()
            invariant
                i <= analysis@.len(),
                lines@ == analysis_lines(analysis@).take(i as int),
            decreases analysis@.len() - i,
        {
            let verdict = analysis[i].verdict;
            let color = match verdict {
                Verdict::Faster => VerdictColor::Green,
                Verdict::Slower => VerdictColor::Red,
                Verdict::NoClearDifference => VerdictColor::Yellow,
            };
            lines.push(AnalysisLine { verdict, color });
            i = i + 1;
            assert(lines@ =~= analysis_lines(analysis@).take(i as int));
        }
        assert(lines@ =~= analysis_lines(analysis@));
        Some(lines)
    }
}

/// More estimates do not change which of the first ones are reported.
proof fn lemma_reported_extends(
    before: Seq<(Real, Real, Real)>,
    after: Seq<(Real, Real, Real)>,
    n: nat,
)
    requires
        n <= before.len() <= after.len(),
        forall|k: int| 0 <= k < before.len() ==> before[k] == after[k],
    ensures
        reported(before, n) == reported(after, n),
    decreases n,
{
    if n > 0 {
        lemma_reported_extends(before, after, (n - 1) as nat);
    }
}

proof fn lemma_reported_in_range(estimates: Seq<(Real, Real, Real)>, n: nat)
    ensures
        forall|j: int|
            0 <= j < reported(estimates, n).len() ==> 0 <= #[trigger] reported(estimates, n)[j] < n,
    decreases n,
{
    if n > 0 {
        let before = reported(estimates, (n - 1) as nat);
        lemma_reported_in_range(estimates, (n - 1) as nat);
        assert forall|j: int| 0 <= j < reported(estimates, n).len() implies 0
            <= #[trigger] reported(estimates, n)[j] < n by {
            if j < before.len() {
                assert(0 <= before[j] < n);
            }
        }
    }
}

/// Whether two entries say the same of a command of the same name.
pub open spec fn say_the_same(a: AnalysisResult, b: AnalysisResult) -> bool {
    &&& a.command@ == b.command@
    &&& a.speedup == b.speedup
    &&& a.ci_lower == b.ci_lower
    &&& a.ci_upper == b.ci_upper
    &&& a.confidence == b.confidence
    &&& a.verdict == b.verdict
}

/// Two estimates are the same, or neither is reported.
spec fn agree(a: Seq<(Real, Real, Real)>, b: Seq<(Real, Real, Real)>) -> bool {
    &&& a.len() == b.len()
    &&& forall|i: int|
        0 <= i < a.len() ==> #[trigger] a[i] == b[i] || (a[i].0.nan() && b[i].0.nan())
}

proof fn lemma_reported_agrees(
    a: Seq<(Real, Real, Real)>,
    b: Seq<(Real, Real, Real)>,
    n: nat,
)
    requires
        agree(a, b),
        n <= a.len(),
    ensures
        reported(a, n) == reported(b, n),
        forall|j: int|
            0 <= j < reported(a, n).len() ==> {
                let k = #[trigger] reported(a, n)[j];
                0 <= k < n && a[k] == b[k]
            },
    decreases n,
{
    if n > 0 {
        lemma_reported_agrees(a, b, (n - 1) as nat);
        let before = reported(a, (n - 1) as nat);
        assert(a[n - 1] == b[n - 1] || (a[n - 1].0.nan() && b[n - 1].0.nan()));
        assert forall|j: int| 0 <= j < reported(a, n).len() implies {
            let k = #[trigger] reported(a, n)[j];
            0 <= k < n && a[k] == b[k]
        } by {
            if j < before.len() {
                assert(reported(a, n)[j] == before[j]);
            }
        }
    }
}

/// Estimates from the same run times, with indices drawn from the same words, agree.
proof fn lemma_estimates_agree<
    L: Fn(Real, Real) -> Real,
    F: Fn(&[Real]) -> Real,
    E: Fn(Real) -> Real,
>(
    times: Seq<Seq<Real>>,
    positions: PercentilePositions,
    resamples: usize,
    log_ratio: L,
    mean: F,
    exp_neg: E,
    words: Map<nat, u32>,
    a: Seq<(Real, Real, Real)>,
    b: Seq<(Real, Real, Real)>,
)
    requires
        is_function_of_pairs(log_ratio),
        is_function_of_samples(mean),
        is_function_of_number(exp_neg),
        a.len() == b.len(),
        are_estimates(times, positions, resamples, log_ratio, mean, exp_neg, words, a),
        are_estimates(times, positions, resamples, log_ratio, mean, exp_neg, words, b),
    ensures
        agree(a, b),
{
    assert forall|i: int| 0 <= i < a.len() implies #[trigger] a[i] == b[i] || (a[i].0.nan()
        && b[i].0.nan()) by {
        assert(is_speedup_with_ci(
            times[i + 1],
            times[0],
            positions,
            resamples,
            log_ratio,
            mean,
            exp_neg,
            words_before(times, resamples, words, i + 1),
            b[i],
        ));
        if paired(times[i + 1], times[0]) > 0 {
            speedup_is_reproducible(
                times[i + 1],
                times[0],
                positions,
                resamples,
                log_ratio,
                mean,
                exp_neg,
                words_before(times, resamples, words, i + 1),
                a[i],
                b[i],
            );
        }
    }
}

/// Two sessions that have measured the same run times of the same commands, and whose indices are
/// drawn from the same words, end in the same analysis. A seed fixes the words, so that sessions
/// with the same seed agree.
pub proof fn analysis_is_reproducible<
    L: Fn(Real, Real) -> Real,
    F: Fn(&[Real]) -> Real,
    E: Fn(Real) -> Real,
>(
    results: Seq<BenchmarkResult>,
    other_results: Seq<BenchmarkResult>,
    options: Options,
    positions: PercentilePositions,
    zone: EquivalenceZone,
    log_ratio: L,
    mean: F,
    exp_neg: E,
    words: Map<nat, u32>,
    analysis: Seq<AnalysisResult>,
    other_analysis: Seq<AnalysisResult>,
)
    requires
        times_of(results) == times_of(other_results),
        forall|i: int|
            0 <= i < results.len() ==> (#[trigger] results[i]).command@
                == other_results[i].command@,
        is_function_of_pairs(log_ratio),
        is_function_of_samples(mean),
        is_function_of_number(exp_neg),
        is_analysis(
            results,
            options,
            positions,
            zone,
            log_ratio,
            mean,
            exp_neg,
            words,
            analysis,
        ),
        is_analysis(
            other_results,
            options,
            positions,
            zone,
            log_ratio,
            mean,
            exp_neg,
            words,
            other_analysis,
        ),
    ensures
        analysis.len() == other_analysis.len(),
        forall|j: int|
            0 <= j < analysis.len() ==> say_the_same(#[trigger] analysis[j], other_analysis[j]),
{
    let times = times_of(results);
    assert(times.len() == results.len());
    assert(times_of(other_results).len() == other_results.len());
    let a = choose|estimates: Seq<(Real, Real, Real)>|
        {
            &&& estimates.len() == results.len() - 1
            &&& #[trigger] are_estimates(
                times,
                positions,
                options.resamples,
                log_ratio,
                mean,
                exp_neg,
                words,
                estimates,
            )
            &&& reports(results, estimates, estimates.len(), options.confidence, zone, analysis)
        };
    let b = choose|estimates: Seq<(Real, Real, Real)>|
        {
            &&& estimates.len() == other_results.len() - 1
            &&& #[trigger] are_estimates(
                times,
                positions,
                options.resamples,
                log_ratio,
                mean,
                exp_neg,
                words,
                estimates,
            )
            &&& reports(
                other_results,
                estimates,
                estimates.len(),
                options.confidence,
                zone,
                other_analysis,
            )
        };
    lemma_estimates_agree(
        times,
        positions,
        options.resamples,
        log_ratio,
        mean,
        exp_neg,
        words,
        a,
        b,
    );
    lemma_reported_agrees(a, b, a.len());
    assert forall|j: int| 0 <= j < analysis.len() implies say_the_same(
        #[trigger] analysis[j],
        other_analysis[j],
    ) by {
        let k = reported(a, a.len())[j];
        assert(a[k] == b[k]);
        assert(results[k + 1].command@ == other_results[k + 1].command@);
        assert(is_entry(other_analysis[j], other_results[k + 1], b[k], options.confidence, zone));
    }
}

/// Whether `f` has one result only for the same confidence level and number of resamples.
pub open spec fn is_function_of_level<P: Fn(Real, usize) -> PercentilePositions>(f: P) -> bool {
    forall|c: Real, n: usize, p: PercentilePositions, q: PercentilePositions|
        #[trigger] call_ensures(f, (c, n), p) && #[trigger] call_ensures(f, (c, n), q) ==> p == q
}

/// Whether `f` has one result only for the same delta.
pub open spec fn is_function_of_delta<Z: Fn(Real) -> EquivalenceZone>(f: Z) -> bool {
    forall|d: Real, y: EquivalenceZone, z: EquivalenceZone|
        #[trigger] call_ensures(f, (d,), y) && #[trigger] call_ensures(f, (d,), z) ==> y == z
}

/// Two sessions with the same options, a seed among them, that have measured the same run times of
/// the same commands end in the same analysis.
pub proof fn same_seed_gives_the_same_analysis<
    P: Fn(Real, usize) -> PercentilePositions,
    Z: Fn(Real) -> EquivalenceZone,
    L: Fn(Real, Real) -> Real,
    F: Fn(&[Real]) -> Real,
    E: Fn(Real) -> Real,
>(
    before: Scheduler,
    other_before: Scheduler,
    positions_of: P,
    zone_of: Z,
    log_ratio: L,
    mean: F,
    exp_neg: E,
    after: Scheduler,
    other_after: Scheduler,
)
    requires
        before.options == other_before.options,
        before.options.seed is Some,
        before.is_analysed(),
        other_before.is_analysed(),
        times_of(before.results@) == times_of(other_before.results@),
        forall|i: int|
            0 <= i < before.results@.len() ==> (#[trigger] before.results@[i]).command@
                == other_before.results@[i].command@,
        is_function_of_level(positions_of),
        is_function_of_delta(zone_of),
        is_function_of_pairs(log_ratio),
        is_function_of_samples(mean),
        is_function_of_number(exp_neg),
        has_analysed_by_options(
            before,
            positions_of,
            zone_of,
            log_ratio,
            mean,
            exp_neg,
            after,
        ),
        has_analysed_by_options(
            other_before,
            positions_of,
            zone_of,
            log_ratio,
            mean,
            exp_neg,
            other_after,
        ),
    ensures
        after.analysis_results is Some,
        other_after.analysis_results is Some,
        after.analysis_results->0@.len() == other_after.analysis_results->0@.len(),
        forall|j: int|
            0 <= j < after.analysis_results->0@.len() ==> say_the_same(
                #[trigger] after.analysis_results->0@[j],
                other_after.analysis_results->0@[j],
            ),
{
    let (positions, zone) = choose|positions: PercentilePositions, zone: EquivalenceZone|
        {
            &&& call_ensures(
                positions_of,
                (before.options.confidence, before.options.resamples),
                positions,
            )
            &&& call_ensures(zone_of, (before.options.practical_delta,), zone)
            &&& #[trigger] has_analysed(
                before,
                positions,
                zone,
                log_ratio,
                mean,
                exp_neg,
                after,
            )
        };
    let (p, z) = choose|p: PercentilePositions, z: EquivalenceZone|
        {
            &&& call_ensures(
                positions_of,
                (other_before.options.confidence, other_before.options.resamples),
                p,
            )
            &&& call_ensures(zone_of, (other_before.options.practical_delta,), z)
            &&& #[trigger] has_analysed(other_before, p, z, log_ratio, mean, exp_neg, other_after)
        };
    assert(p == positions);
    assert(z == zone);
    analysis_is_reproducible(
        before.results@,
        other_before.results@,
        before.options,
        positions,
        zone,
        log_ratio,
        mean,
        exp_neg,
        seeded_words(before.options.seed->0),
        after.analysis_results->0@,
        other_after.analysis_results->0@,
    );
}

/// There is an analysis just of two or more results of commands that took turns, all with their run
/// times. Elsewhere an earlier analysis stays, and the results and options always do. Under a seed,
/// the indices are drawn from the words of that seed.
pub proof fn an_analysis_needs_turns_and_times<
    L: Fn(Real, Real) -> Real,
    F: Fn(&[Real]) -> Real,
    E: Fn(Real) -> Real,
>(
    before: Scheduler,
    positions: PercentilePositions,
    zone: EquivalenceZone,
    log_ratio: L,
    mean: F,
    exp_neg: E,
    after: Scheduler,
)
    requires
        has_analysed(before, positions, zone, log_ratio, mean, exp_neg, after),
    ensures
        after.options == before.options,
        after.results@ == before.results@,
        before.results@.len() < 2 || !before.options.interleave || (exists|i: int|
            0 <= i < before.results@.len() && (#[trigger] before.results@[i]).times is None)
            ==> after.analysis_results == before.analysis_results,
        before.results@.len() >= 2 && before.options.interleave && (forall|i: int|
            0 <= i < before.results@.len() ==> (#[trigger] before.results@[i]).times is Some) ==> {
            &&& after.analysis_results is Some
            &&& before.options.seed matches Some(seed) ==> is_analysis(
                before.results@,
                before.options,
                positions,
                zone,
                log_ratio,
                mean,
                exp_neg,
                seeded_words(seed),
                after.analysis_results->0@,
            )
            &&& forall|j: int|
                0 <= j < after.analysis_results->0@.len() ==> {
                    let entry = #[trigger] after.analysis_results->0@[j];
                    &&& entry.confidence == before.options.confidence
                    &&& !entry.speedup.nan()
                    &&& entry.verdict == Verdict::Faster <==> zone.upper.lt(entry.ci_lower)
                    &&& entry.verdict == Verdict::Slower <==> (!zone.upper.lt(entry.ci_lower)
                        && entry.ci_upper.lt(zone.lower))
                }
        },
{
    if before.is_analysed() {
        let analysis = after.analysis_results->0@;
        let words = choose|words: Map<nat, u32>|
            {
                &&& obeys_seed(before.options.seed, words)
                &&& #[trigger] is_analysis(
                    before.results@,
                    before.options,
                    positions,
                    zone,
                    log_ratio,
                    mean,
                    exp_neg,
                    words,
                    analysis,
                )
            };
        let numbers = lemma_entries(
            before.results@,
            before.options,
            positions,
            zone,
            log_ratio,
            mean,
            exp_neg,
            words,
            analysis,
        );
        assert forall|j: int| 0 <= j < analysis.len() implies {
            let entry = #[trigger] analysis[j];
            &&& entry.confidence == before.options.confidence
            &&& !entry.speedup.nan()
            &&& entry.verdict == Verdict::Faster <==> zone.upper.lt(entry.ci_lower)
            &&& entry.verdict == Verdict::Slower <==> (!zone.upper.lt(entry.ci_lower)
                && entry.ci_upper.lt(zone.lower))
        } by {
            assert(analysis[j].verdict == verdict_of(
                analysis[j].ci_lower,
                analysis[j].ci_upper,
                zone,
            ));
        }
    }
}

/// Where one choice of positions goes with the confidence level and the number of resamples of the
/// options, and one zone with their practical delta, the analysis is the one with these.
pub proof fn an_analysis_goes_by_its_options<
    P: Fn(Real, usize) -> PercentilePositions,
    Z: Fn(Real) -> EquivalenceZone,
    L: Fn(Real, Real) -> Real,
    F: Fn(&[Real]) -> Real,
    E: Fn(Real) -> Real,
>(
    before: Scheduler,
    positions_of: P,
    zone_of: Z,
    log_ratio: L,
    mean: F,
    exp_neg: E,
    after: Scheduler,
    positions: PercentilePositions,
    zone: EquivalenceZone,
)
    requires
        has_analysed_by_options(before, positions_of, zone_of, log_ratio, mean, exp_neg, after),
        forall|given: PercentilePositions|
            #[trigger] call_ensures(
                positions_of,
                (before.options.confidence, before.options.resamples),
                given,
            ) ==> given == positions,
        forall|given: EquivalenceZone|
            #[trigger] call_ensures(zone_of, (before.options.practical_delta,), given) ==> given
                == zone,
    ensures
        has_analysed(before, positions, zone, log_ratio, mean, exp_neg, after),
{
}

/// The settings of the analysis are at their defaults just where no seed is given, the confidence
/// level is ninety-five hundredths, the practical delta is one hundredth and there are ten thousand
/// resamples.
pub proof fn defaults_are_no_flags(scheduler: Scheduler)
    ensures
        !scheduler.uses_analysis_flags() <==> {
            &&& scheduler.options.seed is None
            &&& scheduler.options.confidence.bits == 0x3fee_6666_6666_6666
            &&& scheduler.options.practical_delta.bits == 0x3f84_7ae1_47ae_147b
            &&& scheduler.options.resamples == 10000
        },
{
}

/// There is a line for each entry of an analysis, in order. It shows the verdict of the entry, in
/// green just for a faster command and in red just for a slower one.
pub proof fn each_entry_has_a_line(analysis: Seq<AnalysisResult>)
    ensures
        analysis_lines(analysis).len() == analysis.len(),
        forall|i: int|
            0 <= i < analysis.len() ==> {
                let line = #[trigger] analysis_lines(analysis)[i];
                &&& line.verdict == analysis[i].verdict
                &&& line.color == VerdictColor::Green <==> analysis[i].verdict == Verdict::Faster
                &&& line.color == VerdictColor::Red <==> analysis[i].verdict == Verdict::Slower
            },
{
}

/// Settings of the analysis are idle only where there is no analysis: two or more results would be
/// analysed if their commands took turns. Settings at their defaults are never idle.
pub proof fn idle_flags_miss_an_analysis(scheduler: Scheduler)
    ensures
        scheduler.has_idle_flags() ==> !scheduler.is_analysed(),
        scheduler.has_idle_flags() <==> {
            &&& scheduler.results@.len() >= 2
            &&& !scheduler.options.interleave
            &&& !(scheduler.options.output_style is Disabled)
            &&& !(scheduler.options.seed is None && scheduler.options.confidence.bits
                == 0x3fee_6666_6666_6666 && scheduler.options.practical_delta.bits
                == 0x3f84_7ae1_47ae_147b && scheduler.options.resamples == 10000)
        },
{
}

} // verus!
