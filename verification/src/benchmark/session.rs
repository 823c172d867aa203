//! Which benchmarks are run, and what becomes of their results.

use crate::analysis::bootstrap::takes_samples;
use crate::benchmark::accumulator::{lists_are_of_the_runs, CommandAccumulator};
use crate::benchmark::plan::{plan_for, BenchmarkIteration, Plan, Step};
use crate::benchmark::result::{is_result_of, BenchmarkResult};
use crate::benchmark::rounds::{
    each_round_is_exported_once, exports, in_step_at, lemma_exports_shrink,
};
use crate::benchmark::run::{
    count_is_taken_once, every_timed_run_is_accounted_for, fits, has_completed, has_named,
    left_is_in_step, records, run_is_of_a_command, samples_pair_up, BenchmarkRun, Outcome,
};
use crate::benchmark::scheduler::{all_have_times, times_of, Scheduler};
use crate::benchmark::statistics::{are_numbers, takes_any_samples, takes_several_samples};
use crate::benchmark::timed::lemma_timed_one;
use crate::command::{parameters_view, Command, CommandLabel};
use crate::number::Real;
use crate::options::Options;
use vstd::prelude::*;

verus! {

/// The characters of a text, if there is one.
pub open spec fn optional_view(text: Option<String>) -> Option<Seq<char>> {
    match text {
        Some(text) => Some(text@),
        None => None,
    }
}

/// Whether `command` is the reference command with the given name and command line.
pub open spec fn is_reference_command(
    command: Command,
    name: Option<String>,
    expression: String,
) -> bool {
    &&& optional_view(command.name) == optional_view(name)
    &&& command.expression@ == expression@
    &&& command.parameters@.len() == 0
}

/// One step of a session.
#[derive(Debug, Clone, Copy, PartialEq, Eq, Structural)]
pub enum SessionStep {
    /// Let the executor measure its own overhead.
    Calibrate,
    /// Go through a benchmark, whose first command has the given number among all commands.
    Run { first: usize, plan: Plan },
    /// Keep the result of the benchmark of the command with the given number.
    PushResult(usize),
    /// Keep the results of the benchmark of all commands.
    UpdateResults,
    /// Write the results so far, which would be lost if a later benchmark failed.
    Export,
}

/// The steps for the first `n` commands, where these are benchmarked one after the other.
pub open spec fn one_after_the_other(options: Options, n: nat) -> Seq<SessionStep>
    decreases n,
{
    if n == 0 {
        seq![]
    } else {
        let number = (n - 1) as usize;
        one_after_the_other(options, (n - 1) as nat) + seq![
            SessionStep::Run { first: number, plan: plan_for(options, false, 1) },
            SessionStep::PushResult(number),
            SessionStep::Export,
        ]
    }
}

/// The steps of a session: one benchmark of all commands where these take turns, and else one
/// benchmark of each command. A single command has nobody to take turns with.
pub open spec fn session_steps(options: Options, commands: usize) -> Seq<SessionStep> {
    seq![SessionStep::Calibrate] + if options.interleave && commands >= 2 {
        seq![
            SessionStep::Run { first: 0, plan: plan_for(options, true, commands) },
            SessionStep::UpdateResults,
        ]
    } else {
        one_after_the_other(options, commands as nat)
    }
}

/// How many times the session benchmarks the command with the given number.
pub open spec fn times_benchmarked(steps: Seq<SessionStep>, command: int) -> nat
    decreases steps.len(),
{
    if steps.len() == 0 {
        0
    } else {
        times_benchmarked(steps.drop_last(), command) + match steps.last() {
            SessionStep::Run { first, plan } => if first <= command < first + plan.commands {
                1nat
            } else {
                0
            },
            _ => 0,
        }
    }
}

proof fn lemma_one_after_the_other(options: Options, n: nat, command: int)
    requires
        n <= usize::MAX,
    ensures
        times_benchmarked(one_after_the_other(options, n), command) == if 0 <= command < n {
            1nat
        } else {
            0
        },
        one_after_the_other(options, n).len() == 3 * n,
    decreases n,
{
    if n > 0 {
        let before = one_after_the_other(options, (n - 1) as nat);
        let number = (n - 1) as usize;
        let ran = before.push(
            SessionStep::Run { first: number, plan: plan_for(options, false, 1) },
        );
        let kept = ran.push(SessionStep::PushResult(number));
        let all = one_after_the_other(options, n);
        lemma_one_after_the_other(options, (n - 1) as nat, command);
        assert(all =~= kept.push(SessionStep::Export));
        assert(all.drop_last() =~= kept);
        assert(kept.drop_last() =~= ran);
        assert(ran.drop_last() =~= before);
        assert(times_benchmarked(kept, command) == times_benchmarked(ran, command));
        assert(times_benchmarked(all, command) == times_benchmarked(kept, command));
    }
}

proof fn lemma_times_benchmarked_after_calibration(steps: Seq<SessionStep>, command: int)
    ensures
        times_benchmarked(seq![SessionStep::Calibrate] + steps, command) == times_benchmarked(
            steps,
            command,
        ),
    decreases steps.len(),
{
    let all = seq![SessionStep::Calibrate] + steps;
    if steps.len() == 0 {
        assert(all.drop_last() =~= seq![]);
        assert(times_benchmarked(all.drop_last(), command) == 0);
    } else {
        assert(all.drop_last() =~= seq![SessionStep::Calibrate] + steps.drop_last());
        lemma_times_benchmarked_after_calibration(steps.drop_last(), command);
    }
}

/// A session benchmarks every command once, whether or not the commands take turns.
pub proof fn every_command_is_benchmarked_once(options: Options, commands: usize, command: int)
    requires
        0 <= command < commands,
    ensures
        times_benchmarked(session_steps(options, commands), command) == 1,
{
    if options.interleave && commands >= 2 {
        let run = SessionStep::Run { first: 0, plan: plan_for(options, true, commands) };
        let rest = seq![run, SessionStep::UpdateResults];
        lemma_times_benchmarked_after_calibration(rest, command);
        reveal_with_fuel(times_benchmarked, 3);
        assert(rest.drop_last() =~= seq![run]);
        assert(seq![run].drop_last() =~= seq![]);
    } else {
        lemma_times_benchmarked_after_calibration(
            one_after_the_other(options, commands as nat),
            command,
        );
        lemma_one_after_the_other(options, commands as nat, command);
    }
}

/// The numbers of the commands whose results are kept, in order.
pub open spec fn kept(steps: Seq<SessionStep>) -> Seq<int>
    decreases steps.len(),
{
    if steps.len() == 0 {
        seq![]
    } else {
        let before = kept(steps.drop_last());
        match steps.last() {
            SessionStep::PushResult(number) => before.push(number as int),
            _ => before,
        }
    }
}

/// The numbers of the commands whose results were kept by the last export.
pub open spec fn exported(steps: Seq<SessionStep>) -> Seq<int>
    decreases steps.len(),
{
    if steps.len() == 0 {
        seq![]
    } else if steps.last() == SessionStep::Export {
        kept(steps)
    } else {
        exported(steps.drop_last())
    }
}

proof fn lemma_kept(options: Options, n: nat)
    requires
        n <= usize::MAX,
    ensures
        ({
            let steps = seq![SessionStep::Calibrate] + one_after_the_other(options, n);
            &&& kept(steps) == Seq::new(n, |i: int| i)
            &&& exported(steps) == Seq::new(n, |i: int| i)
            &&& steps.len() == 1 + 3 * n
        }),
    decreases n,
{
    let steps = seq![SessionStep::Calibrate] + one_after_the_other(options, n);
    if n == 0 {
        reveal_with_fuel(kept, 2);
        reveal_with_fuel(exported, 2);
        assert(steps =~= seq![SessionStep::Calibrate]);
        assert(steps.drop_last() =~= seq![]);
        assert(kept(steps) =~= Seq::new(n, |i: int| i));
        assert(exported(steps) =~= Seq::new(n, |i: int| i));
    } else {
        let before = seq![SessionStep::Calibrate] + one_after_the_other(options, (n - 1) as nat);
        let number = (n - 1) as usize;
        let ran = before.push(
            SessionStep::Run { first: number, plan: plan_for(options, false, 1) },
        );
        let pushed = ran.push(SessionStep::PushResult(number));
        lemma_kept(options, (n - 1) as nat);
        assert(steps =~= pushed.push(SessionStep::Export));
        assert(steps.drop_last() =~= pushed);
        assert(pushed.drop_last() =~= ran);
        assert(ran.drop_last() =~= before);
        assert(kept(ran) == kept(before));
        assert(kept(pushed) == kept(ran).push(n - 1));
        assert(kept(steps) == kept(pushed));
        assert(kept(steps) =~= Seq::new(n, |i: int| i));
    }
}

/// Where commands are benchmarked one after the other, the benchmark of a command begins when the
/// results of exactly the commands before it are kept and exported. A failure of that benchmark
/// leaves these.
pub proof fn earlier_results_outlive_a_failure(options: Options, commands: usize, k: usize)
    requires
        !options.interleave || commands < 2,
        k < commands,
    ensures
        ({
            let steps = session_steps(options, commands);
            &&& 1 + 3 * k < steps.len()
            &&& steps[1 + 3 * k] == (SessionStep::Run {
                first: k,
                plan: plan_for(options, false, 1),
            })
            &&& kept(steps.take(1 + 3 * k)) == Seq::new(k as nat, |i: int| i)
            &&& exported(steps.take(1 + 3 * k)) == Seq::new(k as nat, |i: int| i)
        }),
{
    lemma_kept(options, k as nat);
    lemma_begins_alike(options, k as nat, commands as nat);
}

/// The steps for some commands begin with those for fewer of them.
proof fn lemma_begins_alike(options: Options, k: nat, n: nat)
    requires
        k < n <= usize::MAX,
    ensures
        ({
            let steps = seq![SessionStep::Calibrate] + one_after_the_other(options, n);
            &&& 1 + 3 * k < steps.len()
            &&& steps.take(1 + 3 * k as int) == seq![SessionStep::Calibrate] + one_after_the_other(
                options,
                k,
            )
            &&& steps[1 + 3 * k as int] == (SessionStep::Run {
                first: k as usize,
                plan: plan_for(options, false, 1),
            })
        }),
    decreases n,
{
    let steps = seq![SessionStep::Calibrate] + one_after_the_other(options, n);
    let before = seq![SessionStep::Calibrate] + one_after_the_other(options, (n - 1) as nat);
    lemma_kept(options, n);
    lemma_kept(options, (n - 1) as nat);
    lemma_kept(options, k);
    assert(steps.take(before.len() as int) =~= before);
    if k + 1 < n {
        lemma_begins_alike(options, k, (n - 1) as nat);
        assert(steps.take(1 + 3 * k as int) =~= before.take(1 + 3 * k as int));
    }
}

/// Two or more commands that are to take turns share one benchmark: the session goes through a
/// single benchmark, its plan lets the commands take turns, and any two commands are among those
/// that it covers. The results of all commands are kept together, after the benchmark.
pub proof fn commands_that_take_turns_share_a_benchmark(
    options: Options,
    commands: usize,
    a: int,
    b: int,
)
    requires
        options.interleave,
        commands >= 2,
        0 <= a < b < commands,
    ensures
        ({
            let steps = session_steps(options, commands);
            &&& steps.filter(|step: SessionStep| step is Run).len() == 1
            &&& exists|i: int| 0 <= i < steps.len() && #[trigger] steps[i] is Run
            &&& forall|i: int|
                0 <= i < steps.len() ==> (#[trigger] steps[i] matches SessionStep::Run {
                    first,
                    plan,
                } ==> {
                    &&& first <= a < b < first + plan.commands
                    &&& first == 0
                    &&& plan.interleaved
                    &&& plan.commands == commands
                    &&& i + 1 < steps.len() && steps[i + 1] == SessionStep::UpdateResults
                })
            &&& forall|i: int|
                0 <= i < steps.len() ==> !(#[trigger] steps[i] is PushResult)
                    && steps[i] != SessionStep::Export
            &&& steps.filter(|step: SessionStep| step is UpdateResults).len() == 1
            &&& steps.len() == 3
            &&& steps[0] == SessionStep::Calibrate
        }),
{
    let run = SessionStep::Run { first: 0, plan: plan_for(options, true, commands) };
    let steps = session_steps(options, commands);
    let is_run = |step: SessionStep| step is Run;
    let is_update = |step: SessionStep| step is UpdateResults;
    assert(steps =~= seq![SessionStep::Calibrate, run, SessionStep::UpdateResults]);
    assert(steps[1] is Run);
    let two = steps.drop_last();
    let one = two.drop_last();
    assert(one.drop_last() =~= seq![]);
    assert(steps.filter(is_run).len() == 1 && steps.filter(is_update).len() == 1) by {
        reveal(Seq::filter);
        assert(one.filter(is_run) == one.drop_last().filter(is_run));
        assert(one.drop_last().filter(is_run).len() == 0);
        assert(two.filter(is_run) == one.filter(is_run).push(run));
        assert(steps.filter(is_run) == two.filter(is_run));
        assert(one.filter(is_update) == one.drop_last().filter(is_update));
        assert(one.drop_last().filter(is_update).len() == 0);
        assert(two.filter(is_update) == one.filter(is_update));
        assert(steps.filter(is_update) == two.filter(is_update).push(SessionStep::UpdateResults));
    }
}

/// Commands that are not to take turns, and a single command, are benchmarked one by one in their
/// order, each by itself. The result of each is kept and written before the next benchmark begins.
pub proof fn commands_else_have_benchmarks_of_their_own(
    options: Options,
    commands: usize,
    k: usize,
)
    requires
        !options.interleave || commands < 2,
        k < commands,
    ensures
        ({
            let steps = session_steps(options, commands);
            &&& steps.len() == 1 + 3 * commands
            &&& steps[0] == SessionStep::Calibrate
            &&& steps[1 + 3 * k] matches SessionStep::Run { first, plan } && first == k
                && plan.commands == 1 && !plan.interleaved
            &&& steps[2 + 3 * k] == SessionStep::PushResult(k)
            &&& steps[3 + 3 * k] == SessionStep::Export
        }),
{
    lemma_three_steps_each(options, commands as nat, k as nat);
}

proof fn lemma_three_steps_each(options: Options, n: nat, k: nat)
    requires
        k < n <= usize::MAX,
    ensures
        ({
            let steps = one_after_the_other(options, n);
            &&& steps.len() == 3 * n
            &&& steps[3 * k as int] == (SessionStep::Run {
                first: k as usize,
                plan: plan_for(options, false, 1),
            })
            &&& steps[3 * k as int + 1] == SessionStep::PushResult(k as usize)
            &&& steps[3 * k as int + 2] == SessionStep::Export
        }),
    decreases n,
{
    lemma_one_after_the_other(options, n, 0);
    lemma_one_after_the_other(options, (n - 1) as nat, 0);
    if k + 1 < n {
        lemma_three_steps_each(options, (n - 1) as nat, k);
    }
}

/// Whether `results` holds what the accumulators make of the runs of all commands.
pub open spec fn are_results_of<
    M: Fn(&[Real]) -> Real,
    S: Fn(&[Real], Real) -> Real,
    D: Fn(&[Real]) -> Real,
>(
    accumulators: Seq<CommandAccumulator>,
    labels: Seq<CommandLabel>,
    mean: M,
    stddev: S,
    median: D,
    results: Seq<BenchmarkResult>,
) -> bool {
    &&& results.len() == accumulators.len()
    &&& forall|c: int|
        0 <= c < results.len() ==> is_result_of(
            accumulators[c],
            labels[c],
            mean,
            stddev,
            median,
            #[trigger] results[c],
        )
}

/// Whether no run time is a NaN.
pub open spec fn measures_numbers(accumulators: Seq<CommandAccumulator>) -> bool {
    forall|c: int|
        0 <= c < accumulators.len() ==> are_numbers((#[trigger] accumulators[c]).times_real@)
}

/// Whether a benchmark has come to its end.
pub open spec fn is_over(run: BenchmarkRun) -> bool {
    &&& run.is_counted()
    &&& run.awaiting() is None
    &&& run.remaining().len() == 0
}

/// How many rounds several commands that take turns have completed: as many as were exported, the
/// export that is awaited among them.
pub open spec fn completed_rounds(run: BenchmarkRun) -> int {
    if run.is_counted() {
        run.run_count() - exports(run.remaining())
    } else {
        0
    }
}

/// When an export is due, the runs are counted, commands take turns, and each command has been timed
/// once in every completed round: all accumulators hold equally many runs.
pub proof fn exports_hold_whole_rounds(run: BenchmarkRun, c: int)
    requires
        run.wf(),
        run.awaiting() == Some(Step::Export),
        0 <= c < run.plan().commands,
    ensures
        run.is_counted(),
        run.plan().interleaved,
        run.accumulators()[c].runs().len() == completed_rounds(run),
        1 <= completed_rounds(run) <= run.run_count(),
{
    let left = run.left();
    left_is_in_step(run, c);
    every_timed_run_is_accounted_for(run, c);
    lemma_exports_shrink(left);
    assert(left[0] == Step::Export);
    assert(left.skip(1) =~= run.remaining());
    assert(in_step_at(left, run.run_count(), c, 1));
    lemma_timed_one(Step::Export, c);
}

/// Once the runs of several commands that take turns are counted, each command has been timed once
/// in every completed round, and at most once more.
pub proof fn a_broken_round_adds_at_most_one_run(run: BenchmarkRun, c: int)
    requires
        run.wf(),
        run.plan().interleaved,
        run.is_counted(),
        run.awaiting() != Some(Step::Export),
        0 <= c < run.plan().commands,
    ensures
        0 <= completed_rounds(run),
        completed_rounds(run) <= run.accumulators()[c].runs().len() <= completed_rounds(run) + 1,
{
    let left = run.left();
    left_is_in_step(run, c);
    every_timed_run_is_accounted_for(run, c);
    assert(in_step_at(left, run.run_count(), c, 0));
    assert(left.skip(0) =~= left);
    if run.awaiting() is Some {
        lemma_exports_shrink(left);
        assert(left.skip(1) =~= run.remaining());
    } else {
        assert(left =~= run.remaining());
    }
}

/// A command that is timed in a round after the first is timed when as many rounds are completed as
/// the number of the round says. Before the first round is completed nothing is exported.
pub proof fn rounds_are_numbered_by_exports(run: BenchmarkRun, command: usize, round: u64)
    requires
        run.wf(),
        run.plan().interleaved,
        run.awaiting() == Some(
            Step::Measure { command, iteration: BenchmarkIteration::Benchmark(round) },
        ),
    ensures
        run.is_counted() ==> completed_rounds(run) == round,
        !run.is_counted() ==> completed_rounds(run) == 0,
{
    let left = run.left();
    run_is_of_a_command(run);
    left_is_in_step(run, 0);
    if run.is_counted() {
        assert(in_step_at(left, run.run_count(), 0, 0));
        assert(left.skip(0) =~= left);
        assert(left[0] == run.awaiting()->0);
        lemma_exports_shrink(left);
        assert(left.skip(1) =~= run.remaining());
    }
}

/// Whether the accumulators hold the runs of the completed rounds and no others.
pub open spec fn are_completed(run: BenchmarkRun, accumulators: Seq<CommandAccumulator>) -> bool {
    &&& accumulators.len() == run.accumulators().len()
    &&& forall|c: int|
        0 <= c < accumulators.len() ==> (#[trigger] accumulators[c]).wf()
            && accumulators[c].runs() == run.accumulators()[c].runs().take(completed_rounds(run))
}

/// Whether `results` are those of the completed rounds of several commands that take turns: before
/// any round is completed, the earlier results.
pub open spec fn holds_completed_rounds<
    M: Fn(&[Real]) -> Real,
    S: Fn(&[Real], Real) -> Real,
    D: Fn(&[Real]) -> Real,
>(
    run: BenchmarkRun,
    labels: Seq<CommandLabel>,
    mean: M,
    stddev: S,
    median: D,
    earlier: Seq<BenchmarkResult>,
    results: Seq<BenchmarkResult>,
) -> bool {
    if completed_rounds(run) == 0 {
        results == earlier
    } else {
        exists|accumulators: Seq<CommandAccumulator>|
            #[trigger] are_completed(run, accumulators) && are_results_of(
                accumulators,
                labels,
                mean,
                stddev,
                median,
                results,
            )
    }
}

/// What was recorded before a step is still there after it.
proof fn lemma_records_extend(
    before: Seq<CommandAccumulator>,
    after: Seq<CommandAccumulator>,
    step: Step,
    outcome: Outcome,
    c: int,
)
    requires
        records(before, after, step, outcome),
        step matches Step::Measure { command, .. } ==> command < before.len(),
        0 <= c < before.len(),
    ensures
        before[c].runs().len() <= after[c].runs().len(),
        after[c].runs().take(before[c].runs().len() as int) == before[c].runs(),
{
    if after[c] == before[c] {
        assert(after[c].runs().take(before[c].runs().len() as int) =~= before[c].runs());
    } else {
        assert(step is Measure && outcome is Measured);
        let run = after[c].runs().last();
        assert(after[c].runs() == before[c].runs().push(run));
        assert(after[c].runs().take(before[c].runs().len() as int) =~= before[c].runs());
    }
}

/// The outcome of a step does not change which rounds are completed, so that results of the
/// completed rounds stay such. A failed step changes nothing at all: the results are then those of
/// the rounds before the broken one.
pub proof fn outcomes_keep_completed_rounds<
    M: Fn(&[Real]) -> Real,
    S: Fn(&[Real], Real) -> Real,
    D: Fn(&[Real]) -> Real,
>(
    before: BenchmarkRun,
    after: BenchmarkRun,
    step: Step,
    outcome: Outcome,
    labels: Seq<CommandLabel>,
    mean: M,
    stddev: S,
    median: D,
    earlier: Seq<BenchmarkResult>,
    results: Seq<BenchmarkResult>,
)
    requires
        before.wf(),
        after.wf(),
        before.plan().interleaved,
        before.awaiting() == Some(step),
        fits(step, outcome, before.plan().run_bounds),
        !(outcome is Failed),
        has_completed(before, after, step, outcome),
        holds_completed_rounds(before, labels, mean, stddev, median, earlier, results),
    ensures
        completed_rounds(after) == completed_rounds(before),
        holds_completed_rounds(after, labels, mean, stddev, median, earlier, results),
{
    run_is_of_a_command(before);
    run_is_of_a_command(after);
    if step == Step::CountRuns {
        count_is_taken_once(before);
        each_round_is_exported_once(after.plan(), after.run_count());
    } else if completed_rounds(before) != 0 {
        let accumulators = choose|accumulators: Seq<CommandAccumulator>|
            #[trigger] are_completed(before, accumulators) && are_results_of(
                accumulators,
                labels,
                mean,
                stddev,
                median,
                results,
            );
        let k = completed_rounds(before);
        assert forall|c: int| 0 <= c < accumulators.len() implies (
        #[trigger] accumulators[c]).wf() && accumulators[c].runs()
            == after.accumulators()[c].runs().take(k) by {
            if step == Step::Export {
                exports_hold_whole_rounds(before, c);
            } else {
                a_broken_round_adds_at_most_one_run(before, c);
            }
            lemma_records_extend(before.accumulators(), after.accumulators(), step, outcome, c);
            let extended = after.accumulators()[c].runs();
            let recorded = before.accumulators()[c].runs();
            assert(extended.take(k) =~= extended.take(recorded.len() as int).take(k));
        }
        assert(are_completed(after, accumulators));
    }
}

/// When several commands have taken turns to the end, all rounds are completed: the last export
/// holds all that the results at the end do.
pub proof fn the_last_export_holds_everything(run: BenchmarkRun, c: int)
    requires
        run.wf(),
        run.plan().interleaved,
        is_over(run),
        0 <= c < run.plan().commands,
    ensures
        completed_rounds(run) == run.run_count(),
        run.accumulators()[c].runs().take(completed_rounds(run)) == run.accumulators()[c].runs(),
{
    samples_pair_up(run, c, c);
    assert(run.accumulators()[c].runs().take(completed_rounds(run))
        =~= run.accumulators()[c].runs());
}

/// A session begins a benchmark with no round completed.
pub proof fn no_round_is_completed_at_first<
    M: Fn(&[Real]) -> Real,
    S: Fn(&[Real], Real) -> Real,
    D: Fn(&[Real]) -> Real,
>(
    run: BenchmarkRun,
    labels: Seq<CommandLabel>,
    mean: M,
    stddev: S,
    median: D,
    results: Seq<BenchmarkResult>,
)
    requires
        !run.is_counted(),
    ensures
        holds_completed_rounds(run, labels, mean, stddev, median, results, results),
{
}

impl Scheduler {
    /// Names the next step of a benchmark of several commands that take turns. When an export is
    /// due, the results are built anew before, so that what is exported is all that was measured.
    pub fn next_step<
        M: Fn(&[Real]) -> Real,
        S: Fn(&[Real], Real) -> Real,
        D: Fn(&[Real]) -> Real,
    >(
        &mut self,
        run: &mut BenchmarkRun,
        labels: &Vec<CommandLabel>,
        mean: &M,
        stddev: &S,
        median: &D,
    ) -> (step: Option<Step>)
        requires
            old(run).wf(),
            old(run).awaiting() is None,
            labels@.len() == old(run).plan().commands,
            old(run).remaining().len() > 0 && old(run).remaining()[0] == Step::Export
                ==> measures_numbers(old(run).accumulators()),
            takes_any_samples(*mean),
            takes_several_samples(*stddev),
            takes_samples(*median),
        ensures
            final(run).wf(),
            has_named(*old(run), *final(run), step),
            final(self).options == old(self).options,
            final(self).analysis_results == old(self).analysis_results,
            step == Some(Step::Export) ==> are_results_of(
                final(run).accumulators(),
                labels@,
                *mean,
                *stddev,
                *median,
                final(self).results@,
            ),
            step != Some(Step::Export) ==> final(self).results == old(self).results,
            old(run).plan().interleaved ==> forall|earlier: Seq<BenchmarkResult>|
                #[trigger] holds_completed_rounds(
                    *old(run),
                    labels@,
                    *mean,
                    *stddev,
                    *median,
                    earlier,
                    old(self).results@,
                ) ==> holds_completed_rounds(
                    *final(run),
                    labels@,
                    *mean,
                    *stddev,
                    *median,
                    earlier,
                    final(self).results@,
                ),
    {
        let ghost before = *run;
        let step = run.next_step();
        match step {
            Some(Step::Export) => {
                self.build_and_update_results(run, labels, mean, stddev, median);
            },
            _ => {},
        }
        proof {
            if before.plan().interleaved {
                run_is_of_a_command(*run);
                lemma_named_rounds(before, *run, step);
                if step == Some(Step::Export) {
                    assert(are_completed(*run, run.accumulators()));
                } else {
                    assert forall|earlier: Seq<BenchmarkResult>|
                        #[trigger] holds_completed_rounds(
                            before,
                            labels@,
                            *mean,
                            *stddev,
                            *median,
                            earlier,
                            old(self).results@,
                        ) implies holds_completed_rounds(
                        *run,
                        labels@,
                        *mean,
                        *stddev,
                        *median,
                        earlier,
                        self.results@,
                    ) by {
                        lemma_same_rounds(
                            before,
                            *run,
                            labels@,
                            *mean,
                            *stddev,
                            *median,
                            earlier,
                            self.results@,
                        );
                    }
                }
            }
        }
        step
    }
}

/// Naming an export completes a round, and naming another step completes none.
proof fn lemma_named_rounds(before: BenchmarkRun, after: BenchmarkRun, step: Option<Step>)
    requires
        before.wf(),
        after.wf(),
        before.plan().interleaved,
        has_named(before, after, step),
    ensures
        step == Some(Step::Export) ==> are_completed(after, after.accumulators())
            && completed_rounds(after) > 0,
        step != Some(Step::Export) ==> completed_rounds(after) == completed_rounds(before),
{
    run_is_of_a_command(after);
    if step == Some(Step::Export) {
        exports_hold_whole_rounds(after, 0);
        assert forall|c: int| 0 <= c < after.accumulators().len() implies (
        #[trigger] after.accumulators()[c]).wf() && after.accumulators()[c].runs()
            == after.accumulators()[c].runs().take(completed_rounds(after)) by {
            every_timed_run_is_accounted_for(after, c);
            exports_hold_whole_rounds(after, c);
            assert(after.accumulators()[c].runs() =~= after.accumulators()[c].runs().take(
                completed_rounds(after),
            ));
        }
    } else if let Some(named) = step {
        lemma_exports_shrink(before.remaining());
        assert(before.remaining().skip(1) =~= after.remaining());
    } else {
        assert(before.remaining() =~= after.remaining());
    }
}

proof fn lemma_same_rounds<
    M: Fn(&[Real]) -> Real,
    S: Fn(&[Real], Real) -> Real,
    D: Fn(&[Real]) -> Real,
>(
    before: BenchmarkRun,
    after: BenchmarkRun,
    labels: Seq<CommandLabel>,
    mean: M,
    stddev: S,
    median: D,
    earlier: Seq<BenchmarkResult>,
    results: Seq<BenchmarkResult>,
)
    requires
        after.accumulators() == before.accumulators(),
        completed_rounds(after) == completed_rounds(before),
        holds_completed_rounds(before, labels, mean, stddev, median, earlier, results),
    ensures
        holds_completed_rounds(after, labels, mean, stddev, median, earlier, results),
{
    if completed_rounds(before) != 0 {
        let accumulators = choose|accumulators: Seq<CommandAccumulator>|
            #[trigger] are_completed(before, accumulators) && are_results_of(
                accumulators,
                labels,
                mean,
                stddev,
                median,
                results,
            );
        assert(are_completed(after, accumulators));
    }
}

impl Scheduler {
    /// All commands that are benchmarked: the reference command comes first, if there is one.
    pub fn all_commands(&self, commands: Vec<Command>) -> (all: Vec<Command>)
        ensures
            match self.options.reference_command {
                Some(expression) => {
                    &&& all@.len() == commands@.len() + 1
                    &&& is_reference_command(all@[0], self.options.reference_name, expression)
                    &&& all@.skip(1) == commands@
                },
                None => all@ == commands@,
            },
    {
        match &self.options.reference_command {
            Some(expression) => {
                let name = match &self.options.reference_name {
                    Some(name) => Some(name.clone()),
                    None => None,
                };
                let no_parameters: Vec<(String, String)> = Vec::new();
                let reference = Command::new_parametrized(name, expression, &no_parameters);
                assert(parameters_view(reference.parameters@).len() == 0);
                let mut all: Vec<Command> = Vec::with_capacity(1);
                let mut others = commands;
                all.push(reference);
                all.append(&mut others);
                assert(all@.skip(1) =~= commands@);
                all
            },
            None => commands,
        }
    }

    /// The steps of a session with the given commands. A failure of one step ends the session.
    pub fn run_benchmarks(&self, commands: &Vec<Command>) -> (steps: Vec<SessionStep>)
        requires
            self.options.interleave ==> self.options.warmup_count * commands@.len() <= u64::MAX,
        ensures
            steps@ == session_steps(self.options, commands@.len() as usize),
            forall|i: int|
                0 <= i < steps@.len() ==> (#[trigger] steps@[i] matches SessionStep::Run {
                    plan,
                    ..
                } ==> plan.wf()),
    {
        let n: usize = commands.len();
        let mut steps: Vec<SessionStep> = Vec::new();
        steps.push(SessionStep::Calibrate);
        if self.options.interleave && n >= 2 {
            steps.push(SessionStep::Run { first: 0, plan: Plan::for_several(&self.options, n) });
            steps.push(SessionStep::UpdateResults);
            assert(steps@ =~= session_steps(self.options, n));
            return steps;
        }
        let mut number: usize = 0;
        while number < n
            invariant
                number <= n,
                steps@ == seq![SessionStep::Calibrate] + one_after_the_other(
                    self.options,
                    number as nat,
                ),
                forall|i: int|
                    0 <= i < steps@.len() ==> (#[trigger] steps@[i] matches SessionStep::Run {
                        plan,
                        ..
                    } ==> plan.wf()),
            decreases n - number,
        {
            let plan = Plan::for_one(&self.options);
            steps.push(SessionStep::Run { first: number, plan });
            steps.push(SessionStep::PushResult(number));
            steps.push(SessionStep::Export);
            number = number + 1;
            assert(steps@ =~= seq![SessionStep::Calibrate] + one_after_the_other(
                self.options,
                number as nat,
            ));
        }
        steps
    }

    /// Keeps the result of a benchmark of one command.
    pub fn push_result<
        M: Fn(&[Real]) -> Real,
        S: Fn(&[Real], Real) -> Real,
        D: Fn(&[Real]) -> Real,
    >(&mut self, run: &BenchmarkRun, label: &CommandLabel, mean: &M, stddev: &S, median: &D)
        requires
            run.wf(),
            is_over(*run),
            measures_numbers(run.accumulators()),
            takes_any_samples(*mean),
            takes_several_samples(*stddev),
            takes_samples(*median),
        ensures
            final(self).options == old(self).options,
            final(self).analysis_results == old(self).analysis_results,
            final(self).results@.len() == old(self).results@.len() + 1,
            final(self).results@.drop_last() == old(self).results@,
            is_result_of(
                run.accumulators()[0],
                *label,
                *mean,
                *stddev,
                *median,
                final(self).results@.last(),
            ),
    {
        proof {
            run_is_of_a_command(*run);
            every_timed_run_is_accounted_for(*run, 0);
        }
        let result = run.accumulator(0).build_result(label, mean, stddev, median);
        self.results.push(result);
        assert(self.results@.drop_last() =~= old(self).results@);
    }

    /// Build BenchmarkResult structs from accumulated data
    pub fn build_and_update_results<
        M: Fn(&[Real]) -> Real,
        S: Fn(&[Real], Real) -> Real,
        D: Fn(&[Real]) -> Real,
    >(
        &mut self,
        run: &BenchmarkRun,
        labels: &Vec<CommandLabel>,
        mean: &M,
        stddev: &S,
        median: &D,
    )
        requires
            run.wf(),
            run.awaiting() == Some(Step::Export) || is_over(*run),
            labels@.len() == run.plan().commands,
            measures_numbers(run.accumulators()),
            takes_any_samples(*mean),
            takes_several_samples(*stddev),
            takes_samples(*median),
        ensures
            final(self).options == old(self).options,
            final(self).analysis_results == old(self).analysis_results,
            are_results_of(
                run.accumulators(),
                labels@,
                *mean,
                *stddev,
                *median,
                final(self).results@,
            ),
    {
        let mut results: Vec<BenchmarkResult> = Vec::with_capacity(labels.len());
        let mut c: usize = 0;
        proof {
            run_is_of_a_command(*run);
            if run.awaiting() == Some(Step::Export) {
                exports_hold_whole_rounds(*run, 0);
            }
        }
        while c < labels.len()
            invariant
                run.wf(),
                run.is_counted(),
                labels@.len() == run.plan().commands,
                run.accumulators().len() == run.plan().commands,
                measures_numbers(run.accumulators()),
                takes_any_samples(*mean),
                takes_several_samples(*stddev),
                takes_samples(*median),
                c <= labels@.len(),
                results@.len() == c,
                forall|k: int|
                    0 <= k < c ==> is_result_of(
                        run.accumulators()[k],
                        labels@[k],
                        *mean,
                        *stddev,
                        *median,
                        #[trigger] results@[k],
                    ),
            decreases labels@.len() - c,
        {
            proof {
                every_timed_run_is_accounted_for(*run, c as int);
            }
            results.push(run.accumulator(c).build_result(&labels[c], mean, stddev, median));
            c = c + 1;
        }
        self.results = results;
    }
}

/// After several commands have taken turns to the end, every result has as many run times as there
/// were rounds, so that the run times of any two commands pair up.
pub proof fn interleaved_results_pair_up<
    M: Fn(&[Real]) -> Real,
    S: Fn(&[Real], Real) -> Real,
    D: Fn(&[Real]) -> Real,
>(
    run: BenchmarkRun,
    labels: Seq<CommandLabel>,
    mean: M,
    stddev: S,
    median: D,
    results: Seq<BenchmarkResult>,
)
    requires
        run.wf(),
        is_over(run),
        are_results_of(run.accumulators(), labels, mean, stddev, median, results),
    ensures
        results.len() == run.plan().commands,
        all_have_times(results),
        forall|c: int|
            0 <= c < results.len() ==> (#[trigger] times_of(results)[c]).len() == run.run_count(),
{
    run_is_of_a_command(run);
    assert forall|c: int| 0 <= c < results.len() implies (#[trigger] results[c]).times is Some
        && times_of(results)[c].len() == run.run_count() by {
        samples_pair_up(run, c, c);
        every_timed_run_is_accounted_for(run, c);
    }
    assert forall|c: int| 0 <= c < results.len() implies (#[trigger] times_of(results)[c]).len()
        == run.run_count() by {
        assert(results[c].times is Some);
    }
}

/// The result of each command stands at the place of the command, under its label, and holds the run
/// times that were measured of it.
pub proof fn each_command_has_its_result<
    M: Fn(&[Real]) -> Real,
    S: Fn(&[Real], Real) -> Real,
    D: Fn(&[Real]) -> Real,
>(
    accumulators: Seq<CommandAccumulator>,
    labels: Seq<CommandLabel>,
    mean: M,
    stddev: S,
    median: D,
    results: Seq<BenchmarkResult>,
    c: int,
)
    requires
        are_results_of(accumulators, labels, mean, stddev, median, results),
        0 <= c < accumulators.len(),
    ensures
        results.len() == accumulators.len(),
        results[c].command@ == labels[c].name@,
        results[c].command_with_unused_parameters@ == labels[c].name_with_unused_parameters@,
        results[c].times matches Some(times) && times@ == accumulators[c].times_real@,
        results[c].exit_codes@ == accumulators[c].exit_codes@,
        results[c].memory_usage_byte matches Some(usage) && usage@
            == accumulators[c].memory_usage_byte@,
        exists|x: &[Real]| #[trigger]
            call_ensures(mean, (x,), results[c].mean) && x@ == accumulators[c].times_real@,
{
    assert(is_result_of(accumulators[c], labels[c], mean, stddev, median, results[c]));
}

/// The reference command has the name and the command line that were given for it, and no
/// parameters.
pub proof fn the_reference_is_as_given(
    command: Command,
    name: Option<String>,
    expression: String,
)
    requires
        is_reference_command(command, name, expression),
    ensures
        command.name is Some <==> name is Some,
        command.name matches Some(given) ==> given@ == name->0@,
        command.expression@ == expression@,
        command.parameters@.len() == 0,
{
}

/// Once a round is completed, the result of each command holds one run time for each completed round:
/// that of the timed run which the command had in it. A run of a broken round is in no result.
pub proof fn results_are_of_the_completed_rounds<
    M: Fn(&[Real]) -> Real,
    S: Fn(&[Real], Real) -> Real,
    D: Fn(&[Real]) -> Real,
>(
    run: BenchmarkRun,
    labels: Seq<CommandLabel>,
    mean: M,
    stddev: S,
    median: D,
    earlier: Seq<BenchmarkResult>,
    results: Seq<BenchmarkResult>,
    c: int,
    round: int,
)
    requires
        run.wf(),
        run.plan().interleaved,
        holds_completed_rounds(run, labels, mean, stddev, median, earlier, results),
        0 <= c < run.plan().commands,
        0 <= round < completed_rounds(run),
    ensures
        results.len() == run.plan().commands,
        results[c].times is Some,
        results[c].times->0@.len() == completed_rounds(run),
        results[c].times->0@[round] == run.accumulators()[c].runs()[round].result.time_real,
        results[c].exit_codes@[round] == run.accumulators()[c].runs()[round].exit_code,
{
    run_is_of_a_command(run);
    let accumulators = choose|accumulators: Seq<CommandAccumulator>|
        #[trigger] are_completed(run, accumulators) && are_results_of(
            accumulators,
            labels,
            mean,
            stddev,
            median,
            results,
        );
    if run.awaiting() == Some(Step::Export) {
        exports_hold_whole_rounds(run, c);
    } else {
        a_broken_round_adds_at_most_one_run(run, c);
    }
    assert(accumulators[c].wf());
    assert(is_result_of(accumulators[c], labels[c], mean, stddev, median, results[c]));
    let k = completed_rounds(run);
    assert(accumulators[c].runs() == run.accumulators()[c].runs().take(k));
    assert(k <= run.accumulators()[c].runs().len());
    assert(accumulators[c].runs().len() == k);
    assert(accumulators[c].runs().len() == accumulators[c].times_real@.len());
    assert(accumulators[c].runs()[round] == run.accumulators()[c].runs()[round]);
    lists_are_of_the_runs(accumulators[c], round);
}

} // verus!
