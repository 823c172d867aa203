use hyperfine::benchmark::accumulator::TimingResult;
use hyperfine::benchmark::count::bounded_run_count;
use hyperfine::benchmark::intermediate::has_prepare_command;
use hyperfine::benchmark::plan::{BenchmarkIteration, Plan, ProgressTask, Step};
use hyperfine::benchmark::run::{total_time, BenchmarkRun, InitialTimes, Outcome, RunError};
use hyperfine::benchmark::statistics::{benchmark_summary, max, min, Summary};
use hyperfine::benchmark::warnings::{OutlierWarningOptions, Warnings};
use hyperfine::benchmark::{
    build_cleanup_command, build_conclusion_command, build_preparation_command,
    build_setup_command, calculate_run_count, generate_warnings, Benchmark, BenchmarkStatistics,
    CommandAccumulator,
};
use hyperfine::command::CommandLabel;
use hyperfine::number::Real;
use hyperfine::options::{ExecutorKind, Options, OutputStyleOption, RunBounds, SortOrder};
use statistical::{mean, median, standard_deviation};

fn number(x: f64) -> Real {
    Real::from_bits(x.to_bits())
}

fn float(r: Real) -> f64 {
    f64::from_bits(r.bits)
}

fn numbers(values: &[f64]) -> Vec<Real> {
    values.iter().map(|x| number(*x)).collect()
}

fn floats(samples: &[Real]) -> Vec<f64> {
    samples.iter().map(|r| float(*r)).collect()
}

fn mean_of(samples: &[Real]) -> Real {
    number(mean(&floats(samples)))
}

fn stddev_of(samples: &[Real], around: Real) -> Real {
    number(standard_deviation(&floats(samples), Some(float(around))))
}

fn median_of(samples: &[Real]) -> Real {
    number(median(&floats(samples)))
}

fn options() -> Options {
    Options {
        run_bounds: RunBounds { min: 2, max: Some(2) },
        warmup_count: 0,
        min_benchmarking_time: number(3.0),
        reference_command: None,
        reference_name: None,
        preparation_command: None,
        conclusion_command: None,
        setup_command: None,
        cleanup_command: None,
        output_style: OutputStyleOption::Disabled,
        sort_order_speed_comparison: SortOrder::MeanTime,
        executor_kind: ExecutorKind::Mock,
        interleave: false,
        robust: false,
        seed: None,
        confidence: number(0.95),
        practical_delta: number(0.01),
        resamples: 10000,
    }
}

fn timing(time_real: f64) -> TimingResult {
    TimingResult {
        time_real: number(time_real),
        time_user: number(time_real / 2.0),
        time_system: number(time_real / 4.0),
        memory_usage_byte: 1024,
    }
}

/// How a step goes if all goes well; every measured run takes one second.
fn success(step: Step) -> Outcome {
    match step {
        Step::Setup(_) | Step::Prepare(_) | Step::Conclude(_) | Step::Cleanup(_) => {
            Outcome::Ran(timing(0.5))
        }
        Step::Measure { .. } => Outcome::Measured {
            result: timing(1.0),
            exit_code: Some(0),
            success: true,
        },
        Step::TotalTime(_) => Outcome::Total(number(1.0)),
        Step::CountRuns => Outcome::Runs(3),
        _ => Outcome::Done,
    }
}

fn all_steps(plan: Plan) -> Vec<Step> {
    let mut run = BenchmarkRun::new(plan);
    let mut steps = vec![];
    while let Some(step) = run.next_step() {
        steps.push(step);
        assert_eq!(run.complete(success(step)), Ok(()));
    }
    steps
}

fn measure(command: usize, iteration: BenchmarkIteration) -> Step {
    Step::Measure { command, iteration }
}

#[test]
fn quiet_benchmark_of_one_command() {
    assert_eq!(
        all_steps(Plan::for_one(&options())),
        vec![
            measure(0, BenchmarkIteration::Benchmark(0)),
            Step::TotalTime(0),
            Step::CountRuns,
            measure(0, BenchmarkIteration::Benchmark(1)),
            Step::Warn(0),
        ]
    );
}

#[test]
fn full_benchmark_of_one_command() {
    let mut options = options();
    options.output_style = OutputStyleOption::Full;
    options.warmup_count = 1;
    options.setup_command = Some("setup".to_string());
    options.preparation_command = Some(vec!["prepare".to_string()]);
    options.conclusion_command = Some(vec!["conclude".to_string()]);
    options.cleanup_command = Some("cleanup".to_string());
    assert_eq!(
        all_steps(Plan::for_one(&options)),
        vec![
            Step::Announce(0),
            Step::Setup(0),
            Step::StartProgress { task: ProgressTask::WarmupRuns, length: 1 },
            Step::Prepare(0),
            measure(0, BenchmarkIteration::Warmup(0)),
            Step::Conclude(0),
            Step::Advance,
            Step::FinishProgress,
            Step::StartProgress { task: ProgressTask::InitialMeasurement, length: 2 },
            Step::Prepare(0),
            measure(0, BenchmarkIteration::Benchmark(0)),
            Step::Conclude(0),
            Step::TotalTime(0),
            Step::CountRuns,
            Step::SetProgressLength(2),
            Step::Advance,
            Step::Prepare(0),
            Step::ShowEstimate(0),
            measure(0, BenchmarkIteration::Benchmark(1)),
            Step::Advance,
            Step::Conclude(0),
            Step::FinishProgress,
            Step::Summarize(0),
            Step::Warn(0),
            Step::EndSection,
            Step::Cleanup(0),
        ]
    );
}

#[test]
fn full_benchmark_of_two_commands_that_take_turns() {
    let mut options = options();
    options.output_style = OutputStyleOption::Full;
    options.warmup_count = 1;
    options.setup_command = Some("setup".to_string());
    options.preparation_command = Some(vec!["prepare".to_string()]);
    options.cleanup_command = Some("cleanup".to_string());
    assert_eq!(
        all_steps(Plan::for_several(&options, 2)),
        vec![
            Step::AnnounceAll,
            Step::Setup(0),
            Step::Setup(1),
            Step::StartProgress { task: ProgressTask::WarmupRuns, length: 2 },
            Step::Prepare(0),
            measure(0, BenchmarkIteration::Warmup(0)),
            Step::Advance,
            Step::Prepare(1),
            measure(1, BenchmarkIteration::Warmup(0)),
            Step::Advance,
            Step::FinishProgress,
            Step::Prepare(0),
            measure(0, BenchmarkIteration::Benchmark(0)),
            Step::TotalTime(0),
            Step::Prepare(1),
            measure(1, BenchmarkIteration::Benchmark(0)),
            Step::TotalTime(1),
            Step::CountRuns,
            Step::Export,
            Step::StartCommandBars { length: 1 },
            Step::ShowEstimate(0),
            Step::ShowEstimate(1),
            Step::Prepare(0),
            measure(0, BenchmarkIteration::Benchmark(1)),
            Step::ShowEstimate(0),
            Step::AdvanceCommandBar(0),
            Step::Prepare(1),
            measure(1, BenchmarkIteration::Benchmark(1)),
            Step::ShowEstimate(1),
            Step::AdvanceCommandBar(1),
            Step::Export,
            Step::FinishCommandBars,
            Step::Cleanup(0),
            Step::Cleanup(1),
            Step::Announce(0),
            Step::Summarize(0),
            Step::Warn(0),
            Step::EndSection,
            Step::Announce(1),
            Step::Summarize(1),
            Step::Warn(1),
            Step::EndSection,
        ]
    );
}

#[test]
fn timed_runs_take_turns_and_pair_up() {
    let mut options = options();
    options.run_bounds = RunBounds { min: 4, max: None };
    let mut run = BenchmarkRun::new(Plan::for_several(&options, 3));
    let mut order = vec![];
    while let Some(step) = run.next_step() {
        if let Step::Measure { command, iteration: BenchmarkIteration::Benchmark(round) } = step {
            order.push((round, command));
        }
        assert_eq!(run.complete(success(step)), Ok(()));
    }
    let expected: Vec<(u64, usize)> = (0..4).flat_map(|r| (0..3).map(move |c| (r, c))).collect();
    assert_eq!(order, expected);
    assert_eq!(run.counted_runs(), Some(4));
    for c in 0..3 {
        assert_eq!(run.accumulator(c).run_count(), 4);
    }
}

/// The error of a run in which the first step that `fails` picks goes wrong.
fn error_at(options: &Options, several: bool, fails: fn(Step) -> bool) -> Option<RunError> {
    let plan = if several { Plan::for_several(options, 2) } else { Plan::for_one(options) };
    let mut run = BenchmarkRun::new(plan);
    while let Some(step) = run.next_step() {
        let outcome = if fails(step) { Outcome::Failed } else { success(step) };
        if let Err(error) = run.complete(outcome) {
            return Some(error);
        }
    }
    None
}

#[test]
fn each_failure_has_an_error_of_its_own() {
    let mut options = options();
    options.setup_command = Some("setup".to_string());
    options.preparation_command = Some(vec!["prepare".to_string()]);
    options.conclusion_command = Some(vec!["conclude".to_string()]);
    options.cleanup_command = Some("cleanup".to_string());
    let error = |fails: fn(Step) -> bool| error_at(&options, true, fails);
    assert_eq!(error(|s| matches!(s, Step::Setup(_))), Some(RunError::Setup));
    assert_eq!(error(|s| matches!(s, Step::Prepare(_))), Some(RunError::Preparation));
    assert_eq!(error(|s| matches!(s, Step::Conclude(_))), Some(RunError::Conclusion));
    assert_eq!(error(|s| matches!(s, Step::Cleanup(_))), Some(RunError::Cleanup));
    assert_eq!(error(|s| matches!(s, Step::Measure { .. })), Some(RunError::Command));
    assert_eq!(error(|s| matches!(s, Step::Export)), Some(RunError::Export));
    assert_eq!(error(|_| false), None);
    assert_eq!(error_at(&options, false, |s| matches!(s, Step::Export)), None);
}

#[test]
fn failures_around_the_command_have_a_message() {
    assert_eq!(
        RunError::Setup.error_output(),
        Some(
            "The setup command terminated with a non-zero exit code. \
             Append ' || true' to the command if you are sure that this can be ignored."
        )
    );
    assert_eq!(
        RunError::Preparation.error_output(),
        Some(
            "The preparation command terminated with a non-zero exit code. \
             Append ' || true' to the command if you are sure that this can be ignored."
        )
    );
    assert_eq!(
        RunError::Conclusion.error_output(),
        Some(
            "The conclusion command terminated with a non-zero exit code. \
             Append ' || true' to the command if you are sure that this can be ignored."
        )
    );
    assert_eq!(
        RunError::Cleanup.error_output(),
        Some(
            "The cleanup command terminated with a non-zero exit code. \
             Append ' || true' to the command if you are sure that this can be ignored."
        )
    );
    assert_eq!(RunError::Command.error_output(), None);
    assert_eq!(RunError::Export.error_output(), None);
}

#[test]
fn the_first_timed_run_decides_the_count() {
    let mut options = options();
    options.run_bounds = RunBounds { min: 1, max: None };
    options.preparation_command = Some(vec!["prepare".to_string()]);
    let mut run = Benchmark::new(0, &options).run();
    while let Some(step) = run.next_step() {
        let outcome = match step {
            Step::TotalTime(_) => {
                let times = run.initial_times();
                assert_eq!(times.run, number(1.0));
                assert_eq!(times.preparation, Some(number(0.5)));
                assert_eq!(times.conclusion, None);
                Outcome::Total(number(1.5))
            }
            Step::CountRuns => {
                assert_eq!(run.decisive_time(), number(1.5));
                assert_eq!(run.counted_runs(), None);
                Outcome::Runs(6)
            }
            _ => success(step),
        };
        assert_eq!(run.complete(outcome), Ok(()));
    }
    assert_eq!(run.counted_runs(), Some(6));
    assert_eq!(run.accumulator(0).run_count(), 6);
}

#[test]
fn the_slowest_command_decides_the_count() {
    let totals = [0.5, 2.0, 1.0];
    let mut run = BenchmarkRun::new(Plan::for_several(&options(), 3));
    while let Some(step) = run.next_step() {
        let outcome = match step {
            Step::TotalTime(c) => Outcome::Total(number(totals[c])),
            Step::CountRuns => {
                assert_eq!(run.decisive_time(), number(2.0));
                Outcome::Runs(1)
            }
            _ => success(step),
        };
        assert_eq!(run.complete(outcome), Ok(()));
    }
}

#[test]
fn run_count_keeps_within_bounds() {
    let bounded = RunBounds { min: 10, max: Some(20) };
    assert_eq!(bounded_run_count(&bounded, 0), 10);
    assert_eq!(bounded_run_count(&bounded, 10), 10);
    assert_eq!(bounded_run_count(&bounded, 15), 15);
    assert_eq!(bounded_run_count(&bounded, 21), 20);
    let unbounded = RunBounds { min: 10, max: None };
    assert_eq!(bounded_run_count(&unbounded, u64::MAX), u64::MAX);
    // The upper bound wins over the lower one
    let crossed = RunBounds { min: 10, max: Some(5) };
    assert_eq!(bounded_run_count(&crossed, 7), 5);
}

fn plus(x: Real, y: Real) -> Real {
    number(float(x) + float(y))
}

fn quotient(x: Real, y: Real) -> u64 {
    (float(x) / float(y)) as u64
}

fn run_count_for(time: f64, preparation: f64, conclusion: f64, executor: f64) -> u64 {
    let mut options = options();
    options.run_bounds = RunBounds { min: 2, max: Some(100) };
    calculate_run_count(
        &options,
        number(time),
        number(preparation),
        number(conclusion),
        number(executor),
        &plus,
        &quotient,
    )
}

#[test]
fn run_count_follows_the_total_time() {
    // The minimum benchmarking time is three seconds
    assert_eq!(run_count_for(0.25, 0.0, 0.0, 0.0), 12);
    assert_eq!(run_count_for(0.25, 0.125, 0.0625, 0.0625), 6);
    assert_eq!(run_count_for(0.5, 0.0, 0.0, 0.0), 6);
    assert_eq!(run_count_for(9.0, 0.0, 0.0, 0.0), 2);
    assert_eq!(run_count_for(0.0, 0.0, 0.0, 0.0), 100);
    assert!(run_count_for(0.3, 0.1, 0.0, 0.0) <= run_count_for(0.2, 0.1, 0.0, 0.0));
}

#[test]
fn total_time_counts_the_executor_for_each_command() {
    let times = |preparation: Option<f64>, conclusion: Option<f64>| InitialTimes {
        run: number(1.0),
        preparation: preparation.map(number),
        conclusion: conclusion.map(number),
    };
    let total = |times: InitialTimes| float(total_time(&times, number(0.125), &plus));
    assert_eq!(total(times(None, None)), 1.125);
    assert_eq!(total(times(Some(0.5), None)), 1.75);
    assert_eq!(total(times(None, Some(0.25))), 1.5);
    assert_eq!(total(times(Some(0.5), Some(0.25))), 2.125);
}

#[test]
fn a_run_counts_by_its_own_times() {
    let mut options = options();
    options.run_bounds = RunBounds { min: 1, max: None };
    options.conclusion_command = Some(vec!["conclude".to_string()]);
    let mut run = Benchmark::new(0, &options).run();
    while let Some(step) = run.next_step() {
        match step {
            Step::TotalTime(_) => run.complete_total(number(0.0), &plus),
            Step::CountRuns => run.complete_count(number(4.5), &quotient),
            _ => assert_eq!(run.complete(success(step)), Ok(())),
        }
    }
    // A run takes one second and its conclusion half a second
    assert_eq!(run.counted_runs(), Some(3));
}

#[test]
fn accumulator_keeps_every_run() {
    let mut accumulator = CommandAccumulator::default();
    assert_eq!(accumulator.run_count(), 0);
    assert!(accumulator.all_succeeded);

    accumulator.add_result(&timing(1.0), Some(0), true);
    assert!(accumulator.all_succeeded);
    accumulator.add_result(&timing(3.0), None, false);
    accumulator.add_result(&timing(2.0), Some(0), true);

    assert_eq!(accumulator.run_count(), 3);
    assert_eq!(floats(&accumulator.times_real), vec![1.0, 3.0, 2.0]);
    assert_eq!(floats(&accumulator.times_user), vec![0.5, 1.5, 1.0]);
    assert_eq!(floats(&accumulator.times_system), vec![0.25, 0.75, 0.5]);
    assert_eq!(accumulator.memory_usage_byte, vec![1024, 1024, 1024]);
    assert_eq!(accumulator.exit_codes, vec![Some(0), None, Some(0)]);
    assert!(!accumulator.all_succeeded);

    let label = CommandLabel {
        name: "cmd".to_string(),
        name_with_unused_parameters: "cmd (x = 1)".to_string(),
        parameters: vec![("x".to_string(), "1".to_string())],
    };
    let result = accumulator.build_result(&label, &mean_of, &stddev_of, &median_of);
    assert_eq!(result.command, "cmd");
    assert_eq!(result.command_with_unused_parameters, "cmd (x = 1)");
    assert_eq!(result.parameters, vec![("x".to_string(), "1".to_string())]);
    assert_eq!(float(result.mean), 2.0);
    assert_eq!(result.stddev.map(float), Some(1.0));
    assert_eq!(float(result.median), 2.0);
    assert_eq!(float(result.user), 1.0);
    assert_eq!(float(result.system), 0.5);
    assert_eq!(float(result.min), 1.0);
    assert_eq!(float(result.max), 3.0);
    assert_eq!(floats(&result.times.unwrap()), vec![1.0, 3.0, 2.0]);
    assert_eq!(result.memory_usage_byte, Some(vec![1024, 1024, 1024]));
    assert_eq!(result.exit_codes, vec![Some(0), None, Some(0)]);
}

#[test]
fn a_single_time_has_no_deviation() {
    let stats = BenchmarkStatistics::from_times(
        &numbers(&[0.25]),
        &numbers(&[0.125]),
        &numbers(&[0.0625]),
        &mean_of,
        &stddev_of,
        &median_of,
    );
    assert_eq!(stats.stddev, None);
    assert_eq!(
        benchmark_summary(&stats, 1),
        Summary::Single {
            time: number(0.25),
            user: number(0.125),
            system: number(0.0625),
        }
    );
}

#[test]
fn several_times_have_a_range() {
    let stats = BenchmarkStatistics::from_times(
        &numbers(&[4.0, 1.0, 1.0]),
        &numbers(&[0.0, 3.0, 0.0]),
        &numbers(&[0.0, 0.0, 6.0]),
        &mean_of,
        &stddev_of,
        &median_of,
    );
    assert_eq!(
        benchmark_summary(&stats, 3),
        Summary::Series {
            mean: number(2.0),
            stddev: number(3f64.sqrt()),
            user: number(1.0),
            system: number(2.0),
            min: number(1.0),
            max: number(4.0),
            runs: 3,
        }
    );
}

#[test]
fn smallest_and_largest_are_picked() {
    let values = numbers(&[2.0, -0.0, 0.0, 7.0, 7.0, 3.0]);
    assert_eq!(min(&values), number(-0.0));
    assert_eq!(max(&values), number(7.0));
    assert_eq!(max(&numbers(&[-0.0, 0.0])), number(0.0));
}

#[test]
fn commands_around_the_benchmark_follow_their_templates() {
    let parameters = vec![("n".to_string(), "3".to_string())];
    let mut options = options();
    assert!(build_preparation_command(&options, 0, &parameters).is_none());
    assert!(build_conclusion_command(&options, 0, &parameters).is_none());
    assert!(build_setup_command(&options, &parameters).is_none());
    assert!(build_cleanup_command(&options, &parameters).is_none());
    assert!(!has_prepare_command(&options));

    options.preparation_command = Some(vec!["all".to_string()]);
    options.conclusion_command = Some(vec!["first".to_string(), "second".to_string()]);
    options.setup_command = Some("setup".to_string());
    options.cleanup_command = Some("cleanup".to_string());
    assert!(has_prepare_command(&options));

    let prepare = build_preparation_command(&options, 5, &parameters).unwrap();
    assert_eq!(prepare.expression, "all");
    assert_eq!(prepare.name, None);
    assert_eq!(prepare.parameters, parameters);
    let conclude = |number: usize| build_conclusion_command(&options, number, &parameters);
    assert_eq!(conclude(0).unwrap().expression, "first");
    assert_eq!(conclude(1).unwrap().expression, "second");
    assert_eq!(build_setup_command(&options, &parameters).unwrap().expression, "setup");
    assert_eq!(build_cleanup_command(&options, &parameters).unwrap().expression, "cleanup");

    options.preparation_command = Some(vec![]);
    assert!(!has_prepare_command(&options));
}

fn warnings(
    times: &[f64],
    all_succeeded: bool,
    kind: ExecutorKind,
    scores: &[f64],
) -> Vec<Warnings> {
    generate_warnings(
        &numbers(times),
        all_succeeded,
        &kind,
        2,
        false,
        &numbers(scores),
        &number(14.826),
    )
}

#[test]
fn unremarkable_runs_bring_no_warning() {
    assert_eq!(warnings(&[1.0, 1.0], true, ExecutorKind::Shell, &[0.0, 14.826]), vec![]);
}

#[test]
fn fast_runs_bring_a_warning_with_a_shell_only() {
    let fast = vec![Warnings::FastExecutionTime];
    let scores = [0.0, 0.0];
    assert_eq!(warnings(&[1.0, 0.0049], true, ExecutorKind::Shell, &scores), fast);
    assert_eq!(warnings(&[1.0, 0.005], true, ExecutorKind::Shell, &scores), vec![]);
    assert_eq!(warnings(&[1.0, 0.0049], true, ExecutorKind::Raw, &scores), vec![]);
    assert_eq!(warnings(&[1.0, 0.0049], true, ExecutorKind::Mock, &scores), vec![]);
}

#[test]
fn a_slow_first_run_is_preferred_to_outliers() {
    let options = OutlierWarningOptions { warmup_in_use: true, prepare_in_use: false };
    assert_eq!(
        warnings(&[9.0, 1.0], false, ExecutorKind::Raw, &[15.0, -20.0]),
        vec![Warnings::NonZeroExitCode, Warnings::SlowInitialRun(number(9.0), options)]
    );
    assert_eq!(
        warnings(&[9.0, 1.0], true, ExecutorKind::Raw, &[-15.0, 0.0]),
        vec![Warnings::OutliersDetected(options)]
    );
    assert_eq!(
        warnings(&[9.0, 1.0], true, ExecutorKind::Raw, &[0.0, -20.0]),
        vec![Warnings::OutliersDetected(options)]
    );
}

#[test]
fn statistics_do_not_depend_on_the_order_of_times() {
    let stats = |times: &[f64]| {
        BenchmarkStatistics::from_times(
            &numbers(times),
            &numbers(&[1.0]),
            &numbers(&[2.0]),
            &mean_of,
            &stddev_of,
            &median_of,
        )
    };
    let sorted = stats(&[1.0, 2.0, 4.0, 9.0]);
    let shuffled = stats(&[9.0, 2.0, 1.0, 4.0]);
    assert_eq!(float(sorted.median), 3.0);
    assert_eq!(sorted.min, shuffled.min);
    assert_eq!(sorted.max, shuffled.max);
    assert_eq!(sorted.median, shuffled.median);
    assert_eq!(float(shuffled.user_mean), 1.0);
    assert_eq!(float(shuffled.system_mean), 2.0);
    assert!(sorted.min.less_than(&sorted.median) && sorted.median.less_than(&sorted.max));
}
