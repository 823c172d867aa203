use hyperfine::analysis::bootstrap::PercentilePositions;
use hyperfine::analysis::verdict::EquivalenceZone;
use hyperfine::analysis::{compute_speedup_with_ci, AnalysisResult, Verdict};
use hyperfine::benchmark::accumulator::TimingResult;
use hyperfine::benchmark::plan::{BenchmarkIteration, Plan, Step};
use hyperfine::benchmark::relative_speed::{
    fastest_of, Annotation, Comparator, ComparisonReport, RelativeOrdering, SummaryLine, TableRow,
};
use hyperfine::benchmark::result::BenchmarkResult;
use hyperfine::benchmark::run::{BenchmarkRun, Outcome, RunError};
use hyperfine::benchmark::scheduler::{AnalysisLine, Scheduler, VerdictColor};
use hyperfine::benchmark::session::SessionStep;
use hyperfine::benchmark::{
    build_cleanup_command, build_conclusion_command, build_preparation_command,
    build_setup_command, Benchmark,
};
use hyperfine::command::{Command, CommandLabel};
use hyperfine::number::Real;
use hyperfine::options::{ExecutorKind, Options, OutputStyleOption, RunBounds, SortOrder};
use rand::SeedableRng;
use rand_chacha::ChaCha8Rng;
use statistical::{mean, median, standard_deviation};

fn number(x: f64) -> Real {
    Real::from_bits(x.to_bits())
}

fn float(r: Real) -> f64 {
    f64::from_bits(r.bits)
}

fn floats(samples: &[Real]) -> Vec<f64> {
    samples.iter().map(|r| float(*r)).collect()
}

fn mean_of(samples: &[Real]) -> Real {
    number(mean(&floats(samples)))
}

fn stddev_of(samples: &[Real], around: Real) -> Real {
    number(standard_deviation(&floats(samples), Some(float(around))))
}

fn median_of(samples: &[Real]) -> Real {
    number(median(&floats(samples)))
}

fn log_ratio(cmd: Real, reference: Real) -> Real {
    number(float(cmd).ln() - float(reference).ln())
}

fn exp_neg(x: Real) -> Real {
    number((-float(x)).exp())
}

fn plus(x: Real, y: Real) -> Real {
    number(float(x) + float(y))
}

fn quotient(x: Real, y: Real) -> u64 {
    (float(x) / float(y)) as u64
}

fn positions_of(confidence: Real, resamples: usize) -> PercentilePositions {
    let alpha = 1.0 - float(confidence);
    PercentilePositions {
        lower: ((alpha / 2.0) * resamples as f64).floor() as usize,
        upper: ((1.0 - alpha / 2.0) * resamples as f64).ceil() as usize,
    }
}

fn zone_of(delta: Real) -> EquivalenceZone {
    EquivalenceZone {
        lower: number(1.0 - float(delta)),
        upper: number(1.0 + float(delta)),
    }
}

fn options() -> Options {
    Options {
        run_bounds: RunBounds { min: 10, max: None },
        warmup_count: 0,
        min_benchmarking_time: number(3.0),
        reference_command: None,
        reference_name: None,
        preparation_command: None,
        conclusion_command: None,
        setup_command: None,
        cleanup_command: None,
        output_style: OutputStyleOption::Disabled,
        sort_order_speed_comparison: SortOrder::MeanTime,
        executor_kind: ExecutorKind::Mock,
        interleave: false,
        robust: false,
        seed: None,
        confidence: number(0.95),
        practical_delta: number(0.01),
        resamples: 10000,
    }
}

/// `--runs`
fn with_runs(runs: u64) -> Options {
    let mut options = options();
    options.run_bounds = RunBounds { min: runs, max: Some(runs) };
    options
}

/// `--robust`
fn robust() -> Options {
    let mut options = options();
    options.enable_robust_mode();
    options
}

fn command(line: &str) -> Command {
    Command { name: None, expression: line.to_string(), parameters: vec![] }
}

fn label_of(command: &Command) -> CommandLabel {
    let name = command.name.clone().unwrap_or(command.expression.clone());
    CommandLabel {
        name: name.clone(),
        name_with_unused_parameters: name,
        parameters: command.parameters.clone(),
    }
}

/// Pretends to run a command line: `sleep` takes the time that it says, and `fail` fails.
fn pretend(line: &str) -> Option<TimingResult> {
    let time: f64 = line.strip_prefix("sleep ")?.parse().unwrap();
    Some(TimingResult {
        time_real: number(time),
        time_user: number(0.0),
        time_system: number(0.0),
        memory_usage_byte: 0,
    })
}

/// Pretends to measure a command line: `flaky` fails in the round that it says, and is fast before.
fn measured(line: &str, iteration: BenchmarkIteration) -> Option<TimingResult> {
    match line.strip_prefix("flaky ") {
        Some(round) if iteration == BenchmarkIteration::Benchmark(round.parse().unwrap()) => None,
        Some(_) => pretend("sleep 0.125"),
        None => pretend(line),
    }
}

fn ran(line: &str) -> Outcome {
    match pretend(line) {
        Some(result) => Outcome::Ran(result),
        None => Outcome::Failed,
    }
}

/// Carries out the steps of a run, whose first command has the given number among all commands.
fn drive(
    scheduler: &mut Scheduler,
    run: &mut BenchmarkRun,
    commands: &[Command],
    labels: &Vec<CommandLabel>,
    first: usize,
    exports: &mut Vec<Vec<Vec<f64>>>,
) -> Result<(), RunError> {
    while let Some(step) =
        scheduler.next_step(run, labels, &mean_of, &stddev_of, &median_of)
    {
        let options = &scheduler.options;
        let outcome = match step {
            Step::Setup(c) => {
                ran(&build_setup_command(options, &commands[c].parameters).unwrap().expression)
            }
            Step::Prepare(c) => ran(
                &build_preparation_command(options, first + c, &commands[c].parameters)
                    .unwrap()
                    .expression,
            ),
            Step::Conclude(c) => ran(
                &build_conclusion_command(options, first + c, &commands[c].parameters)
                    .unwrap()
                    .expression,
            ),
            Step::Cleanup(c) => {
                ran(&build_cleanup_command(options, &commands[c].parameters).unwrap().expression)
            }
            Step::Measure { command, iteration } => match measured(
                &commands[command].expression,
                iteration,
            ) {
                Some(result) => Outcome::Measured { result, exit_code: Some(0), success: true },
                None => Outcome::Failed,
            },
            Step::TotalTime(_) => {
                run.complete_total(number(0.0), &plus);
                continue;
            }
            Step::CountRuns => {
                run.complete_count(options.min_benchmarking_time, &quotient);
                continue;
            }
            Step::Export => {
                exports.push(scheduler.results.iter().map(run_times).collect());
                Outcome::Done
            }
            _ => Outcome::Done,
        };
        run.complete(outcome)?;
    }
    Ok(())
}

fn run_all(
    options: Options,
    lines: &[&str],
    exports: &mut Vec<Vec<Vec<f64>>>,
) -> (Scheduler, Result<(), RunError>) {
    assert_eq!(options.executor_kind, ExecutorKind::Mock);
    let mut scheduler = Scheduler::new(options);
    let commands = scheduler.all_commands(lines.iter().map(|line| command(line)).collect());
    let labels: Vec<CommandLabel> = commands.iter().map(label_of).collect();
    let mut finished: Option<BenchmarkRun> = None;
    for step in scheduler.run_benchmarks(&commands) {
        match step {
            SessionStep::Calibrate | SessionStep::Export => {}
            SessionStep::Run { first, plan } => {
                let mut run = if plan.interleaved {
                    BenchmarkRun::new(plan)
                } else {
                    Benchmark::new(first, &scheduler.options).run()
                };
                let own = &commands[first..first + plan.commands];
                let own_labels: Vec<CommandLabel> = own.iter().map(label_of).collect();
                let driven = drive(&mut scheduler, &mut run, own, &own_labels, first, exports);
                if let Err(error) = driven {
                    return (scheduler, Err(error));
                }
                finished = Some(run);
            }
            SessionStep::PushResult(number) => {
                let run = finished.as_ref().unwrap();
                scheduler.push_result(run, &labels[number], &mean_of, &stddev_of, &median_of);
            }
            SessionStep::UpdateResults => {
                let run = finished.as_ref().unwrap();
                scheduler.build_and_update_results(run, &labels, &mean_of, &stddev_of, &median_of);
            }
        }
    }
    (scheduler, Ok(()))
}

fn generate_results(options: Options, lines: &[&str]) -> Vec<BenchmarkResult> {
    let (scheduler, outcome) = run_all(options, lines, &mut vec![]);
    assert_eq!(outcome, Ok(()));
    scheduler.results
}

fn analyse(scheduler: &mut Scheduler) {
    let done =
        scheduler.run_analysis(&positions_of, &zone_of, &log_ratio, &mean_of, &exp_neg);
    assert_eq!(done, Ok(()));
}

fn generate_results_with_analysis(
    options: Options,
    lines: &[&str],
) -> (Vec<BenchmarkResult>, Option<Vec<AnalysisResult>>) {
    let (mut scheduler, outcome) = run_all(options, lines, &mut vec![]);
    assert_eq!(outcome, Ok(()));
    analyse(&mut scheduler);
    (scheduler.results, scheduler.analysis_results)
}

fn run_times(result: &BenchmarkResult) -> Vec<f64> {
    floats(result.times.as_ref().unwrap())
}

fn assert_two_runs_of(result: &BenchmarkResult, command: &str, time: f64) {
    assert_eq!(result.command, command);
    assert_eq!(float(result.mean), time);
    assert_eq!(result.stddev.map(float), Some(0.0));
    assert_eq!(float(result.median), time);
    assert_eq!(float(result.user), 0.0);
    assert_eq!(float(result.system), 0.0);
    assert_eq!(float(result.min), time);
    assert_eq!(float(result.max), time);
    assert_eq!(run_times(result), vec![time, time]);
    assert_eq!(result.memory_usage_byte, Some(vec![0, 0]));
    assert_eq!(result.exit_codes, vec![Some(0), Some(0)]);
}

#[test]
fn scheduler_basic() {
    let results = generate_results(with_runs(2), &["sleep 0.123", "sleep 0.456"]);

    assert_eq!(results.len(), 2);
    assert_two_runs_of(&results[0], "sleep 0.123", 0.123);
    assert_two_runs_of(&results[1], "sleep 0.456", 0.456);
}

#[test]
fn scheduler_interleaved_basic() {
    let mut options = with_runs(2);
    options.interleave = true;
    let results = generate_results(options, &["sleep 0.123", "sleep 0.456"]);

    // Should have 2 commands
    assert_eq!(results.len(), 2);

    // Each should have 2 runs
    assert_eq!(results[0].times.as_ref().unwrap().len(), 2);
    assert_eq!(results[1].times.as_ref().unwrap().len(), 2);

    // Verify timing values
    assert_eq!(results[0].command, "sleep 0.123");
    assert_eq!(results[1].command, "sleep 0.456");
    assert!((float(results[0].mean) - 0.123).abs() < 0.001);
    assert!((float(results[1].mean) - 0.456).abs() < 0.001);
}

#[test]
fn scheduler_interleaved_single_command_falls_back() {
    // Interleave with a single command should fall back to sequential mode
    let mut options = with_runs(2);
    options.interleave = true;
    let results = generate_results(options, &["sleep 0.123"]);

    assert_eq!(results.len(), 1);
}

#[test]
fn scheduler_interleaved_with_warmup() {
    let mut options = with_runs(2);
    options.warmup_count = 1;
    options.interleave = true;
    let results = generate_results(options, &["sleep 0.1", "sleep 0.2"]);

    assert_eq!(results.len(), 2);

    // Should still have 2 timed runs each (warmup doesn't count)
    assert_eq!(results[0].times.as_ref().unwrap().len(), 2);
    assert_eq!(results[1].times.as_ref().unwrap().len(), 2);
}

#[test]
fn scheduler_interleaved_with_prepare() {
    let mut options = with_runs(2);
    options.interleave = true;
    options.preparation_command = Some(vec!["sleep 0.01".to_string()]);
    assert!(
        options.preparation_command.is_some(),
        "preparation_command should be set"
    );
    let results = generate_results(options, &["sleep 0.1", "sleep 0.2"]);

    assert_eq!(results.len(), 2);

    // Should have 2 timed runs each
    assert_eq!(results[0].times.as_ref().unwrap().len(), 2);
    assert_eq!(results[1].times.as_ref().unwrap().len(), 2);
}

#[test]
fn scheduler_interleaved_with_conclude() {
    let mut options = with_runs(2);
    options.interleave = true;
    options.conclusion_command = Some(vec!["sleep 0.01".to_string()]);
    let results = generate_results(options, &["sleep 0.1", "sleep 0.2"]);

    assert_eq!(results.len(), 2);
}

#[test]
fn scheduler_interleaved_with_setup_cleanup() {
    let mut options = with_runs(2);
    options.interleave = true;
    options.setup_command = Some("sleep 0.01".to_string());
    options.cleanup_command = Some("sleep 0.01".to_string());
    let results = generate_results(options, &["sleep 0.1", "sleep 0.2"]);

    assert_eq!(results.len(), 2);
}

#[test]
fn scheduler_interleaved_three_commands() {
    let mut options = with_runs(2);
    options.interleave = true;
    let results = generate_results(options, &["sleep 0.1", "sleep 0.2", "sleep 0.3"]);

    assert_eq!(results.len(), 3);

    // All should have 2 runs
    for result in &results {
        assert_eq!(result.times.as_ref().unwrap().len(), 2);
    }
}

#[test]
fn scheduler_interleaved_single_run() {
    // Test interleaved mode with exactly 1 run (edge case for stddev calculation)
    let mut options = with_runs(1);
    options.interleave = true;
    let results = generate_results(options, &["sleep 0.1", "sleep 0.2"]);

    assert_eq!(results.len(), 2);

    // With only 1 run, stddev should be None
    assert!(results[0].stddev.is_none());
    assert!(results[1].stddev.is_none());

    // Each should have exactly 1 timing
    assert_eq!(results[0].times.as_ref().unwrap().len(), 1);
    assert_eq!(results[1].times.as_ref().unwrap().len(), 1);
}

#[test]
fn scheduler_interleaved_auto_run_count_uses_max_initial_time() {
    let mut options = options();
    options.run_bounds = RunBounds { min: 1, max: Some(10) };
    options.min_benchmarking_time = number(1.0);
    options.interleave = true;
    let results = generate_results(options, &["sleep 0.25", "sleep 0.5"]);

    assert_eq!(results.len(), 2);
    assert_eq!(results[0].times.as_ref().unwrap().len(), 2);
    assert_eq!(results[1].times.as_ref().unwrap().len(), 2);
}

#[test]
fn scheduler_interleaved_with_prepare_and_conclude() {
    // Test with both prepare and conclude commands
    let mut options = with_runs(2);
    options.interleave = true;
    options.preparation_command = Some(vec!["sleep 0.01".to_string()]);
    options.conclusion_command = Some(vec!["sleep 0.01".to_string()]);
    let results = generate_results(options, &["sleep 0.1", "sleep 0.2"]);

    assert_eq!(results.len(), 2);
}

#[test]
fn scheduler_interleaved_with_per_command_prepare() {
    // Test with multiple prepare commands (one per benchmark command)
    let mut options = with_runs(2);
    options.interleave = true;
    options.preparation_command = Some(vec!["sleep 0.01".to_string(), "sleep 0.02".to_string()]);
    let results = generate_results(options, &["sleep 0.1", "sleep 0.2"]);

    assert_eq!(results.len(), 2);
}

#[test]
fn scheduler_analysis_with_interleaved() {
    // Analysis should run with interleaved mode
    let mut options = with_runs(10);
    options.interleave = true;
    options.seed = Some(42);
    let (results, analysis) = generate_results_with_analysis(options, &["sleep 0.1", "sleep 0.2"]);

    assert_eq!(results.len(), 2);
    assert!(analysis.is_some());

    let analysis = analysis.unwrap();
    // Should have one analysis result (comparing second command to first)
    assert_eq!(analysis.len(), 1);

    // Second command is 2x slower, so speedup should be around 0.5
    let speedup = float(analysis[0].speedup);
    assert!(
        speedup > 0.4 && speedup < 0.6,
        "Speedup should be ~0.5, got {}",
        speedup
    );

    // CI should contain the speedup
    assert!(float(analysis[0].ci_lower) <= speedup);
    assert!(float(analysis[0].ci_upper) >= speedup);

    // With such a clear difference, verdict should be "slower"
    assert_eq!(analysis[0].verdict, Verdict::Slower);
}

#[test]
fn scheduler_analysis_without_interleaved() {
    // Analysis should NOT run without interleaved mode
    let (results, analysis) =
        generate_results_with_analysis(with_runs(10), &["sleep 0.1", "sleep 0.2"]);

    assert_eq!(results.len(), 2);
    // Analysis should be None when not using interleaved mode
    assert!(analysis.is_none());
}

#[test]
fn scheduler_analysis_reproducible_with_seed() {
    // Same seed should produce same results
    let seeded = || {
        let mut options = with_runs(10);
        options.interleave = true;
        options.seed = Some(12345);
        options
    };
    let (_, analysis1) = generate_results_with_analysis(seeded(), &["sleep 0.1", "sleep 0.2"]);
    let (_, analysis2) = generate_results_with_analysis(seeded(), &["sleep 0.1", "sleep 0.2"]);

    let a1 = analysis1.unwrap();
    let a2 = analysis2.unwrap();

    assert_eq!(float(a1[0].speedup), float(a2[0].speedup));
    assert_eq!(float(a1[0].ci_lower), float(a2[0].ci_lower));
    assert_eq!(float(a1[0].ci_upper), float(a2[0].ci_upper));
}

#[test]
fn scheduler_analysis_single_command_no_analysis() {
    // Single command should not produce analysis
    let mut options = with_runs(10);
    options.interleave = true;
    let (results, analysis) = generate_results_with_analysis(options, &["sleep 0.1"]);

    assert_eq!(results.len(), 1);
    // With only one command, no analysis possible
    assert!(analysis.is_none());
}

#[test]
fn scheduler_robust_mode_enables_interleave() {
    // --robust should enable interleaved mode and analysis
    let options = robust();
    assert!(options.robust, "robust should be true");
    assert!(
        options.interleave,
        "interleave should be enabled by robust mode"
    );
    assert_eq!(
        options.run_bounds.min, 20,
        "min runs should be 20 in robust mode"
    );
    let results = generate_results(options, &["sleep 0.1", "sleep 0.2"]);

    // Should have 2 commands
    assert_eq!(results.len(), 2);

    // Should have at least 20 runs each (robust mode sets min=20)
    assert!(results[0].times.as_ref().unwrap().len() >= 20);
    assert!(results[1].times.as_ref().unwrap().len() >= 20);
}

#[test]
fn scheduler_robust_mode_with_analysis() {
    // --robust should produce analysis results
    let mut options = robust();
    options.seed = Some(42);
    let (results, analysis) = generate_results_with_analysis(options, &["sleep 0.1", "sleep 0.2"]);

    assert_eq!(results.len(), 2);
    assert!(analysis.is_some(), "robust mode should produce analysis");

    let analysis = analysis.unwrap();
    assert_eq!(analysis.len(), 1);

    // Second command is 2x slower, so speedup should be around 0.5
    let speedup = float(analysis[0].speedup);
    assert!(
        speedup > 0.4 && speedup < 0.6,
        "Speedup should be ~0.5, got {}",
        speedup
    );
}

#[test]
fn scheduler_robust_mode_allows_confidence_override() {
    // --robust with explicit --confidence should use the override
    let mut options = robust();
    options.confidence = number(0.99);
    options.seed = Some(42);
    let (_, analysis) = generate_results_with_analysis(options, &["sleep 0.1", "sleep 0.2"]);

    let analysis = analysis.unwrap();
    // The confidence level should be 0.99, not 0.95
    assert_eq!(float(analysis[0].confidence), 0.99);
}

#[test]
fn reference_command_comes_first() {
    let mut options = with_runs(1);
    options.reference_command = Some("sleep 0.5".to_string());
    options.reference_name = Some("base".to_string());
    let results = generate_results(options, &["sleep 0.1", "sleep 0.2"]);

    let names: Vec<&str> = results.iter().map(|r| r.command.as_str()).collect();
    assert_eq!(names, vec!["base", "sleep 0.1", "sleep 0.2"]);
    assert_eq!(run_times(&results[0]), vec![0.5]);
}

#[test]
fn reference_and_one_command_take_turns() {
    let mut options = with_runs(1);
    options.interleave = true;
    options.reference_command = Some("sleep 0.5".to_string());
    let scheduler = Scheduler::new(options);
    let commands = scheduler.all_commands(vec![command("sleep 0.1")]);
    let plan = Plan::for_several(&scheduler.options, 2);
    assert_eq!(
        scheduler.run_benchmarks(&commands),
        vec![
            SessionStep::Calibrate,
            SessionStep::Run { first: 0, plan },
            SessionStep::UpdateResults,
        ]
    );
}

#[test]
fn results_are_written_after_each_benchmark() {
    let mut options = with_runs(1);
    options.interleave = true;
    let mut scheduler = Scheduler::new(options);
    let plan = Plan::for_one(&scheduler.options);
    let one = vec![
        SessionStep::Calibrate,
        SessionStep::Run { first: 0, plan },
        SessionStep::PushResult(0),
        SessionStep::Export,
    ];
    assert_eq!(scheduler.run_benchmarks(&vec![command("sleep 1")]), one);

    scheduler.options.interleave = false;
    let mut two = one;
    two.push(SessionStep::Run { first: 1, plan });
    two.push(SessionStep::PushResult(1));
    two.push(SessionStep::Export);
    let commands = vec![command("sleep 1"), command("sleep 2")];
    assert_eq!(scheduler.run_benchmarks(&commands), two);
}

#[test]
fn results_of_earlier_benchmarks_outlive_a_failure() {
    let (scheduler, outcome) = run_all(with_runs(2), &["sleep 0.1", "fail"], &mut vec![]);
    assert_eq!(outcome, Err(RunError::Command));
    assert_eq!(scheduler.results.len(), 1);
}

#[test]
fn each_export_holds_the_rounds_so_far() {
    let mut options = with_runs(3);
    options.interleave = true;
    options.warmup_count = 2;
    let mut exports = vec![];
    let (scheduler, outcome) = run_all(options, &["sleep 0.25", "sleep 0.5"], &mut exports);
    assert_eq!(outcome, Ok(()));
    assert_eq!(
        exports,
        vec![
            vec![vec![0.25], vec![0.5]],
            vec![vec![0.25; 2], vec![0.5; 2]],
            vec![vec![0.25; 3], vec![0.5; 3]],
        ]
    );
    let last: Vec<Vec<f64>> = scheduler.results.iter().map(run_times).collect();
    assert_eq!(exports.last(), Some(&last));
}

#[test]
fn results_of_completed_rounds_outlive_a_failure() {
    for round in 0..4 {
        let mut options = with_runs(5);
        options.interleave = true;
        let lines = ["sleep 0.25".to_string(), format!("flaky {}", round)];
        let lines: Vec<&str> = lines.iter().map(|line| line.as_str()).collect();
        let mut exports = vec![];
        let (scheduler, outcome) = run_all(options, &lines, &mut exports);
        assert_eq!(outcome, Err(RunError::Command));
        assert_eq!(exports.len(), round);
        if round == 0 {
            assert!(scheduler.results.is_empty());
        } else {
            let times: Vec<Vec<f64>> = scheduler.results.iter().map(run_times).collect();
            assert_eq!(times, vec![vec![0.25; round], vec![0.125; round]]);
        }
    }
}

#[test]
fn the_slowest_command_gives_two_runs_each() {
    let mut options = options();
    options.run_bounds = RunBounds { min: 1, max: Some(10) };
    options.min_benchmarking_time = number(1.0);
    options.interleave = true;
    let results = generate_results(options, &["sleep 0.25", "sleep 0.5"]);
    assert_eq!(run_times(&results[0]), vec![0.25, 0.25]);
    assert_eq!(run_times(&results[1]), vec![0.5, 0.5]);
}

#[test]
fn preparation_counts_towards_the_time_of_a_run() {
    let mut options = options();
    options.run_bounds = RunBounds { min: 1, max: Some(10) };
    options.min_benchmarking_time = number(1.0);
    options.preparation_command = Some(vec!["sleep 0.25".to_string()]);
    let results = generate_results(options, &["sleep 0.25"]);
    assert_eq!(run_times(&results[0]), vec![0.25, 0.25]);
    assert_eq!(results[0].exit_codes, vec![Some(0), Some(0)]);
}

#[test]
fn analysis_flags_are_noticed() {
    let flags = |change: &dyn Fn(&mut Options)| {
        let mut options = options();
        change(&mut options);
        Scheduler::new(options).has_analysis_flags()
    };
    assert!(!flags(&|_| {}));
    assert!(flags(&|o| o.seed = Some(0)));
    assert!(flags(&|o| o.confidence = number(0.9)));
    assert!(flags(&|o| o.confidence = number(f64::NAN)));
    assert!(flags(&|o| o.practical_delta = number(0.02)));
    assert!(flags(&|o| o.resamples = 9999));
}

#[test]
fn analysis_flags_bring_a_warning_unless_commands_take_turns() {
    let warns = |interleave: bool, style: OutputStyleOption, lines: &[&str]| {
        let mut options = with_runs(1);
        options.seed = Some(1);
        options.interleave = interleave;
        let (mut scheduler, _) = run_all(options, lines, &mut vec![]);
        scheduler.options.output_style = style;
        scheduler.warns_about_analysis_flags()
    };
    let two = ["sleep 0.1", "sleep 0.2"];
    assert!(warns(false, OutputStyleOption::Full, &two));
    assert!(!warns(true, OutputStyleOption::Full, &two));
    assert!(!warns(false, OutputStyleOption::Disabled, &two));
    assert!(!warns(false, OutputStyleOption::Full, &two[..1]));
}

#[test]
fn analysis_needs_the_run_times_of_all_commands() {
    let mut options = with_runs(2);
    options.interleave = true;
    let (mut scheduler, _) = run_all(options, &["sleep 0.1", "sleep 0.2"], &mut vec![]);
    scheduler.results[1].times = None;
    analyse(&mut scheduler);
    assert!(scheduler.analysis_results.is_none());
}

#[test]
fn analysis_leaves_out_commands_without_samples() {
    let mut options = with_runs(2);
    options.interleave = true;
    options.seed = Some(3);
    let lines = ["sleep 0.1", "sleep 0.2", "sleep 0.05"];
    let (mut scheduler, _) = run_all(options, &lines, &mut vec![]);
    scheduler.results[1].times = Some(vec![]);
    analyse(&mut scheduler);
    let analysis = scheduler.analysis_results.unwrap();
    assert_eq!(analysis.len(), 1);
    assert_eq!(analysis[0].command, "sleep 0.05");
    assert_eq!(analysis[0].verdict, Verdict::Faster);
}

#[test]
fn analysis_without_a_seed_compares_all_the_same() {
    let mut options = with_runs(4);
    options.interleave = true;
    let (_, analysis) = generate_results_with_analysis(options, &["sleep 0.5", "sleep 0.25"]);
    let analysis = analysis.unwrap();
    assert_eq!(float(analysis[0].speedup), 2.0);
    assert_eq!(analysis[0].verdict, Verdict::Faster);
}

#[test]
fn seeds_decide_the_interval() {
    let interval = |seed: u64| {
        let mut options = with_runs(2);
        options.interleave = true;
        options.seed = Some(seed);
        options.resamples = 20;
        let (mut scheduler, _) = run_all(options, &["sleep 1", "sleep 2"], &mut vec![]);
        let noisy = |n: usize, step: f64| (0..n).map(|i| number(1.0 + step * i as f64)).collect();
        scheduler.results[0].times = Some(noisy(12, 0.1));
        scheduler.results[1].times = Some(noisy(12, 0.37));
        analyse(&mut scheduler);
        let analysis = scheduler.analysis_results.unwrap();
        (float(analysis[0].ci_lower), float(analysis[0].ci_upper))
    };
    assert_eq!(interval(1), interval(1));
    assert_ne!(interval(1), interval(2));
}

#[test]
fn one_seeded_generator_serves_all_commands() {
    let mut options = with_runs(1);
    options.interleave = true;
    options.seed = Some(2024);
    options.resamples = 40;
    let lines = ["sleep 1", "sleep 2", "sleep 3"];
    let (mut scheduler, _) = run_all(options, &lines, &mut vec![]);
    let times: Vec<Vec<Real>> = vec![
        [1.0, 1.1, 0.9, 1.3].into_iter().map(number).collect(),
        [2.0, 2.3, 1.7, 2.1, 5.0].into_iter().map(number).collect(),
        [0.8, 0.7, 0.95].into_iter().map(number).collect(),
    ];
    for (result, times) in scheduler.results.iter_mut().zip(&times) {
        result.times = Some(times.clone());
    }
    analyse(&mut scheduler);
    let analysis = scheduler.analysis_results.unwrap();
    assert_eq!(analysis.len(), 2);

    let mut rng = ChaCha8Rng::seed_from_u64(2024);
    let positions = positions_of(number(0.95), 40);
    for i in 1..3 {
        let expected = compute_speedup_with_ci(
            &times[i],
            &times[0],
            positions,
            40,
            &log_ratio,
            &mean_of,
            &exp_neg,
            &mut rng,
        );
        let entry = &analysis[i - 1];
        assert_eq!((entry.speedup, entry.ci_lower, entry.ci_upper), expected);
        assert_eq!(entry.command, lines[i]);
    }
}

#[test]
fn analysis_goes_by_the_options() {
    let verdict = |delta: f64, confidence: f64| {
        let mut options = with_runs(4);
        options.interleave = true;
        options.seed = Some(5);
        options.practical_delta = number(delta);
        options.confidence = number(confidence);
        let (_, analysis) = generate_results_with_analysis(options, &["sleep 1", "sleep 1.25"]);
        let analysis = analysis.unwrap();
        (analysis[0].verdict, float(analysis[0].confidence))
    };
    // The speedup is four fifths
    assert_eq!(verdict(0.1, 0.9), (Verdict::Slower, 0.9));
    assert_eq!(verdict(0.3, 0.5), (Verdict::NoClearDifference, 0.5));
}

#[test]
fn analysis_report_colours_the_verdicts() {
    let mut options = with_runs(3);
    options.interleave = true;
    options.seed = Some(3);
    let lines = ["sleep 0.1", "sleep 0.2", "sleep 0.05", "sleep 0.1"];
    let (mut scheduler, _) = run_all(options, &lines, &mut vec![]);
    analyse(&mut scheduler);
    assert!(scheduler.analysis_report().is_none());

    scheduler.options.output_style = OutputStyleOption::Basic;
    let report = scheduler.analysis_report().unwrap();
    assert_eq!(
        report,
        vec![
            AnalysisLine { verdict: Verdict::Slower, color: VerdictColor::Red },
            AnalysisLine { verdict: Verdict::Faster, color: VerdictColor::Green },
            AnalysisLine { verdict: Verdict::NoClearDifference, color: VerdictColor::Yellow },
        ]
    );

    scheduler.analysis_results = Some(vec![]);
    assert!(scheduler.analysis_report().is_none());
}

#[test]
fn the_first_of_the_fastest_commands_is_the_reference() {
    let (mut scheduler, _) = run_all(
        with_runs(1),
        &["sleep 0.3", "sleep 0.1", "sleep 0.1", "sleep 0.2"],
        &mut vec![],
    );
    assert_eq!(fastest_of(&scheduler.results), 1);
    assert_eq!(scheduler.comparison_reference(), None);

    scheduler.options.output_style = OutputStyleOption::Full;
    assert_eq!(scheduler.comparison_reference(), Some(1));

    scheduler.options.reference_command = Some("sleep 0.3".to_string());
    assert_eq!(scheduler.comparison_reference(), Some(0));

    scheduler.results.truncate(1);
    assert_eq!(scheduler.comparison_reference(), None);
}

#[test]
fn comparison_is_reported_in_the_chosen_order() {
    let annotation = |result: usize, is_reference: bool, ordering: RelativeOrdering| Annotation {
        result,
        is_reference,
        relative_ordering: ordering,
        has_stddev: result != 2,
    };
    let annotated = Some(vec![
        annotation(1, false, RelativeOrdering::Less),
        annotation(0, true, RelativeOrdering::Equal),
        annotation(2, false, RelativeOrdering::Greater),
        annotation(3, false, RelativeOrdering::Equal),
    ]);
    let mut scheduler = Scheduler::new(options());
    match scheduler.relative_speed_comparison(&annotated) {
        ComparisonReport::Summary { reference, lines } => {
            let line = |annotation: usize, comparator: Comparator| SummaryLine {
                annotation,
                comparator,
            };
            assert_eq!(reference, 1);
            assert_eq!(
                lines,
                vec![
                    line(0, Comparator::TimesSlowerThan),
                    line(2, Comparator::TimesFasterThan),
                    line(3, Comparator::AsFastAs),
                ]
            );
        }
        _ => panic!("expected a summary"),
    }

    scheduler.options.sort_order_speed_comparison = SortOrder::Command;
    match scheduler.relative_speed_comparison(&annotated) {
        ComparisonReport::Table { rows } => {
            let row = |annotation: usize, shows_stddev: bool| TableRow { annotation, shows_stddev };
            assert_eq!(rows, vec![row(0, true), row(1, false), row(2, false), row(3, true)]);
        }
        _ => panic!("expected a table"),
    }

    assert!(matches!(
        scheduler.relative_speed_comparison(&None),
        ComparisonReport::Unavailable
    ));
}
