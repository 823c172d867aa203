//! The settings that decide how benchmarks are run, analysed and reported.

use crate::number::{Real, Second};
use vstd::prelude::*;

verus! {

/// How much is shown on the terminal.
#[derive(Debug, Clone, Copy, PartialEq, Eq, Structural)]
pub enum OutputStyleOption {
    /// Do not output with colors or any special formatting
    Basic,
    /// Output with full color and formatting
    Full,
    /// Keep elements such as progress bar, but use no coloring
    NoColor,
    /// Keep coloring, but use no progress bar
    Color,
    /// Disable all the output
    Disabled,
}

/// What runs the benchmarked commands.
#[derive(Debug, Clone, Copy, PartialEq, Eq, Structural)]
pub enum ExecutorKind {
    /// The operating system, without a shell
    Raw,
    /// A shell
    Shell,
    /// A stand-in that runs nothing
    Mock,
}

/// The order in which compared commands are listed.
#[derive(Debug, Clone, Copy, PartialEq, Eq, Structural)]
pub enum SortOrder {
    Command,
    MeanTime,
}

/// How many times a command is run at least and at most.
#[derive(Debug, Clone, Copy, PartialEq, Eq, Structural)]
pub struct RunBounds {
    pub min: u64,
    pub max: Option<u64>,
}

/// The settings of a benchmark session.
pub struct Options {
    /// Upper and lower bound for the number of benchmark runs
    pub run_bounds: RunBounds,
    /// Number of warmup runs
    pub warmup_count: u64,
    /// Minimum benchmarking time
    pub min_benchmarking_time: Second,
    /// Command that the others are compared with
    pub reference_command: Option<String>,
    /// Name of the reference command
    pub reference_name: Option<String>,
    /// Commands to run before each timing run, one for all benchmarks or one for each
    pub preparation_command: Option<Vec<String>>,
    /// Commands to run after each timing run, one for all benchmarks or one for each
    pub conclusion_command: Option<Vec<String>>,
    /// Command to run before each series of timing runs
    pub setup_command: Option<String>,
    /// Command to run after each series of timing runs
    pub cleanup_command: Option<String>,
    /// What color and formatting to use
    pub output_style: OutputStyleOption,
    /// How to order the commands in the relative speed comparison
    pub sort_order_speed_comparison: SortOrder,
    /// What runs the commands
    pub executor_kind: ExecutorKind,
    /// Whether the commands take turns
    pub interleave: bool,
    /// Whether the settings for robust measurements were asked for
    pub robust: bool,
    /// Seed for the resampling
    pub seed: Option<u64>,
    /// Confidence level of the analysis
    pub confidence: Real,
    /// Threshold of practical significance
    pub practical_delta: Real,
    /// Number of bootstrap resamples
    pub resamples: usize,
}

/// The lower bound for the number of runs in robust mode.
pub const ROBUST_MIN_RUNS: u64 = 20;

impl Options {
    /// The settings with those for robust measurements chosen.
    pub open spec fn in_robust_mode(self) -> Options {
        Options {
            robust: true,
            interleave: true,
            run_bounds: RunBounds { min: ROBUST_MIN_RUNS, max: self.run_bounds.max },
            ..self
        }
    }

    /// Chooses the settings for robust measurements: the commands take turns, and each of them has
    /// more runs. Settings that are given explicitly are applied afterwards.
    pub fn enable_robust_mode(&mut self)
        ensures
            *final(self) == old(self).in_robust_mode(),
            *final(self) == (Options {
                robust: true,
                interleave: true,
                run_bounds: RunBounds { min: ROBUST_MIN_RUNS, max: old(self).run_bounds.max },
                ..*old(self)
            }),
    {
        self.robust = true;
        self.interleave = true;
        self.run_bounds.min = ROBUST_MIN_RUNS;
    }
}

impl OutputStyleOption {
    /// Whether anything is shown at all.
    pub open spec fn shows_output(self) -> bool {
        self != OutputStyleOption::Disabled
    }

    /// Whether each of several interleaved commands has a progress bar of its own.
    pub open spec fn shows_command_bars(self) -> bool {
        self == OutputStyleOption::Full || self == OutputStyleOption::NoColor
    }
}

/// Only the disabled style shows nothing. The full style and the one without colors show a progress
/// bar for each command, and no style does so that shows nothing.
pub proof fn styles_differ_in_what_they_show(style: OutputStyleOption)
    ensures
        style.shows_output() <==> !(style is Disabled),
        style.shows_command_bars() <==> style is Full || style is NoColor,
        style.shows_command_bars() ==> style.shows_output(),
{
}

/// In robust mode commands take turns and are run at least twenty times. All other settings stay as
/// they are, the upper bound among them.
pub proof fn robust_mode_takes_turns_and_more_runs(options: Options)
    ensures
        ({
            let robust = options.in_robust_mode();
            &&& robust.robust
            &&& robust.interleave
            &&& robust.run_bounds.min == 20
            &&& robust.run_bounds.max == options.run_bounds.max
            &&& robust.warmup_count == options.warmup_count
            &&& robust.min_benchmarking_time == options.min_benchmarking_time
            &&& robust.reference_command == options.reference_command
            &&& robust.reference_name == options.reference_name
            &&& robust.preparation_command == options.preparation_command
            &&& robust.conclusion_command == options.conclusion_command
            &&& robust.setup_command == options.setup_command
            &&& robust.cleanup_command == options.cleanup_command
            &&& robust.output_style == options.output_style
            &&& robust.sort_order_speed_comparison == options.sort_order_speed_comparison
            &&& robust.executor_kind == options.executor_kind
            &&& robust.seed == options.seed
            &&& robust.confidence == options.confidence
            &&& robust.practical_delta == options.practical_delta
            &&& robust.resamples == options.resamples
        }),
{
}

} // verus!
