//! What happens during a benchmark, step by step.
//!
//! A benchmark opens with setup commands, warmup runs and one timed run of each command. The time
//! that these take decides how many timed runs there are in all. The benchmark closes with the
//! remaining timed runs, the cleanup commands and the summary.

use crate::options::{Options, OutputStyleOption, RunBounds};
use vstd::prelude::*;

verus! {

/// Which run of a command is meant.
#[derive(Debug, Clone, Copy, PartialEq, Eq, Structural)]
pub enum BenchmarkIteration {
    NonBenchmarkRun,
    Warmup(u64),
    Benchmark(u64),
}

/// What a progress bar shows the progress of.
#[derive(Debug, Clone, Copy, PartialEq, Eq, Structural)]
pub enum ProgressTask {
    WarmupRuns,
    InitialMeasurement,
}

impl ProgressTask {
    /// The words for the task.
    pub open spec fn words(self) -> Seq<char> {
        match self {
            ProgressTask::WarmupRuns => "Performing warmup runs"@,
            ProgressTask::InitialMeasurement => "Initial time measurement"@,
        }
    }

    /// The message that the progress bar shows.
    pub fn message(&self) -> (text: &'static str)
        ensures
            text@ == self.words(),
    {
        match self {
            ProgressTask::WarmupRuns => "Performing warmup runs",
            ProgressTask::InitialMeasurement => "Initial time measurement",
        }
    }
}

/// One step of a benchmark. Commands are numbered from zero.
#[derive(Debug, Clone, Copy, PartialEq, Eq, Structural)]
pub enum Step {
    /// Say which commands take turns.
    AnnounceAll,
    /// Say which command comes next.
    Announce(usize),
    /// Run the setup command.
    Setup(usize),
    /// Run the preparation command.
    Prepare(usize),
    /// Run and measure the command itself.
    Measure { command: usize, iteration: BenchmarkIteration },
    /// Run the conclusion command.
    Conclude(usize),
    /// Run the cleanup command.
    Cleanup(usize),
    /// Add up the times of the first timed run and of what was run around it.
    TotalTime(usize),
    /// Tell how many runs fit into the minimum benchmarking time.
    CountRuns,
    /// Write the results so far to the export files.
    Export,
    /// Show a progress bar.
    StartProgress { task: ProgressTask, length: u64 },
    /// Change the length of the progress bar.
    SetProgressLength(u64),
    /// Move the progress bar by one.
    Advance,
    /// Remove the progress bar.
    FinishProgress,
    /// Show one progress bar for each command.
    StartCommandBars { length: u64 },
    /// Show the mean time of a command so far.
    ShowEstimate(usize),
    /// Move the progress bar of a command by one.
    AdvanceCommandBar(usize),
    /// Remove the progress bars of all commands.
    FinishCommandBars,
    /// Print the summary of a command.
    Summarize(usize),
    /// Print the warnings about the runs of a command.
    Warn(usize),
    /// Print an empty line.
    EndSection,
}

/// The facts that decide the steps of a benchmark.
#[derive(Debug, Clone, Copy, PartialEq, Eq, Structural)]
pub struct Plan {
    /// Whether several commands take turns
    pub interleaved: bool,
    /// How many commands there are
    pub commands: usize,
    /// How many warmup runs each command has
    pub warmup_count: u64,
    /// How many timed runs each command has at least and at most
    pub run_bounds: RunBounds,
    /// Whether anything is shown
    pub shows_output: bool,
    /// Whether each command has a progress bar of its own
    pub shows_command_bars: bool,
    pub has_setup: bool,
    pub has_preparation: bool,
    pub has_conclusion: bool,
    pub has_cleanup: bool,
}

/// One step, if it takes place.
pub open spec fn step_if(condition: bool, step: Step) -> Seq<Step> {
    if condition {
        seq![step]
    } else {
        seq![]
    }
}

/// The same step for each of the first `n` commands, if it takes place.
pub open spec fn for_each(condition: bool, n: nat, step: spec_fn(usize) -> Step) -> Seq<Step> {
    if condition {
        Seq::new(n, |c: int| step(c as usize))
    } else {
        seq![]
    }
}

impl Plan {
    /// Whether there is a command, and only one unless commands take turns, and the warmup runs of
    /// all commands can be counted.
    pub open spec fn wf(self) -> bool {
        &&& self.commands > 0
        &&& self.interleaved || self.commands == 1
        &&& self.warmup_count * self.commands <= u64::MAX
    }

    /// A run of a command with the preparation before and the conclusion after it.
    pub open spec fn measured(self, c: usize, iteration: BenchmarkIteration) -> Seq<Step> {
        step_if(self.has_preparation, Step::Prepare(c)) + seq![
            Step::Measure { command: c, iteration },
        ] + step_if(self.has_conclusion, Step::Conclude(c))
    }

    /// What comes before the first run.
    pub open spec fn head(self) -> Seq<Step> {
        step_if(
            self.shows_output,
            if self.interleaved {
                Step::AnnounceAll
            } else {
                Step::Announce(0)
            },
        ) + for_each(self.has_setup, self.commands as nat, |c: usize| Step::Setup(c)) + step_if(
            self.shows_output && self.warmup_count > 0,
            Step::StartProgress {
                task: ProgressTask::WarmupRuns,
                length: (self.warmup_count * self.commands) as u64,
            },
        )
    }

    /// One warmup run.
    pub open spec fn warmup_block(self, round: u64, c: usize) -> Seq<Step> {
        self.measured(c, BenchmarkIteration::Warmup(round)) + step_if(
            self.shows_output,
            Step::Advance,
        )
    }

    /// What comes between the warmup runs and the first timed run.
    pub open spec fn middle(self) -> Seq<Step> {
        step_if(self.shows_output && self.warmup_count > 0, Step::FinishProgress) + step_if(
            self.shows_output && !self.interleaved,
            Step::StartProgress {
                task: ProgressTask::InitialMeasurement,
                length: self.run_bounds.min,
            },
        )
    }

    /// The first timed run of a command.
    pub open spec fn initial_block(self, c: usize) -> Seq<Step> {
        self.measured(c, BenchmarkIteration::Benchmark(0)) + seq![Step::TotalTime(c)]
    }

    /// What follows once the number of timed runs is known.
    pub open spec fn start(self, count: u64) -> Seq<Step> {
        if self.interleaved {
            seq![Step::Export] + step_if(
                self.shows_command_bars,
                Step::StartCommandBars { length: (count - 1) as u64 },
            ) + for_each(
                self.shows_command_bars,
                self.commands as nat,
                |c: usize| Step::ShowEstimate(c),
            )
        } else {
            step_if(self.shows_output, Step::SetProgressLength(count)) + step_if(
                self.shows_output,
                Step::Advance,
            )
        }
    }

    /// A timed run after the first.
    pub open spec fn round_block(self, round: u64, c: usize) -> Seq<Step> {
        let measure = Step::Measure {
            command: c,
            iteration: BenchmarkIteration::Benchmark(round),
        };
        if self.interleaved {
            self.measured(c, BenchmarkIteration::Benchmark(round)) + step_if(
                self.shows_command_bars,
                Step::ShowEstimate(c),
            ) + step_if(self.shows_command_bars, Step::AdvanceCommandBar(c))
        } else {
            step_if(self.has_preparation, Step::Prepare(c)) + step_if(
                self.shows_output,
                Step::ShowEstimate(c),
            ) + seq![measure] + step_if(self.shows_output, Step::Advance) + step_if(
                self.has_conclusion,
                Step::Conclude(c),
            )
        }
    }

    /// What follows when all commands had their turn.
    pub open spec fn round_end(self) -> Seq<Step> {
        step_if(self.interleaved, Step::Export)
    }

    /// The summaries of the first `n` of several commands.
    pub open spec fn summaries(self, n: nat) -> Seq<Step>
        decreases n,
    {
        if n == 0 {
            seq![]
        } else {
            let c = (n - 1) as usize;
            self.summaries((n - 1) as nat) + seq![
                Step::Announce(c),
                Step::Summarize(c),
                Step::Warn(c),
                Step::EndSection,
            ]
        }
    }

    /// What follows the last run.
    pub open spec fn finish(self) -> Seq<Step> {
        if self.interleaved {
            step_if(self.shows_command_bars, Step::FinishCommandBars) + for_each(
                self.has_cleanup,
                self.commands as nat,
                |c: usize| Step::Cleanup(c),
            ) + if self.shows_output {
                self.summaries(self.commands as nat)
            } else {
                seq![]
            }
        } else {
            step_if(self.shows_output, Step::FinishProgress) + step_if(
                self.shows_output,
                Step::Summarize(0),
            ) + seq![Step::Warn(0)] + step_if(self.shows_output, Step::EndSection) + step_if(
                self.has_cleanup,
                Step::Cleanup(0),
            )
        }
    }

    /// The steps from the first timed run of command `c` up to the count of runs.
    pub open spec fn from_initial(self, c: nat) -> Seq<Step>
        decreases self.commands - c,
    {
        if c >= self.commands {
            seq![Step::CountRuns]
        } else {
            self.initial_block(c as usize) + self.from_initial(c + 1)
        }
    }

    /// The steps from a warmup run of command `c` up to the count of runs.
    pub open spec fn from_warmup(self, round: nat, c: nat) -> Seq<Step>
        decreases self.warmup_count - round, self.commands - c,
    {
        if round >= self.warmup_count {
            self.middle() + self.from_initial(0)
        } else if c >= self.commands {
            self.from_warmup(round + 1, 0)
        } else {
            self.warmup_block(round as u64, c as usize) + self.from_warmup(round, c + 1)
        }
    }

    /// The steps from a timed run of command `c` to the end, where each command has `count` of them.
    pub open spec fn from_round(self, count: u64, round: nat, c: nat) -> Seq<Step>
        decreases count - round, self.commands - c,
    {
        if round >= count {
            self.finish()
        } else if c >= self.commands {
            self.round_end() + self.from_round(count, round + 1, 0)
        } else {
            self.round_block(round as u64, c as usize) + self.from_round(count, round, c + 1)
        }
    }

    /// All steps up to the count of runs.
    pub open spec fn opening(self) -> Seq<Step> {
        self.head() + self.from_warmup(0, 0)
    }

    /// All steps after the count of runs.
    pub open spec fn closing(self, count: u64) -> Seq<Step> {
        self.start(count) + self.from_round(count, 1, 0)
    }
}

impl Plan {
    /// The next command has its turn, or the first one in the next round.
    pub(crate) proof fn lemma_next_warmup(self, round: u64, c: usize)
        requires
            round < self.warmup_count,
            c < self.commands,
        ensures
            self.from_warmup(round as nat, c as nat) == self.warmup_block(round, c) + if c + 1
                < self.commands {
                self.from_warmup(round as nat, (c + 1) as nat)
            } else {
                self.from_warmup((round + 1) as nat, 0)
            },
    {
        reveal_with_fuel(Plan::from_warmup, 2);
    }

    /// The next command has its turn, or the round ends and the first one is next.
    pub(crate) proof fn lemma_next_round(self, count: u64, round: u64, c: usize)
        requires
            round < count,
            c < self.commands,
        ensures
            self.from_round(count, round as nat, c as nat) == self.round_block(round, c) + if c + 1
                < self.commands {
                self.from_round(count, round as nat, (c + 1) as nat)
            } else {
                self.round_end() + self.from_round(count, (round + 1) as nat, 0)
            },
    {
        reveal_with_fuel(Plan::from_round, 2);
    }
}

/// The plan for so many commands under the given options.
pub open spec fn plan_for(options: Options, interleaved: bool, commands: usize) -> Plan {
    Plan {
        interleaved,
        commands,
        warmup_count: options.warmup_count,
        run_bounds: options.run_bounds,
        shows_output: options.output_style.shows_output(),
        shows_command_bars: options.output_style.shows_command_bars(),
        has_setup: options.setup_command is Some,
        has_preparation: options.preparation_command is Some,
        has_conclusion: options.conclusion_command is Some,
        has_cleanup: options.cleanup_command is Some,
    }
}

/// A plan keeps what the options ask for: as many warmup runs, the same bounds, and setup,
/// preparation, conclusion and cleanup commands just where they are given. Nothing is shown just
/// where output is disabled, and only the full style, with or without colors, shows a progress bar
/// for each command.
pub proof fn a_plan_follows_its_options(options: Options, interleaved: bool, commands: usize)
    ensures
        ({
            let plan = plan_for(options, interleaved, commands);
            &&& plan.interleaved == interleaved
            &&& plan.commands == commands
            &&& plan.warmup_count == options.warmup_count
            &&& plan.run_bounds.min == options.run_bounds.min
            &&& plan.run_bounds.max == options.run_bounds.max
            &&& plan.shows_output <==> options.output_style != OutputStyleOption::Disabled
            &&& plan.shows_command_bars <==> (options.output_style == OutputStyleOption::Full
                || options.output_style == OutputStyleOption::NoColor)
            &&& plan.has_setup <==> options.setup_command is Some
            &&& plan.has_preparation <==> options.preparation_command is Some
            &&& plan.has_conclusion <==> options.conclusion_command is Some
            &&& plan.has_cleanup <==> options.cleanup_command is Some
        }),
{
}

impl Plan {
    fn with_options(options: &Options, interleaved: bool, commands: usize) -> (plan: Plan)
        ensures
            plan == plan_for(*options, interleaved, commands),
    {
        let shows_output = match options.output_style {
            OutputStyleOption::Disabled => false,
            _ => true,
        };
        let shows_command_bars = match options.output_style {
            OutputStyleOption::Full | OutputStyleOption::NoColor => true,
            _ => false,
        };
        Plan {
            interleaved,
            commands,
            warmup_count: options.warmup_count,
            run_bounds: options.run_bounds,
            shows_output,
            shows_command_bars,
            has_setup: options.setup_command.is_some(),
            has_preparation: options.preparation_command.is_some(),
            has_conclusion: options.conclusion_command.is_some(),
            has_cleanup: options.cleanup_command.is_some(),
        }
    }

    /// The plan for one command by itself.
    pub fn for_one(options: &Options) -> (plan: Plan)
        ensures
            plan == plan_for(*options, false, 1),
            plan.wf(),
    {
        Plan::with_options(options, false, 1)
    }

    /// The plan for several commands that take turns.
    pub fn for_several(options: &Options, commands: usize) -> (plan: Plan)
        requires
            commands > 0,
            options.warmup_count * commands <= u64::MAX,
        ensures
            plan == plan_for(*options, true, commands),
            plan.wf(),
    {
        Plan::with_options(options, true, commands)
    }
}

/// Appends a step, if it takes place.
fn push_if(steps: &mut Vec<Step>, condition: bool, step: Step)
    ensures
        final(steps)@ == old(steps)@ + step_if(condition, step),
{
    if condition {
        steps.push(step);
    }
    assert(steps@ =~= old(steps)@ + step_if(condition, step));
}

impl Plan {
    fn push_measured(&self, steps: &mut Vec<Step>, c: usize, iteration: BenchmarkIteration)
        ensures
            final(steps)@ == old(steps)@ + self.measured(c, iteration),
    {
        push_if(steps, self.has_preparation, Step::Prepare(c));
        steps.push(Step::Measure { command: c, iteration });
        push_if(steps, self.has_conclusion, Step::Conclude(c));
        assert(steps@ =~= old(steps)@ + self.measured(c, iteration));
    }

    /// What comes before the first run.
    pub(crate) fn build_head(&self) -> (steps: Vec<Step>)
        requires
            self.wf(),
        ensures
            steps@ == self.head(),
    {
        let mut steps: Vec<Step> = Vec::new();
        let announcement = if self.interleaved { Step::AnnounceAll } else { Step::Announce(0) };
        push_if(&mut steps, self.shows_output, announcement);
        let ghost before = steps@;
        if self.has_setup {
            let mut c: usize = 0;
            while c < self.commands
                invariant
                    c <= self.commands,
                    steps@ == before + for_each(true, c as nat, |k: usize| Step::Setup(k)),
                decreases self.commands - c,
            {
                steps.push(Step::Setup(c));
                c = c + 1;
                assert(steps@ =~= before + for_each(true, c as nat, |k: usize| Step::Setup(k)));
            }
        }
        let ghost set_up = steps@;
        assert(set_up =~= before + for_each(
            self.has_setup,
            self.commands as nat,
            |k: usize| Step::Setup(k),
        ));
        if self.shows_output && self.warmup_count > 0 {
            let length: u64 = self.warmup_count * self.commands as u64;
            steps.push(Step::StartProgress { task: ProgressTask::WarmupRuns, length });
        }
        assert(steps@ =~= self.head());
        steps
    }

    /// One warmup run.
    pub(crate) fn build_warmup_block(&self, round: u64, c: usize) -> (steps: Vec<Step>)
        ensures
            steps@ == self.warmup_block(round, c),
    {
        let mut steps: Vec<Step> = Vec::new();
        self.push_measured(&mut steps, c, BenchmarkIteration::Warmup(round));
        push_if(&mut steps, self.shows_output, Step::Advance);
        assert(steps@ =~= self.warmup_block(round, c));
        steps
    }

    /// What comes between the warmup runs and the first timed run.
    pub(crate) fn build_middle(&self) -> (steps: Vec<Step>)
        ensures
            steps@ == self.middle(),
    {
        let mut steps: Vec<Step> = Vec::new();
        push_if(
            &mut steps,
            self.shows_output && self.warmup_count > 0,
            Step::FinishProgress,
        );
        push_if(
            &mut steps,
            self.shows_output && !self.interleaved,
            Step::StartProgress {
                task: ProgressTask::InitialMeasurement,
                length: self.run_bounds.min,
            },
        );
        assert(steps@ =~= self.middle());
        steps
    }

    /// The first timed run of a command.
    pub(crate) fn build_initial_block(&self, c: usize) -> (steps: Vec<Step>)
        ensures
            steps@ == self.initial_block(c),
    {
        let mut steps: Vec<Step> = Vec::new();
        self.push_measured(&mut steps, c, BenchmarkIteration::Benchmark(0));
        steps.push(Step::TotalTime(c));
        assert(steps@ =~= self.initial_block(c));
        steps
    }

    /// What follows once the number of timed runs is known.
    pub(crate) fn build_start(&self, count: u64) -> (steps: Vec<Step>)
        requires
            count > 0,
        ensures
            steps@ == self.start(count),
    {
        let mut steps: Vec<Step> = Vec::new();
        if self.interleaved {
            steps.push(Step::Export);
            push_if(
                &mut steps,
                self.shows_command_bars,
                Step::StartCommandBars { length: count - 1 },
            );
            let ghost before = steps@;
            if self.shows_command_bars {
                let mut c: usize = 0;
                while c < self.commands
                    invariant
                        c <= self.commands,
                        steps@ == before + for_each(
                            true,
                            c as nat,
                            |k: usize| Step::ShowEstimate(k),
                        ),
                    decreases self.commands - c,
                {
                    steps.push(Step::ShowEstimate(c));
                    c = c + 1;
                    assert(steps@ =~= before + for_each(
                        true,
                        c as nat,
                        |k: usize| Step::ShowEstimate(k),
                    ));
                }
            }
        } else {
            push_if(&mut steps, self.shows_output, Step::SetProgressLength(count));
            push_if(&mut steps, self.shows_output, Step::Advance);
        }
        assert(steps@ =~= self.start(count));
        steps
    }

    /// A timed run after the first, and what follows it if all commands had their turn.
    pub(crate) fn build_round_block(&self, round: u64, c: usize, is_last: bool) -> (steps: Vec<Step>)
        ensures
            steps@ == self.round_block(round, c) + if is_last {
                self.round_end()
            } else {
                seq![]
            },
    {
        let iteration = BenchmarkIteration::Benchmark(round);
        let mut steps: Vec<Step> = Vec::new();
        if self.interleaved {
            self.push_measured(&mut steps, c, iteration);
            push_if(&mut steps, self.shows_command_bars, Step::ShowEstimate(c));
            push_if(&mut steps, self.shows_command_bars, Step::AdvanceCommandBar(c));
        } else {
            push_if(&mut steps, self.has_preparation, Step::Prepare(c));
            push_if(&mut steps, self.shows_output, Step::ShowEstimate(c));
            steps.push(Step::Measure { command: c, iteration });
            push_if(&mut steps, self.shows_output, Step::Advance);
            push_if(&mut steps, self.has_conclusion, Step::Conclude(c));
        }
        assert(steps@ =~= self.round_block(round, c));
        push_if(&mut steps, is_last && self.interleaved, Step::Export);
        assert(steps@ =~= self.round_block(round, c) + if is_last {
            self.round_end()
        } else {
            seq![]
        });
        steps
    }

    /// What follows the last run.
    pub(crate) fn build_finish(&self) -> (steps: Vec<Step>)
        ensures
            steps@ == self.finish(),
    {
        let mut steps: Vec<Step> = Vec::new();
        if self.interleaved {
            push_if(&mut steps, self.shows_command_bars, Step::FinishCommandBars);
            let ghost before = steps@;
            if self.has_cleanup {
                let mut c: usize = 0;
                while c < self.commands
                    invariant
                        c <= self.commands,
                        steps@ == before + for_each(true, c as nat, |k: usize| Step::Cleanup(k)),
                    decreases self.commands - c,
                {
                    steps.push(Step::Cleanup(c));
                    c = c + 1;
                    assert(steps@ =~= before + for_each(
                        true,
                        c as nat,
                        |k: usize| Step::Cleanup(k),
                    ));
                }
            }
            let ghost cleaned_up = steps@;
            assert(cleaned_up =~= before + for_each(
                self.has_cleanup,
                self.commands as nat,
                |k: usize| Step::Cleanup(k),
            ));
            if self.shows_output {
                let mut c: usize = 0;
                while c < self.commands
                    invariant
                        c <= self.commands,
                        steps@ == cleaned_up + self.summaries(c as nat),
                    decreases self.commands - c,
                {
                    steps.push(Step::Announce(c));
                    steps.push(Step::Summarize(c));
                    steps.push(Step::Warn(c));
                    steps.push(Step::EndSection);
                    c = c + 1;
                    assert(steps@ =~= cleaned_up + self.summaries(c as nat));
                }
            }
        } else {
            push_if(&mut steps, self.shows_output, Step::FinishProgress);
            push_if(&mut steps, self.shows_output, Step::Summarize(0));
            steps.push(Step::Warn(0));
            push_if(&mut steps, self.shows_output, Step::EndSection);
            push_if(&mut steps, self.has_cleanup, Step::Cleanup(0));
        }
        assert(steps@ =~= self.finish());
        steps
    }
}

} // verus!
