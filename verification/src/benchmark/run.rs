//! Going through the steps of a benchmark.
//!
//! A [`BenchmarkRun`] names one step at a time and is told how the step went. It keeps what was
//! measured and decides what comes next; carrying out the steps is left to its user.

use crate::benchmark::accumulator::{CommandAccumulator, Run, TimingResult};
use crate::benchmark::count::{
    add_times, bounded_run_count, is_sum_of_times, run_count_of, takes_times,
};
use crate::benchmark::initial::{
    initial_fits, lemma_initial_at_total, lemma_initial_begins, lemma_initial_goes_on,
    lemma_initial_unset,
};
use crate::benchmark::plan::{plan_for, BenchmarkIteration, Plan, Step};
use crate::benchmark::rounds::{exports, in_step, lemma_exports_shrink, lemma_in_step_shrinks};
use crate::benchmark::timed::{
    command_of, lemma_timed_adds, lemma_timed_one, opening_times_each_command_once,
    ordinary, timed,
};
use crate::number::{zero, Real, Second};
use crate::options::{Options, RunBounds};
use vstd::prelude::*;

verus! {

/// How a step went.
pub enum Outcome {
    /// What was to be shown, printed or written is done.
    Done,
    /// A setup, preparation, conclusion or cleanup command has succeeded.
    Ran(TimingResult),
    /// The benchmarked command was run and measured.
    Measured { result: TimingResult, exit_code: Option<i32>, success: bool },
    /// The sum of the times around the first timed run.
    Total(Second),
    /// How many runs fit into the minimum benchmarking time.
    Runs(u64),
    /// The step has failed.
    Failed,
}

/// Why a benchmark ended early.
#[derive(Debug, Clone, Copy, PartialEq, Eq, Structural)]
pub enum RunError {
    /// The setup command has failed.
    Setup,
    /// The preparation command has failed.
    Preparation,
    /// The conclusion command has failed.
    Conclusion,
    /// The cleanup command has failed.
    Cleanup,
    /// The benchmarked command has failed, and failures are not ignored.
    Command,
    /// The results could not be written.
    Export,
}

/// The times around the first timed run of a command.
#[derive(Debug, Clone, Copy, PartialEq, Eq, Structural)]
pub struct InitialTimes {
    /// The time of the run itself
    pub run: Second,
    /// The time of the last preparation command, if there was any
    pub preparation: Option<Second>,
    /// The time of the last conclusion command, if there was any
    pub conclusion: Option<Second>,
}

/// The error that the failure of a step is reported as.
pub open spec fn failure_of(step: Step) -> RunError {
    match step {
        Step::Setup(_) => RunError::Setup,
        Step::Prepare(_) => RunError::Preparation,
        Step::Conclude(_) => RunError::Conclusion,
        Step::Cleanup(_) => RunError::Cleanup,
        Step::Measure { .. } => RunError::Command,
        _ => RunError::Export,
    }
}

/// Whether an outcome is one that the step can have. The number of runs has to be positive.
pub open spec fn fits(step: Step, outcome: Outcome, bounds: RunBounds) -> bool {
    match step {
        Step::Setup(_) | Step::Prepare(_) | Step::Conclude(_) | Step::Cleanup(_) => outcome is Ran
            || outcome is Failed,
        Step::Measure { .. } => outcome is Measured || outcome is Failed,
        Step::TotalTime(_) => outcome is Total,
        Step::CountRuns => outcome matches Outcome::Runs(runs) && run_count_of(bounds, runs) > 0,
        Step::Export => outcome is Done || outcome is Failed,
        _ => outcome is Done,
    }
}

/// How far a benchmark has come.
enum Phase {
    Warmup { round: u64, command: usize },
    Initial { command: usize },
    Counting,
    Rounds { round: u64, command: usize },
    Finished,
}

/// The steps that follow those of the current block.
spec fn rest_of(plan: Plan, phase: Phase, count: u64) -> Seq<Step> {
    match phase {
        Phase::Warmup { round, command } => plan.from_warmup(round as nat, command as nat),
        Phase::Initial { command } => plan.from_initial(command as nat),
        Phase::Counting => seq![],
        Phase::Rounds { round, command } => plan.from_round(count, round as nat, command as nat),
        Phase::Finished => seq![],
    }
}

/// Whether a phase names a round and a command that there are.
spec fn phase_wf(plan: Plan, phase: Phase, count: u64) -> bool {
    match phase {
        Phase::Warmup { round, command } => round <= plan.warmup_count && command < plan.commands,
        Phase::Initial { command } => command <= plan.commands,
        Phase::Counting => true,
        Phase::Rounds { round, command } => {
            &&& 1 <= round <= count
            &&& command < plan.commands
            &&& round < count || command == 0
        },
        Phase::Finished => count > 0,
    }
}

/// Whether the benchmark goes on with the block of steps `queue` and then with the given phase.
spec fn goes_on(plan: Plan, phase: Phase, count: u64, queue: Seq<Step>, rest: Seq<Step>) -> bool {
    &&& queue + rest_of(plan, phase, count) == rest
    &&& phase_wf(plan, phase, count)
    &&& if phase is Counting {
        queue == seq![Step::CountRuns]
    } else {
        ordinary(queue, plan.commands as int)
    }
}

/// A benchmark in progress.
pub struct BenchmarkRun {
    plan: Plan,
    phase: Phase,
    queue: Vec<Step>,
    next: usize,
    awaiting: Option<Step>,
    accumulators: Vec<CommandAccumulator>,
    initial: InitialTimes,
    total: Second,
    run_count: u64,
}

impl BenchmarkRun {
    /// The facts that decide the steps.
    pub closed spec fn plan(self) -> Plan {
        self.plan
    }

    /// The step that was named last and whose outcome is not known yet.
    pub closed spec fn awaiting(self) -> Option<Step> {
        self.awaiting
    }

    /// What was measured so far, one accumulator for each command.
    pub closed spec fn accumulators(self) -> Seq<CommandAccumulator> {
        self.accumulators@
    }

    /// The times around the first timed run.
    pub closed spec fn initial(self) -> InitialTimes {
        self.initial
    }

    /// The time that decides the number of runs: of a single command its total time, of several
    /// commands the longest total time.
    pub closed spec fn total(self) -> Second {
        self.total
    }

    /// Whether the number of runs is known.
    pub closed spec fn is_counted(self) -> bool {
        self.phase is Rounds || self.phase is Finished
    }

    /// The number of timed runs of each command, once it is known.
    pub closed spec fn run_count(self) -> u64 {
        self.run_count
    }

    closed spec fn rest(self) -> Seq<Step> {
        rest_of(self.plan, self.phase, self.run_count)
    }

    /// The steps that are yet to be named: those up to the count of runs, or those after it.
    pub closed spec fn remaining(self) -> Seq<Step> {
        self.queue@.skip(self.next as int) + self.rest()
    }

    /// The timed runs of command `c` whose outcome is not known yet.
    pub open spec fn pending(self, c: int) -> nat {
        timed(self.remaining(), c) + match self.awaiting() {
            Some(step) => timed(seq![step], c),
            None => 0,
        }
    }

    /// The step whose outcome is not known yet, and those that are yet to be named.
    pub open spec fn left(self) -> Seq<Step> {
        let awaited = match self.awaiting() {
            Some(step) => seq![step],
            None => seq![],
        };
        awaited + self.remaining()
    }

    /// Whether exports and rounds are in step. Only several commands that take turns export
    /// anything, and only once the runs are counted.
    closed spec fn rounds_wf(self) -> bool {
        if self.plan.interleaved && self.is_counted() {
            forall|c: int|
                0 <= c < self.plan.commands ==> #[trigger] in_step(self.left(), self.run_count, c)
        } else {
            exports(self.left()) == 0
        }
    }

    /// Whether the fields fit together, and every command has been or will be timed as often as it
    /// is due: once before the runs are counted, and as often as the count says in all.
    pub closed spec fn wf(self) -> bool {
        &&& self.plan.wf()
        &&& self.accumulators@.len() == self.plan.commands
        &&& forall|c: int| 0 <= c < self.plan.commands ==> (#[trigger] self.accumulators@[c]).wf()
        &&& self.next <= self.queue@.len()
        &&& phase_wf(self.plan, self.phase, self.run_count)
        &&& self.phase is Counting ==> {
            &&& self.queue@ == seq![Step::CountRuns]
            &&& self.next == 0 || self.awaiting == Some(Step::CountRuns)
        }
        &&& !(self.phase is Counting) ==> ordinary(self.queue@, self.plan.commands as int)
        &&& self.awaiting matches Some(step) ==> {
            &&& step == Step::CountRuns <==> (self.phase is Counting && self.next == 1)
            &&& command_of(step) matches Some(c) ==> c < self.plan.commands
        }
        &&& forall|c: int|
            0 <= c < self.plan.commands ==> (#[trigger] self.accumulators@[c]).runs().len()
                + self.pending(c) == if self.is_counted() {
                self.run_count as nat
            } else {
                1
            }
        &&& self.is_counted() ==> forall|c: int|
            0 <= c < self.plan.commands ==> (#[trigger] self.accumulators@[c]).runs().len() > 0
        &&& self.rounds_wf()
        &&& initial_fits(self.plan, self.initial, self.accumulators@, self.left())
    }

    /// Begins a benchmark.
    pub fn new(plan: Plan) -> (run: BenchmarkRun)
        requires
            plan.wf(),
        ensures
            run.wf(),
            run.plan() == plan,
            run.remaining() == plan.opening(),
            run.awaiting() is None,
            !run.is_counted(),
            run.accumulators().len() == plan.commands,
            forall|c: int|
                0 <= c < plan.commands ==> (#[trigger] run.accumulators()[c]).runs().len() == 0
                    && run.accumulators()[c].all_succeeded,
            run.total().rank() == 0,
            run.initial().preparation is None,
            run.initial().conclusion is None,
    {
        let queue = plan.build_head();
        let mut accumulators: Vec<CommandAccumulator> = Vec::with_capacity(plan.commands);
        let mut c: usize = 0;
        while c < plan.commands
            invariant
                c <= plan.commands,
                accumulators@.len() == c,
                forall|k: int|
                    0 <= k < c ==> (#[trigger] accumulators@[k]).wf()
                        && accumulators@[k].runs().len() == 0 && accumulators@[k].all_succeeded,
            decreases plan.commands - c,
        {
            accumulators.push(CommandAccumulator::new());
            c = c + 1;
        }
        let run = BenchmarkRun {
            plan,
            phase: Phase::Warmup { round: 0, command: 0 },
            queue,
            next: 0,
            awaiting: None,
            accumulators,
            initial: InitialTimes { run: Real::zero(), preparation: None, conclusion: None },
            total: Real::zero(),
            run_count: 0,
        };
        proof {
            assert(run.remaining() =~= plan.opening());
            assert(run.left() =~= plan.opening());
            plan.lemma_opening_exports_nothing();
            plan.lemma_opening_totals();
            lemma_initial_begins(plan, run.initial, run.accumulators@, plan.opening());
            plan.lemma_around(1, 0);
            assert forall|k: int| 0 <= k < plan.commands implies (
            #[trigger] run.accumulators@[k]).runs().len() + run.pending(k) == 1 by {
                opening_times_each_command_once(plan, k);
            }
        }
        run
    }

    /// Puts the next block of steps into an empty queue. Only a benchmark that has come to its
    /// first timed run or to its end may need another block.
    fn refill(&mut self)
        requires
            old(self).wf(),
            old(self).awaiting() is None,
            old(self).next == old(self).queue@.len(),
        ensures
            final(self).wf(),
            final(self).awaiting() is None,
            final(self).remaining() == old(self).remaining(),
            final(self).plan() == old(self).plan(),
            final(self).accumulators() == old(self).accumulators(),
            final(self).initial() == old(self).initial(),
            final(self).total() == old(self).total(),
            final(self).run_count() == old(self).run_count(),
            final(self).is_counted() == old(self).is_counted(),
            final(self).next < final(self).queue@.len() || final(self).phase is Finished || (
            final(self).phase is Initial && old(self).phase is Warmup),
    {
        let ghost before = *self;
        let (queue, phase) = match self.phase {
            Phase::Warmup { round, command } => warmup_block(&self.plan, round, command),
            Phase::Initial { command } => initial_block(&self.plan, command),
            Phase::Rounds { round, command } => {
                round_block(&self.plan, self.run_count, round, command)
            },
            _ => (Vec::new(), Phase::Finished),
        };
        self.queue = queue;
        self.phase = phase;
        self.next = 0;
        proof {
            if before.phase is Finished {
                assert(self.queue@ =~= seq![]);
                assert(self.queue@ + self.rest() =~= before.rest());
            }
            lemma_refilled(before, *self);
        }
    }
}

/// The block of steps for a warmup run, and the phase after it.
fn warmup_block(plan: &Plan, round: u64, command: usize) -> (block: (Vec<Step>, Phase))
    requires
        plan.wf(),
        round <= plan.warmup_count,
        command < plan.commands,
    ensures
        goes_on(
            *plan,
            block.1,
            0,
            block.0@,
            plan.from_warmup(round as nat, command as nat),
        ),
        block.1 is Warmup || block.1 is Initial,
        block.0@.len() > 0 || block.1 is Initial,
{
    if round >= plan.warmup_count {
        let queue = plan.build_middle();
        proof {
            plan.lemma_around(1, 0);
        }
        (queue, Phase::Initial { command: 0 })
    } else {
        let queue = plan.build_warmup_block(round, command);
        proof {
            plan.lemma_next_warmup(round, command);
            plan.lemma_warmup_block(round, command, 0);
        }
        if command + 1 < plan.commands {
            (queue, Phase::Warmup { round, command: command + 1 })
        } else {
            (queue, Phase::Warmup { round: round + 1, command: 0 })
        }
    }
}

/// The block of steps for a first timed run, and the phase after it.
fn initial_block(plan: &Plan, command: usize) -> (block: (Vec<Step>, Phase))
    requires
        plan.wf(),
        command <= plan.commands,
    ensures
        goes_on(*plan, block.1, 0, block.0@, plan.from_initial(command as nat)),
        block.1 is Initial || block.1 is Counting,
        block.0@.len() > 0,
{
    if command >= plan.commands {
        let mut queue: Vec<Step> = Vec::new();
        queue.push(Step::CountRuns);
        assert(queue@ =~= seq![Step::CountRuns]);
        assert(queue@ + rest_of(*plan, Phase::Counting, 0) =~= plan.from_initial(command as nat));
        (queue, Phase::Counting)
    } else {
        let queue = plan.build_initial_block(command);
        proof {
            plan.lemma_initial_block(command, 0);
        }
        (queue, Phase::Initial { command: command + 1 })
    }
}

/// The block of steps for a later timed run, and the phase after it.
fn round_block(plan: &Plan, count: u64, round: u64, command: usize) -> (block: (Vec<Step>, Phase))
    requires
        plan.wf(),
        1 <= round <= count,
        command < plan.commands,
    ensures
        goes_on(
            *plan,
            block.1,
            count,
            block.0@,
            plan.from_round(count, round as nat, command as nat),
        ),
        block.1 is Rounds || block.1 is Finished,
        block.0@.len() > 0 || block.1 is Finished,
{
    if round >= count {
        let queue = plan.build_finish();
        proof {
            plan.lemma_around(1, 0);
        }
        assert(queue@ + rest_of(*plan, Phase::Finished, count) =~= plan.finish());
        (queue, Phase::Finished)
    } else {
        let is_last = command + 1 >= plan.commands;
        let queue = plan.build_round_block(round, command, is_last);
        proof {
            plan.lemma_next_round(count, round, command);
            plan.lemma_round_block(round, command, 0);
            plan.lemma_around(1, 0);
        }
        if is_last {
            let phase = Phase::Rounds { round: round + 1, command: 0 };
            assert(queue@ + rest_of(*plan, phase, count) =~= plan.from_round(
                count,
                round as nat,
                command as nat,
            ));
            (queue, phase)
        } else {
            let phase = Phase::Rounds { round, command: command + 1 };
            assert(queue@ + rest_of(*plan, phase, count) =~= plan.from_round(
                count,
                round as nat,
                command as nat,
            ));
            (queue, phase)
        }
    }
}

/// A queue that was filled with the first of the remaining steps keeps everything in place.
proof fn lemma_refilled(before: BenchmarkRun, after: BenchmarkRun)
    requires
        before.wf(),
        before.awaiting is None,
        before.next == before.queue@.len(),
        after.next == 0,
        goes_on(after.plan, after.phase, after.run_count, after.queue@, before.rest()),
        after.plan == before.plan,
        after.awaiting == before.awaiting,
        after.accumulators == before.accumulators,
        after.initial == before.initial,
        after.run_count == before.run_count,
        after.is_counted() == before.is_counted(),
    ensures
        after.remaining() == before.remaining(),
        after.wf(),
{
    assert(before.queue@.skip(before.next as int) =~= seq![]);
    assert(before.remaining() =~= before.rest());
    assert(after.queue@.skip(0) =~= after.queue@);
    assert(after.left() =~= before.left());
    assert forall|c: int| 0 <= c < after.plan.commands implies (
    #[trigger] after.accumulators@[c]).runs().len() + after.pending(c) == if after.is_counted() {
        after.run_count as nat
    } else {
        1
    } by {
        assert(before.accumulators@[c].runs().len() + before.pending(c) == if before.is_counted() {
            before.run_count as nat
        } else {
            1
        });
    }
}

/// Whether a benchmark has gone on from `before` to `after` by naming the given step, or is over
/// where there is none.
pub open spec fn has_named(before: BenchmarkRun, after: BenchmarkRun, step: Option<Step>) -> bool {
    &&& after.plan() == before.plan()
    &&& after.accumulators() == before.accumulators()
    &&& after.initial() == before.initial()
    &&& after.total() == before.total()
    &&& after.run_count() == before.run_count()
    &&& after.is_counted() == before.is_counted()
    &&& after.awaiting() == step
    &&& match step {
        Some(named) => before.remaining() == seq![named] + after.remaining(),
        None => {
            &&& before.remaining().len() == 0
            &&& after.remaining().len() == 0
            &&& before.is_counted()
            &&& forall|c: int|
                0 <= c < before.plan().commands ==> (
                #[trigger] before.accumulators()[c]).runs().len() == before.run_count()
        },
    }
}

impl BenchmarkRun {
    /// Names the next step, or none where the benchmark is over. Its outcome has to be told before
    /// the step after it is named.
    pub fn next_step(&mut self) -> (step: Option<Step>)
        requires
            old(self).wf(),
            old(self).awaiting() is None,
        ensures
            final(self).wf(),
            has_named(*old(self), *final(self), step),
    {
        if self.next >= self.queue.len() {
            self.refill();
        }
        if self.next >= self.queue.len() {
            self.refill();
        }
        let ghost before = *self;
        if self.next >= self.queue.len() {
            assert(self.remaining() =~= seq![]);
            proof {
                assert forall|c: int| 0 <= c < self.plan.commands implies (
                #[trigger] self.accumulators@[c]).runs().len() == self.run_count by {
                    every_timed_run_is_accounted_for(*self, c);
                }
            }
            return None;
        }
        let step = self.queue[self.next];
        self.next = self.next + 1;
        self.awaiting = Some(step);
        proof {
            lemma_named(before, *self, step);
        }
        Some(step)
    }
}

/// A step that has been named counts as pending until its outcome is known.
proof fn lemma_named(before: BenchmarkRun, after: BenchmarkRun, step: Step)
    requires
        before.wf(),
        before.awaiting is None,
        before.next < before.queue@.len(),
        step == before.queue@[before.next as int],
        after.next == before.next + 1,
        after == (BenchmarkRun { next: after.next, awaiting: Some(step), ..before }),
    ensures
        before.remaining() == seq![step] + after.remaining(),
        after.wf(),
{
    let rest = before.queue@.skip(before.next as int);
    assert(rest =~= seq![step] + after.queue@.skip(after.next as int));
    assert(before.remaining() =~= seq![step] + after.remaining());
    assert(after.left() =~= before.left());
    assert forall|c: int| 0 <= c < after.plan.commands implies (
    #[trigger] after.accumulators@[c]).runs().len() + after.pending(c) == if after.is_counted() {
        after.run_count as nat
    } else {
        1
    } by {
        lemma_timed_adds(seq![step], after.remaining(), c);
        assert(before.accumulators@[c].runs().len() + before.pending(c) == if before.is_counted() {
            before.run_count as nat
        } else {
            1
        });
    }
}

/// The times around the first timed run, after a step went as it did.
pub open spec fn initial_after(initial: InitialTimes, step: Step, outcome: Outcome) -> InitialTimes {
    match (step, outcome) {
        (Step::Prepare(_), Outcome::Ran(result)) => InitialTimes {
            preparation: Some(result.time_real),
            ..initial
        },
        (Step::Conclude(_), Outcome::Ran(result)) => InitialTimes {
            conclusion: Some(result.time_real),
            ..initial
        },
        (
            Step::Measure { iteration: BenchmarkIteration::Benchmark(0), .. },
            Outcome::Measured { result, .. },
        ) => InitialTimes { run: result.time_real, ..initial },
        _ => initial,
    }
}

/// The time that decides the number of runs, after the total time of a command became known.
pub open spec fn total_after(plan: Plan, total: Second, step: Step, outcome: Outcome) -> Second {
    match (step, outcome) {
        (Step::TotalTime(_), Outcome::Total(time)) => if plan.interleaved && !total.lt(time) {
            total
        } else {
            time
        },
        _ => total,
    }
}

/// Whether `after` holds what was measured, given that `before` did so before the step.
pub open spec fn records(
    before: Seq<CommandAccumulator>,
    after: Seq<CommandAccumulator>,
    step: Step,
    outcome: Outcome,
) -> bool {
    match (step, outcome) {
        (
            Step::Measure { command, iteration: BenchmarkIteration::Benchmark(_) },
            Outcome::Measured { result, exit_code, success },
        ) => {
            let c = command as int;
            &&& after == before.update(c, after[c])
            &&& after[c].wf()
            &&& after[c].runs() == before[c].runs().push(Run { result, exit_code })
            &&& after[c].all_succeeded == (before[c].all_succeeded && success)
        },
        _ => after == before,
    }
}

/// The number of runs, after it may have been counted.
pub open spec fn count_after(plan: Plan, count: u64, step: Step, outcome: Outcome) -> u64 {
    match (step, outcome) {
        (Step::CountRuns, Outcome::Runs(runs)) => run_count_of(plan.run_bounds, runs),
        _ => count,
    }
}

/// What is left once the outcome of a step is known is in step with the rounds, and the times around
/// the first timed runs fit it.
proof fn lemma_left_completed(
    before: BenchmarkRun,
    after: BenchmarkRun,
    step: Step,
    outcome: Outcome,
)
    requires
        before.wf(),
        before.awaiting == Some(step),
        fits(step, outcome, before.plan.run_bounds),
        !(outcome is Failed),
        after.awaiting is None,
        after.plan == before.plan,
        records(before.accumulators@, after.accumulators@, step, outcome),
        after.initial == initial_after(before.initial, step, outcome),
        after.run_count == count_after(before.plan, before.run_count, step, outcome),
        if step == Step::CountRuns {
            &&& after.remaining() == after.plan.closing(after.run_count)
            &&& after.is_counted()
        } else {
            &&& after.remaining() == before.remaining()
            &&& after.is_counted() == before.is_counted()
        },
    ensures
        after.rounds_wf(),
        initial_fits(after.plan, after.initial, after.accumulators@, after.left()),
{
    let plan = after.plan;
    let count = after.run_count;
    assert(after.left() =~= after.remaining());
    if step == Step::CountRuns {
        lemma_initial_unset(plan, before.initial, before.accumulators@, before.left());
        plan.lemma_closing_totals(count);
        lemma_initial_begins(plan, after.initial, after.accumulators@, plan.closing(count));
        if plan.interleaved {
            assert forall|c: int| 0 <= c < plan.commands implies #[trigger] in_step(
                after.left(),
                count,
                c,
            ) by {
                plan.lemma_closing_in_step(count, c);
            }
        } else {
            plan.lemma_single_closing_exports_nothing(count);
        }
    } else {
        assert(before.left().skip(1) =~= after.left());
        assert(before.left()[0] == step);
        lemma_exports_shrink(before.left());
        lemma_initial_goes_on(
            plan,
            before.initial,
            before.accumulators@,
            after.accumulators@,
            before.left(),
            outcome,
        );
        assert forall|c: int|
            plan.interleaved && after.is_counted() && 0 <= c < plan.commands implies
            #[trigger] in_step(after.left(), count, c) by {
            assert(in_step(before.left(), count, c));
            lemma_in_step_shrinks(before.left(), count, c);
        }
    }
}

/// What is known once the outcome of a step is.
proof fn lemma_completed(before: BenchmarkRun, after: BenchmarkRun, step: Step, outcome: Outcome)
    requires
        before.wf(),
        before.awaiting == Some(step),
        fits(step, outcome, before.plan.run_bounds),
        !(outcome is Failed),
        after.awaiting is None,
        after.plan == before.plan,
        records(before.accumulators@, after.accumulators@, step, outcome),
        after.initial == initial_after(before.initial, step, outcome),
        after.run_count == count_after(before.plan, before.run_count, step, outcome),
        if step == Step::CountRuns {
            &&& after.queue@ == after.plan.start(after.run_count)
            &&& after.next == 0
            &&& after.phase == Phase::Rounds { round: 1, command: 0 }
        } else {
            &&& after.queue == before.queue
            &&& after.next == before.next
            &&& after.phase == before.phase
        },
    ensures
        after.wf(),
        after.remaining() == if step == Step::CountRuns {
            after.plan.closing(after.run_count)
        } else {
            before.remaining()
        },
{
    let plan = after.plan;
    if step == Step::CountRuns {
        assert(after.queue@.skip(0) =~= after.queue@);
        assert(before.remaining() =~= seq![]);
        plan.lemma_around(after.run_count, 0);
    }
    lemma_left_completed(before, after, step, outcome);
    assert forall|c: int| 0 <= c < plan.commands implies (#[trigger] after.accumulators@[c]).wf()
        && after.accumulators@[c].runs().len() + after.pending(c) == if after.is_counted() {
        after.run_count as nat
    } else {
        1
    } by {
        assert(before.accumulators@[c].wf());
        assert(before.accumulators@[c].runs().len() + before.pending(c) == if before.is_counted() {
            before.run_count as nat
        } else {
            1
        });
        lemma_timed_one(step, c);
        if step == Step::CountRuns {
            plan.lemma_around(after.run_count, c);
            plan.lemma_from_round(after.run_count, 1, 0, c);
            lemma_timed_adds(
                plan.start(after.run_count),
                plan.from_round(after.run_count, 1, 0),
                c,
            );
        }
    }
    assert forall|c: int| after.is_counted() && 0 <= c < plan.commands implies (
    #[trigger] after.accumulators@[c]).runs().len() > 0 by {
        let recorded = before.accumulators@[c].runs().len();
        assert(recorded + before.pending(c) == if before.is_counted() {
            before.run_count as nat
        } else {
            1
        });
        lemma_timed_one(step, c);
    }
}

/// Whether a benchmark has gone on from `before` to `after` with the outcome of the given step.
pub open spec fn has_completed(
    before: BenchmarkRun,
    after: BenchmarkRun,
    step: Step,
    outcome: Outcome,
) -> bool {
    &&& after.awaiting() is None
    &&& after.plan() == before.plan()
    &&& records(before.accumulators(), after.accumulators(), step, outcome)
    &&& after.initial() == initial_after(before.initial(), step, outcome)
    &&& after.total() == total_after(before.plan(), before.total(), step, outcome)
    &&& after.run_count() == count_after(before.plan(), before.run_count(), step, outcome)
    &&& after.is_counted() == (before.is_counted() || step == Step::CountRuns)
    &&& after.remaining() == if step == Step::CountRuns {
        before.plan().closing(after.run_count())
    } else {
        before.remaining()
    }
}

impl BenchmarkRun {
    /// Takes in how the step that was named last went. A failure ends the benchmark.
    pub fn complete(&mut self, outcome: Outcome) -> (done: Result<(), RunError>)
        requires
            old(self).wf(),
            old(self).awaiting() matches Some(step) && fits(
                step,
                outcome,
                old(self).plan().run_bounds,
            ),
        ensures
            outcome is Failed ==> done == Err::<(), RunError>(failure_of(old(self).awaiting()->0))
                && *final(self) == *old(self),
            !(outcome is Failed) ==> done is Ok && final(self).wf() && has_completed(
                *old(self),
                *final(self),
                old(self).awaiting()->0,
                outcome,
            ),
    {
        let ghost before = *self;
        let step = match self.awaiting {
            Some(step) => step,
            None => {
                return Ok(());
            },
        };
        match outcome {
            Outcome::Failed => {
                return Err(failure(step));
            },
            Outcome::Ran(result) => {
                match step {
                    Step::Prepare(_) => {
                        self.initial.preparation = Some(result.time_real);
                    },
                    Step::Conclude(_) => {
                        self.initial.conclusion = Some(result.time_real);
                    },
                    _ => {},
                }
            },
            Outcome::Measured { result, exit_code, success } => {
                match step {
                    Step::Measure { command, iteration: BenchmarkIteration::Benchmark(round) } => {
                        self.accumulators[command].add_result(&result, exit_code, success);
                        if round == 0 {
                            self.initial.run = result.time_real;
                        }
                    },
                    _ => {},
                }
            },
            Outcome::Total(time) => {
                if !self.plan.interleaved || self.total.less_than(&time) {
                    self.total = time;
                }
            },
            Outcome::Runs(runs) => {
                self.run_count = bounded_run_count(&self.plan.run_bounds, runs);
                self.queue = self.plan.build_start(self.run_count);
                self.next = 0;
                self.phase = Phase::Rounds { round: 1, command: 0 };
            },
            Outcome::Done => {},
        }
        self.awaiting = None;
        proof {
            assert(records(before.accumulators@, self.accumulators@, step, outcome));
            lemma_completed(before, *self, step, outcome);
        }
        Ok(())
    }
}

/// Whether `overhead` is what a command around a run adds to the total time: its own time and that
/// of the executor, and nothing where there was no such command.
pub open spec fn is_overhead<A: Fn(Real, Real) -> Real>(
    time: Option<Second>,
    time_overhead: Second,
    plus: A,
    overhead: Second,
) -> bool {
    match time {
        Some(time) => call_ensures(plus, (time, time_overhead), overhead),
        None => overhead == zero(),
    }
}

/// Whether `total` is the sum of the times around a first timed run, the executor taking the given
/// time in addition to each of them.
pub open spec fn is_total_time<A: Fn(Real, Real) -> Real>(
    times: InitialTimes,
    time_overhead: Second,
    plus: A,
    total: Second,
) -> bool {
    exists|preparation: Second, conclusion: Second|
        {
            &&& #[trigger] is_overhead(times.preparation, time_overhead, plus, preparation)
            &&& #[trigger] is_overhead(times.conclusion, time_overhead, plus, conclusion)
            &&& is_sum_of_times(times.run, preparation, conclusion, time_overhead, plus, total)
        }
}

fn overhead_of<A: Fn(Real, Real) -> Real>(
    time: Option<Second>,
    time_overhead: Second,
    plus: &A,
) -> (overhead: Second)
    requires
        takes_times(*plus),
    ensures
        is_overhead(time, time_overhead, *plus, overhead),
{
    match time {
        Some(time) => plus(time, time_overhead),
        None => Real::zero(),
    }
}

/// The sum of the times around a first timed run.
pub fn total_time<A: Fn(Real, Real) -> Real>(
    times: &InitialTimes,
    time_overhead: Second,
    plus: &A,
) -> (total: Second)
    requires
        takes_times(*plus),
    ensures
        is_total_time(*times, time_overhead, *plus, total),
{
    let preparation = overhead_of(times.preparation, time_overhead, plus);
    let conclusion = overhead_of(times.conclusion, time_overhead, plus);
    add_times(times.run, preparation, conclusion, time_overhead, plus)
}

impl BenchmarkRun {
    /// Adds up the times around the first timed run of a command, where that is the step to take.
    pub fn complete_total<A: Fn(Real, Real) -> Real>(&mut self, time_overhead: Second, plus: &A)
        requires
            old(self).wf(),
            old(self).awaiting() matches Some(step) && step is TotalTime,
            takes_times(*plus),
        ensures
            final(self).wf(),
            exists|total: Second|
                {
                    &&& #[trigger] is_total_time(
                        old(self).initial(),
                        time_overhead,
                        *plus,
                        total,
                    )
                    &&& has_completed(
                        *old(self),
                        *final(self),
                        old(self).awaiting()->0,
                        Outcome::Total(total),
                    )
                },
    {
        let total = total_time(&self.initial, time_overhead, plus);
        assert(is_total_time(old(self).initial(), time_overhead, *plus, total));
        let _ = self.complete(Outcome::Total(total));
    }

    /// Counts the runs, where that is the step to take: as many as fit into the minimum benchmarking
    /// time, within the bounds.
    pub fn complete_count<Q: Fn(Real, Real) -> u64>(&mut self, min_time: Second, quotient: &Q)
        requires
            old(self).wf(),
            old(self).awaiting() == Some(Step::CountRuns),
            takes_times(*quotient),
            forall|runs: u64| #[trigger]
                call_ensures(*quotient, (min_time, old(self).total()), runs) ==> run_count_of(
                    old(self).plan().run_bounds,
                    runs,
                ) > 0,
        ensures
            final(self).wf(),
            exists|runs: u64|
                {
                    &&& #[trigger] call_ensures(*quotient, (min_time, old(self).total()), runs)
                    &&& final(self).run_count() == run_count_of(
                        old(self).plan().run_bounds,
                        runs,
                    )
                    &&& has_completed(
                        *old(self),
                        *final(self),
                        Step::CountRuns,
                        Outcome::Runs(runs),
                    )
                },
    {
        let runs: u64 = quotient(min_time, self.total);
        assert(call_ensures(*quotient, (min_time, old(self).total()), runs));
        let _ = self.complete(Outcome::Runs(runs));
    }
}

/// The error that the failure of a step is reported as.
fn failure(step: Step) -> (error: RunError)
    ensures
        error == failure_of(step),
{
    match step {
        Step::Setup(_) => RunError::Setup,
        Step::Prepare(_) => RunError::Preparation,
        Step::Conclude(_) => RunError::Conclusion,
        Step::Cleanup(_) => RunError::Cleanup,
        Step::Measure { .. } => RunError::Command,
        _ => RunError::Export,
    }
}

impl BenchmarkRun {
    /// What was measured of command `c` so far.
    pub fn accumulator(&self, c: usize) -> (accumulator: &CommandAccumulator)
        requires
            self.wf(),
            c < self.plan().commands,
        ensures
            *accumulator == self.accumulators()[c as int],
            accumulator.wf(),
    {
        &self.accumulators[c]
    }

    /// The times that the total time of a command is the sum of.
    pub fn initial_times(&self) -> (times: InitialTimes)
        ensures
            times == self.initial(),
    {
        self.initial
    }

    /// The time that decides how many runs there are.
    pub fn decisive_time(&self) -> (time: Second)
        ensures
            time == self.total(),
    {
        self.total
    }

    /// The number of timed runs of each command, once it is known.
    pub fn counted_runs(&self) -> (count: Option<u64>)
        ensures
            count == if self.is_counted() {
                Some(self.run_count())
            } else {
                None
            },
    {
        match self.phase {
            Phase::Rounds { .. } | Phase::Finished => Some(self.run_count),
            _ => None,
        }
    }
}

/// At any time, the timed runs of a command that are recorded and those that are still to come make
/// up the number that is due: one until the runs are counted, and the counted number from then on.
/// No accumulator is empty once the runs are counted.
pub proof fn every_timed_run_is_accounted_for(run: BenchmarkRun, c: int)
    requires
        run.wf(),
        0 <= c < run.plan().commands,
    ensures
        run.accumulators()[c].runs().len() + run.pending(c) == if run.is_counted() {
            run.run_count() as nat
        } else {
            1
        },
        run.accumulators()[c].wf(),
        run.is_counted() ==> run.accumulators()[c].runs().len() > 0,
{
    assert(run.accumulators@[c].wf());
}

/// A benchmark is of at least one command, there is an accumulator for every command, and the
/// awaited step is about one of them, if it is about any.
pub proof fn run_is_of_a_command(run: BenchmarkRun)
    requires
        run.wf(),
    ensures
        run.plan().wf(),
        run.accumulators().len() == run.plan().commands,
        run.awaiting() matches Some(step) ==> (command_of(step) matches Some(c) ==> c
            < run.plan().commands),
{
}

/// When several commands have taken turns to the end, the samples of any two of them pair up.
pub proof fn samples_pair_up(run: BenchmarkRun, a: int, b: int)
    requires
        run.wf(),
        run.is_counted(),
        run.awaiting() is None,
        run.remaining().len() == 0,
        0 <= a < run.plan().commands,
        0 <= b < run.plan().commands,
    ensures
        run.accumulators()[a].runs().len() == run.run_count(),
        run.accumulators()[a].runs().len() == run.accumulators()[b].runs().len(),
{
    every_timed_run_is_accounted_for(run, a);
    every_timed_run_is_accounted_for(run, b);
}

/// A command that is not set adds no time to the total: the times around the first timed run never
/// hold one for it.
pub proof fn unset_commands_take_no_time(run: BenchmarkRun)
    requires
        run.wf(),
    ensures
        !run.plan().has_preparation ==> run.initial().preparation is None,
        !run.plan().has_conclusion ==> run.initial().conclusion is None,
{
    lemma_initial_unset(run.plan, run.initial, run.accumulators@, run.left());
}

/// When the total time of a command is added up, the times are those around its only timed run so
/// far: that of the run itself, and those of the preparation and of the conclusion just where such
/// commands are set.
pub proof fn total_is_of_the_first_run(run: BenchmarkRun, c: usize)
    requires
        run.wf(),
        !run.is_counted(),
        run.awaiting() == Some(Step::TotalTime(c)),
    ensures
        c < run.plan().commands,
        run.accumulators()[c as int].times_real@ == seq![run.initial().run],
        run.initial().preparation is Some <==> run.plan().has_preparation,
        run.initial().conclusion is Some <==> run.plan().has_conclusion,
{
    assert(run.left()[0] == Step::TotalTime(c));
    lemma_initial_at_total(run.plan, run.initial, run.accumulators@, run.left(), c);
    every_timed_run_is_accounted_for(run, c as int);
    assert(run.accumulators@[c as int].times_real@ =~= seq![run.initial.run]);
}

/// The runs are counted only once, after all the steps up to then.
pub proof fn count_is_taken_once(run: BenchmarkRun)
    requires
        run.wf(),
        run.awaiting() == Some(Step::CountRuns),
    ensures
        !run.is_counted(),
        run.remaining().len() == 0,
{
    assert(run.queue@.skip(1) =~= seq![]);
}

/// What is left of a benchmark is in step with its rounds. Only several commands that take turns
/// export anything, and only once the runs are counted.
pub proof fn left_is_in_step(run: BenchmarkRun, c: int)
    requires
        run.wf(),
        0 <= c < run.plan().commands,
    ensures
        if run.plan().interleaved && run.is_counted() {
            in_step(run.left(), run.run_count(), c)
        } else {
            exports(run.left()) == 0
        },
        run.pending(c) == timed(run.left(), c),
{
    if let Some(step) = run.awaiting() {
        lemma_timed_adds(seq![step], run.remaining(), c);
    } else {
        assert(run.left() =~= run.remaining());
    }
}

/// Where several commands take turns, the time that decides the number of runs is the longest total
/// time so far.
pub proof fn longest_total_decides(plan: Plan, total: Second, command: usize, time: Second)
    requires
        plan.interleaved,
        !total.nan(),
        !time.nan(),
    ensures
        ({
            let after = total_after(plan, total, Step::TotalTime(command), Outcome::Total(time));
            &&& total.le(after)
            &&& time.le(after)
            &&& after == total || after == time
        }),
{
}

/// A failed step is reported by what was run: the setup, preparation, conclusion or cleanup command,
/// or the benchmarked command itself. Of all other steps only an export can fail.
pub proof fn failures_tell_what_was_run(c: usize, iteration: BenchmarkIteration)
    ensures
        failure_of(Step::Setup(c)) == RunError::Setup,
        failure_of(Step::Prepare(c)) == RunError::Preparation,
        failure_of(Step::Conclude(c)) == RunError::Conclusion,
        failure_of(Step::Cleanup(c)) == RunError::Cleanup,
        failure_of(Step::Measure { command: c, iteration }) == RunError::Command,
        failure_of(Step::Export) == RunError::Export,
{
}

/// A step that can fail is one that runs a command or exports results.
pub proof fn only_commands_and_exports_fail(step: Step, bounds: RunBounds)
    ensures
        fits(step, Outcome::Failed, bounds) <==> (step is Setup || step is Prepare
            || step is Measure || step is Conclude || step is Cleanup || step is Export),
{
}

/// Naming a step takes it from what remains and changes nothing else.
pub proof fn a_named_step_was_next(before: BenchmarkRun, after: BenchmarkRun, step: Option<Step>)
    requires
        has_named(before, after, step),
    ensures
        step is Some <==> before.remaining().len() > 0,
        step matches Some(named) ==> {
            &&& named == before.remaining()[0]
            &&& after.remaining() == before.remaining().skip(1)
            &&& after.awaiting() == Some(named)
        },
        step is None ==> before.is_counted() && after.remaining().len() == 0 && after.awaiting()
            is None,
        after.plan() == before.plan(),
        after.accumulators() == before.accumulators(),
        after.initial() == before.initial(),
        after.total() == before.total(),
        after.run_count() == before.run_count(),
        after.is_counted() == before.is_counted(),
{
    if let Some(named) = step {
        assert(after.remaining() =~= before.remaining().skip(1));
    }
}

/// A timed run adds what was measured to the accumulator of its command, and to no other. A first
/// timed run is also remembered as the run whose time counts, and no other run is.
pub proof fn a_timed_run_is_recorded(
    before: BenchmarkRun,
    after: BenchmarkRun,
    command: usize,
    round: u64,
    result: TimingResult,
    exit_code: Option<i32>,
    success: bool,
    other: int,
)
    requires
        has_completed(
            before,
            after,
            Step::Measure { command, iteration: BenchmarkIteration::Benchmark(round) },
            Outcome::Measured { result, exit_code, success },
        ),
        command < before.accumulators().len(),
        0 <= other < before.accumulators().len(),
    ensures
        after.accumulators().len() == before.accumulators().len(),
        after.accumulators()[command as int].runs() == before.accumulators()[command as int].runs().push(
            Run { result, exit_code },
        ),
        after.accumulators()[command as int].all_succeeded <==> (
        before.accumulators()[command as int].all_succeeded && success),
        other != command ==> after.accumulators()[other] == before.accumulators()[other],
        round == 0 ==> after.initial().run == result.time_real,
        round != 0 ==> after.initial().run == before.initial().run,
        after.initial().preparation == before.initial().preparation,
        after.initial().conclusion == before.initial().conclusion,
        after.total() == before.total(),
        after.run_count() == before.run_count(),
        after.remaining() == before.remaining(),
{
}

/// A warmup run leaves no trace but that it is done.
pub proof fn a_warmup_run_is_not_recorded(
    before: BenchmarkRun,
    after: BenchmarkRun,
    command: usize,
    round: u64,
    outcome: Outcome,
)
    requires
        has_completed(
            before,
            after,
            Step::Measure { command, iteration: BenchmarkIteration::Warmup(round) },
            outcome,
        ),
    ensures
        after.accumulators() == before.accumulators(),
        after.initial() == before.initial(),
        after.total() == before.total(),
        after.run_count() == before.run_count(),
        after.is_counted() == before.is_counted(),
        after.remaining() == before.remaining(),
{
}

/// The time of a preparation command is remembered as such, and that of a conclusion command too.
/// Setup and cleanup commands, exports and what is shown change nothing that was measured.
pub proof fn commands_around_runs_are_remembered(
    before: BenchmarkRun,
    after: BenchmarkRun,
    step: Step,
    outcome: Outcome,
)
    requires
        has_completed(before, after, step, outcome),
        !(step is Measure || step is TotalTime || step is CountRuns),
    ensures
        step is Prepare ==> (outcome matches Outcome::Ran(result) ==> after.initial().preparation
            == Some(result.time_real)),
        step is Conclude ==> (outcome matches Outcome::Ran(result) ==> after.initial().conclusion
            == Some(result.time_real)),
        !(step is Prepare) ==> after.initial().preparation == before.initial().preparation,
        !(step is Conclude) ==> after.initial().conclusion == before.initial().conclusion,
        after.initial().run == before.initial().run,
        after.accumulators() == before.accumulators(),
        after.total() == before.total(),
        after.run_count() == before.run_count(),
        after.is_counted() == before.is_counted(),
        after.remaining() == before.remaining(),
{
}

/// The total time of a single command is the time that decides. Of several commands, the longest one
/// decides: a longer time takes the place of a shorter one, and any other is passed over.
pub proof fn a_total_time_decides(
    before: BenchmarkRun,
    after: BenchmarkRun,
    command: usize,
    time: Second,
)
    requires
        has_completed(before, after, Step::TotalTime(command), Outcome::Total(time)),
    ensures
        !before.plan().interleaved ==> after.total() == time,
        before.plan().interleaved && before.total().lt(time) ==> after.total() == time,
        before.plan().interleaved && !before.total().lt(time) ==> after.total() == before.total(),
        after.accumulators() == before.accumulators(),
        after.initial() == before.initial(),
        after.run_count() == before.run_count(),
        after.remaining() == before.remaining(),
{
}

/// Counting the runs settles how many there are, and with it the steps that remain. The number is at
/// least as large as the number that fits into the minimum benchmarking time and as the lower bound,
/// unless the upper bound cuts it off.
pub proof fn counting_settles_the_rest(before: BenchmarkRun, after: BenchmarkRun, runs: u64)
    requires
        has_completed(before, after, Step::CountRuns, Outcome::Runs(runs)),
    ensures
        after.is_counted(),
        after.remaining() == before.plan().closing(after.run_count()),
        after.accumulators() == before.accumulators(),
        after.initial() == before.initial(),
        after.total() == before.total(),
        ({
            let bounds = before.plan().run_bounds;
            let count = after.run_count();
            let uncut = bounds.max is None || count != bounds.max->0;
            &&& count == runs || count == bounds.min || Some(count) == bounds.max
            &&& uncut ==> runs <= count && bounds.min <= count
            &&& bounds.max matches Some(max) ==> count <= max
        }),
{
}

/// The total time adds up the run, the executor, the preparation and the conclusion, in this order.
/// The executor takes its time with the preparation and with the conclusion as well, and a command
/// that is not run takes no time.
pub proof fn total_time_adds_up<A: Fn(Real, Real) -> Real>(
    times: InitialTimes,
    time_overhead: Second,
    plus: A,
    total: Second,
    sum: spec_fn(Real, Real) -> Real,
)
    requires
        is_total_time(times, time_overhead, plus, total),
        forall|x: Real, y: Real, z: Real| #[trigger] call_ensures(plus, (x, y), z) ==> z == sum(x, y),
    ensures
        times.preparation is None && times.conclusion is None ==> total == sum(
            sum(sum(times.run, time_overhead), Real { bits: 0 }),
            Real { bits: 0 },
        ),
        times.preparation matches Some(preparation) ==> times.conclusion is None ==> total == sum(
            sum(sum(times.run, time_overhead), sum(preparation, time_overhead)),
            Real { bits: 0 },
        ),
        times.conclusion matches Some(conclusion) ==> times.preparation is None ==> total == sum(
            sum(sum(times.run, time_overhead), Real { bits: 0 }),
            sum(conclusion, time_overhead),
        ),
        times.preparation matches Some(preparation) ==> (
        times.conclusion matches Some(conclusion) ==> total == sum(
            sum(sum(times.run, time_overhead), sum(preparation, time_overhead)),
            sum(conclusion, time_overhead),
        )),
{
}

/// The benchmark of a single command.
pub struct Benchmark {
    /// The number of the benchmark, starting at zero
    pub number: usize,
    /// What happens during the benchmark
    pub plan: Plan,
}

impl Benchmark {
    /// The benchmark of the command with the given number.
    pub fn new(number: usize, options: &Options) -> (benchmark: Benchmark)
        ensures
            benchmark.number == number,
            benchmark.plan == plan_for(*options, false, 1),
            benchmark.plan.wf(),
    {
        Benchmark { number, plan: Plan::for_one(options) }
    }

    /// Run the benchmark for a single command
    pub fn run(&self) -> (run: BenchmarkRun)
        requires
            self.plan.wf(),
        ensures
            run.wf(),
            run.plan() == self.plan,
            run.remaining() == self.plan.opening(),
            run.awaiting() is None,
            !run.is_counted(),
            run.accumulators().len() == self.plan.commands,
            forall|c: int|
                0 <= c < self.plan.commands ==> (#[trigger] run.accumulators()[c]).runs().len()
                    == 0 && run.accumulators()[c].all_succeeded,
            run.total().rank() == 0,
            run.initial().preparation is None,
            run.initial().conclusion is None,
    {
        BenchmarkRun::new(self.plan)
    }
}

} // verus!
