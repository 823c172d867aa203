//! What surrounds the runs of a benchmark.

use crate::benchmark::plan::{for_each, step_if, BenchmarkIteration, Plan, Step};
use vstd::prelude::*;

verus! {

/// The part of a benchmark that a step belongs to: setting up, running or cleaning up.
pub open spec fn stage(step: Step) -> Option<int> {
    match step {
        Step::Setup(_) => Some(0),
        Step::Prepare(_) | Step::Measure { .. } | Step::Conclude(_) => Some(1),
        Step::Cleanup(_) => Some(2),
        _ => None,
    }
}

/// Whether no step belongs to an earlier part than a step before it.
pub open spec fn in_stages(steps: Seq<Step>) -> bool {
    forall|i: int, j: int|
        0 <= i < j < steps.len() ==> (stage(#[trigger] steps[i]) matches Some(a) ==> stage(
            #[trigger] steps[j],
        ) matches Some(b) ==> a <= b)
}

/// Whether the run at position `j` comes right after its preparation command, but for the display
/// of an estimate.
pub open spec fn is_prepared(steps: Seq<Step>, j: int, c: usize) -> bool {
    ||| j >= 1 && steps[j - 1] == Step::Prepare(c)
    ||| j >= 2 && steps[j - 1] == Step::ShowEstimate(c) && steps[j - 2] == Step::Prepare(c)
}

/// Whether the run at position `j` comes right before its conclusion command, but for the progress
/// bar.
pub open spec fn is_concluded(steps: Seq<Step>, j: int, c: usize) -> bool {
    ||| j + 1 < steps.len() && steps[j + 1] == Step::Conclude(c)
    ||| j + 2 < steps.len() && steps[j + 1] == Step::Advance && steps[j + 2] == Step::Conclude(c)
}

/// Whether every run has its preparation and its conclusion, where there are such commands.
pub open spec fn runs_are_framed(plan: Plan, steps: Seq<Step>) -> bool {
    forall|j: int|
        0 <= j < steps.len() ==> (#[trigger] steps[j] matches Step::Measure { command, .. } ==> {
            &&& plan.has_preparation ==> is_prepared(steps, j, command)
            &&& plan.has_conclusion ==> is_concluded(steps, j, command)
        })
}

spec fn only_stage(steps: Seq<Step>, s: int) -> bool {
    forall|k: int|
        0 <= k < steps.len() ==> (stage(#[trigger] steps[k]) matches Some(a) ==> a == s)
}

spec fn from_stage(steps: Seq<Step>, s: int) -> bool {
    forall|k: int|
        0 <= k < steps.len() ==> (stage(#[trigger] steps[k]) matches Some(a) ==> s <= a)
}

proof fn lemma_stages_add(a: Seq<Step>, b: Seq<Step>, s: int)
    requires
        only_stage(a, s),
        in_stages(b),
        from_stage(b, s),
    ensures
        in_stages(a + b),
        from_stage(a + b, s),
{
    let steps = a + b;
    assert forall|i: int, j: int| 0 <= i < j < steps.len() implies (stage(
        #[trigger] steps[i],
    ) matches Some(x) ==> stage(#[trigger] steps[j]) matches Some(y) ==> x <= y) by {
        if i < a.len() {
            assert(steps[i] == a[i]);
        } else {
            assert(steps[i] == b[i - a.len()]);
        }
        if j < a.len() {
            assert(steps[j] == a[j]);
        } else {
            assert(steps[j] == b[j - a.len()]);
        }
    }
}

proof fn lemma_only_adds(a: Seq<Step>, b: Seq<Step>, s: int)
    requires
        only_stage(a, s),
        only_stage(b, s),
    ensures
        only_stage(a + b, s),
{
}

proof fn lemma_frames_add(plan: Plan, a: Seq<Step>, b: Seq<Step>)
    requires
        runs_are_framed(plan, a),
        runs_are_framed(plan, b),
    ensures
        runs_are_framed(plan, a + b),
{
    let steps = a + b;
    assert forall|j: int| 0 <= j < steps.len() implies (
    #[trigger] steps[j] matches Step::Measure { command, .. } ==> {
        &&& plan.has_preparation ==> is_prepared(steps, j, command)
        &&& plan.has_conclusion ==> is_concluded(steps, j, command)
    }) by {
        if j < a.len() {
            assert(steps[j] == a[j]);
        } else {
            assert(steps[j] == b[j - a.len()]);
            if j - a.len() >= 1 {
                assert(steps[j - 1] == b[j - a.len() - 1]);
            }
            if j - a.len() >= 2 {
                assert(steps[j - 2] == b[j - a.len() - 2]);
            }
        }
    }
}

impl Plan {
    proof fn lemma_measured_frame(self, c: usize, iteration: BenchmarkIteration)
        ensures
            runs_are_framed(self, self.measured(c, iteration)),
            only_stage(self.measured(c, iteration), 1),
    {
    }

    proof fn lemma_round_frame(self, round: u64, c: usize)
        ensures
            runs_are_framed(self, self.round_block(round, c)),
            only_stage(self.round_block(round, c), 1),
    {
        if self.interleaved {
            let run = self.measured(c, BenchmarkIteration::Benchmark(round));
            let after = step_if(self.shows_command_bars, Step::ShowEstimate(c)) + step_if(
                self.shows_command_bars,
                Step::AdvanceCommandBar(c),
            );
            self.lemma_measured_frame(c, BenchmarkIteration::Benchmark(round));
            lemma_frames_add(self, run, after);
            lemma_only_adds(run, after, 1);
            assert(self.round_block(round, c) =~= run + after);
        }
    }

    proof fn lemma_summaries_frame(self, n: nat)
        ensures
            runs_are_framed(self, self.summaries(n)),
            only_stage(self.summaries(n), 2),
        decreases n,
    {
        if n > 0 {
            let c = (n - 1) as usize;
            let last = seq![
                Step::Announce(c),
                Step::Summarize(c),
                Step::Warn(c),
                Step::EndSection,
            ];
            self.lemma_summaries_frame((n - 1) as nat);
            lemma_frames_add(self, self.summaries((n - 1) as nat), last);
            lemma_only_adds(self.summaries((n - 1) as nat), last, 2);
        }
    }

    proof fn lemma_finish_frame(self)
        ensures
            runs_are_framed(self, self.finish()),
            only_stage(self.finish(), 2),
    {
        if self.interleaved {
            let first = step_if(self.shows_command_bars, Step::FinishCommandBars) + for_each(
                self.has_cleanup,
                self.commands as nat,
                |c: usize| Step::Cleanup(c),
            );
            let last = if self.shows_output {
                self.summaries(self.commands as nat)
            } else {
                seq![]
            };
            self.lemma_summaries_frame(self.commands as nat);
            lemma_frames_add(self, first, last);
            lemma_only_adds(first, last, 2);
            assert(self.finish() =~= first + last);
        }
    }

    proof fn lemma_initial_frame(self, c: nat)
        ensures
            runs_are_framed(self, self.from_initial(c)),
            only_stage(self.from_initial(c), 1),
        decreases self.commands - c,
    {
        if c < self.commands {
            let run = self.measured(c as usize, BenchmarkIteration::Benchmark(0));
            let total = seq![Step::TotalTime(c as usize)];
            self.lemma_measured_frame(c as usize, BenchmarkIteration::Benchmark(0));
            lemma_frames_add(self, run, total);
            lemma_only_adds(run, total, 1);
            self.lemma_initial_frame(c + 1);
            lemma_frames_add(self, self.initial_block(c as usize), self.from_initial(c + 1));
            lemma_only_adds(self.initial_block(c as usize), self.from_initial(c + 1), 1);
        }
    }

    proof fn lemma_warmup_frame(self, round: nat, c: nat)
        ensures
            runs_are_framed(self, self.from_warmup(round, c)),
            only_stage(self.from_warmup(round, c), 1),
        decreases self.warmup_count - round, self.commands - c,
    {
        if round >= self.warmup_count {
            self.lemma_initial_frame(0);
            lemma_frames_add(self, self.middle(), self.from_initial(0));
            lemma_only_adds(self.middle(), self.from_initial(0), 1);
        } else if c >= self.commands {
            self.lemma_warmup_frame(round + 1, 0);
        } else {
            let run = self.measured(c as usize, BenchmarkIteration::Warmup(round as u64));
            let bar = step_if(self.shows_output, Step::Advance);
            let block = self.warmup_block(round as u64, c as usize);
            self.lemma_measured_frame(c as usize, BenchmarkIteration::Warmup(round as u64));
            lemma_frames_add(self, run, bar);
            lemma_only_adds(run, bar, 1);
            self.lemma_warmup_frame(round, c + 1);
            lemma_frames_add(self, block, self.from_warmup(round, c + 1));
            lemma_only_adds(block, self.from_warmup(round, c + 1), 1);
        }
    }

    proof fn lemma_head_frame(self)
        ensures
            runs_are_framed(self, self.head()),
            only_stage(self.head(), 0),
    {
    }

    proof fn lemma_start_frame(self, count: u64)
        ensures
            runs_are_framed(self, self.start(count)),
            only_stage(self.start(count), 1),
    {
    }

    proof fn lemma_from_round_frame(self, count: u64, round: nat, c: nat)
        ensures
            runs_are_framed(self, self.from_round(count, round, c)),
            in_stages(self.from_round(count, round, c)),
            from_stage(self.from_round(count, round, c), 1),
        decreases count - round, self.commands - c,
    {
        if round >= count {
            self.lemma_finish_frame();
        } else if c >= self.commands {
            self.lemma_from_round_frame(count, round + 1, 0);
            lemma_frames_add(self, self.round_end(), self.from_round(count, round + 1, 0));
            lemma_stages_add(self.round_end(), self.from_round(count, round + 1, 0), 1);
        } else {
            let block = self.round_block(round as u64, c as usize);
            self.lemma_round_frame(round as u64, c as usize);
            self.lemma_from_round_frame(count, round, c + 1);
            lemma_frames_add(self, block, self.from_round(count, round, c + 1));
            lemma_stages_add(block, self.from_round(count, round, c + 1), 1);
        }
    }
}

/// Every setup command comes before every run, and every run before every cleanup command.
pub proof fn setup_comes_first_and_cleanup_last(plan: Plan, count: u64)
    ensures
        in_stages(plan.opening() + plan.closing(count)),
{
    let head = plan.head();
    let runs = plan.from_warmup(0, 0);
    let start = plan.start(count);
    let rounds = plan.from_round(count, 1, 0);
    plan.lemma_head_frame();
    plan.lemma_warmup_frame(0, 0);
    plan.lemma_start_frame(count);
    plan.lemma_from_round_frame(count, 1, 0);
    lemma_concatenated_stages(head, runs, start, rounds);
}

proof fn lemma_concatenated_stages(
    head: Seq<Step>,
    runs: Seq<Step>,
    start: Seq<Step>,
    rounds: Seq<Step>,
)
    requires
        only_stage(head, 0),
        only_stage(runs, 1),
        only_stage(start, 1),
        in_stages(rounds),
        from_stage(rounds, 1),
    ensures
        in_stages((head + runs) + (start + rounds)),
{
    lemma_stages_add(start, rounds, 1);
    lemma_stages_add(runs, start + rounds, 1);
    let rest = runs + (start + rounds);
    assert(from_stage(rest, 0));
    lemma_stages_add(head, rest, 0);
    assert((head + runs) + (start + rounds) =~= head + rest);
}

/// The preparation command is run before each run, warmup runs among them, and the conclusion
/// command after it.
pub proof fn every_run_is_prepared_and_concluded(plan: Plan, count: u64)
    ensures
        runs_are_framed(plan, plan.opening() + plan.closing(count)),
{
    plan.lemma_head_frame();
    plan.lemma_warmup_frame(0, 0);
    plan.lemma_start_frame(count);
    plan.lemma_from_round_frame(count, 1, 0);
    lemma_frames_add(plan, plan.head(), plan.from_warmup(0, 0));
    lemma_frames_add(plan, plan.start(count), plan.from_round(count, 1, 0));
    lemma_frames_add(plan, plan.opening(), plan.closing(count));
}

} // verus!
