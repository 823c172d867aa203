//! The first timed run of each command, which decides how many runs there are.

use crate::benchmark::accumulator::CommandAccumulator;
use crate::benchmark::plan::{for_each, step_if, BenchmarkIteration, Plan, Step};
use crate::benchmark::run::{fits, initial_after, records, InitialTimes, Outcome};
use vstd::prelude::*;

verus! {

/// Whether the step at position `j` is one of a command that is set, and a total time is added up
/// right after the first timed run of its command, with the preparation before that run and the
/// conclusion after it.
pub open spec fn is_framed_total(plan: Plan, steps: Seq<Step>, j: int) -> bool {
    let run = if plan.has_conclusion {
        j - 2
    } else {
        j - 1
    };
    &&& steps[j] is Prepare ==> plan.has_preparation
    &&& steps[j] is Conclude ==> plan.has_conclusion
    &&& steps[j] matches Step::TotalTime(c) ==> {
        &&& run >= 0
        &&& steps[run] == (Step::Measure { command: c, iteration: BenchmarkIteration::Benchmark(0) })
        &&& plan.has_conclusion ==> steps[j - 1] == Step::Conclude(c)
        &&& plan.has_preparation ==> run >= 1 && steps[run - 1] == Step::Prepare(c)
    }
}

/// Whether every step is one of a command that is set, and every total time is added up right after
/// the first timed run of its command.
pub open spec fn totals_are_framed(plan: Plan, steps: Seq<Step>) -> bool {
    forall|j: int| 0 <= j < steps.len() ==> #[trigger] is_framed_total(plan, steps, j)
}

proof fn lemma_framed_totals_add(plan: Plan, a: Seq<Step>, b: Seq<Step>)
    requires
        totals_are_framed(plan, a),
        totals_are_framed(plan, b),
    ensures
        totals_are_framed(plan, a + b),
{
    let steps = a + b;
    assert forall|j: int| 0 <= j < steps.len() implies #[trigger] is_framed_total(
        plan,
        steps,
        j,
    ) by {
        if j < a.len() {
            assert(is_framed_total(plan, a, j));
        } else {
            assert(is_framed_total(plan, b, j - a.len()));
        }
    }
}

/// Whether no step is a total time, and every step is one of a command that is set.
spec fn has_no_total(plan: Plan, steps: Seq<Step>) -> bool {
    forall|j: int|
        0 <= j < steps.len() ==> !(#[trigger] steps[j] is TotalTime) && (steps[j] is Prepare
            ==> plan.has_preparation) && (steps[j] is Conclude ==> plan.has_conclusion)
}

proof fn lemma_framed_without_total(plan: Plan, steps: Seq<Step>)
    requires
        has_no_total(plan, steps),
    ensures
        totals_are_framed(plan, steps),
{
    assert forall|j: int| 0 <= j < steps.len() implies #[trigger] is_framed_total(
        plan,
        steps,
        j,
    ) by {
        assert(!(steps[j] is TotalTime));
    }
}

impl Plan {
    proof fn lemma_initial_totals(self, c: nat)
        ensures
            totals_are_framed(self, self.from_initial(c)),
        decreases self.commands - c,
    {
        if c >= self.commands {
            lemma_framed_without_total(self, self.from_initial(c));
        } else {
            self.lemma_initial_totals(c + 1);
            assert(totals_are_framed(self, self.initial_block(c as usize)));
            lemma_framed_totals_add(
                self,
                self.initial_block(c as usize),
                self.from_initial(c + 1),
            );
        }
    }

    proof fn lemma_warmup_totals(self, round: nat, c: nat)
        ensures
            totals_are_framed(self, self.from_warmup(round, c)),
        decreases self.warmup_count - round, self.commands - c,
    {
        if round >= self.warmup_count {
            self.lemma_initial_totals(0);
            lemma_framed_without_total(self, self.middle());
            lemma_framed_totals_add(self, self.middle(), self.from_initial(0));
        } else if c >= self.commands {
            self.lemma_warmup_totals(round + 1, 0);
        } else {
            let block = self.warmup_block(round as u64, c as usize);
            self.lemma_warmup_totals(round, c + 1);
            lemma_framed_without_total(self, block);
            lemma_framed_totals_add(self, block, self.from_warmup(round, c + 1));
        }
    }

    pub(crate) proof fn lemma_opening_totals(self)
        ensures
            totals_are_framed(self, self.opening()),
    {
        self.lemma_warmup_totals(0, 0);
        lemma_framed_without_total(self, self.head());
        lemma_framed_totals_add(self, self.head(), self.from_warmup(0, 0));
    }

    proof fn lemma_summaries_have_no_total(self, n: nat)
        ensures
            has_no_total(self, self.summaries(n)),
        decreases n,
    {
        if n > 0 {
            self.lemma_summaries_have_no_total((n - 1) as nat);
        }
    }

    proof fn lemma_finish_has_no_total(self)
        ensures
            has_no_total(self, self.finish()),
    {
        self.lemma_summaries_have_no_total(self.commands as nat);
        if self.interleaved {
            let first = step_if(self.shows_command_bars, Step::FinishCommandBars) + for_each(
                self.has_cleanup,
                self.commands as nat,
                |c: usize| Step::Cleanup(c),
            );
            assert(has_no_total(self, first));
            let last = if self.shows_output {
                self.summaries(self.commands as nat)
            } else {
                seq![]
            };
            assert(self.finish() =~= first + last);
        }
    }

    proof fn lemma_round_block_has_no_total(self, round: u64, c: usize)
        ensures
            has_no_total(self, self.round_block(round, c)),
    {
        if self.interleaved {
            let run = self.measured(c, BenchmarkIteration::Benchmark(round));
            assert(has_no_total(self, run));
        }
    }

    proof fn lemma_round_totals(self, count: u64, round: nat, c: nat)
        ensures
            totals_are_framed(self, self.from_round(count, round, c)),
        decreases count - round, self.commands - c,
    {
        if round >= count {
            self.lemma_finish_has_no_total();
            lemma_framed_without_total(self, self.finish());
        } else if c >= self.commands {
            self.lemma_round_totals(count, round + 1, 0);
            lemma_framed_without_total(self, self.round_end());
            lemma_framed_totals_add(
                self,
                self.round_end(),
                self.from_round(count, round + 1, 0),
            );
        } else {
            let block = self.round_block(round as u64, c as usize);
            self.lemma_round_totals(count, round, c + 1);
            self.lemma_round_block_has_no_total(round as u64, c as usize);
            lemma_framed_without_total(self, block);
            lemma_framed_totals_add(self, block, self.from_round(count, round, c + 1));
        }
    }

    pub(crate) proof fn lemma_closing_totals(self, count: u64)
        ensures
            totals_are_framed(self, self.closing(count)),
    {
        self.lemma_round_totals(count, 1, 0);
        lemma_framed_without_total(self, self.start(count));
        lemma_framed_totals_add(self, self.start(count), self.from_round(count, 1, 0));
    }
}

/// The total time of a command is added up right after its first timed run, with the preparation
/// before that run and the conclusion after it, where such commands are set. Those that are not set
/// are not run.
pub proof fn totals_follow_the_first_runs(plan: Plan, count: u64)
    ensures
        totals_are_framed(plan, plan.opening() + plan.closing(count)),
{
    plan.lemma_opening_totals();
    plan.lemma_closing_totals(count);
    lemma_framed_totals_add(plan, plan.opening(), plan.closing(count));
}

spec fn prepares(left: Seq<Step>, i: int) -> bool {
    0 <= i < left.len() && left[i] is Prepare
}

spec fn concludes(left: Seq<Step>, i: int) -> bool {
    0 <= i < left.len() && left[i] is Conclude
}

/// Whether the run at position `i` is the first timed run of command `c`, and the last run before
/// position `j`.
spec fn is_last_run_before(left: Seq<Step>, i: int, j: int, c: usize) -> bool {
    &&& 0 <= i < j <= left.len()
    &&& left[i] == (Step::Measure { command: c, iteration: BenchmarkIteration::Benchmark(0) })
    &&& forall|l: int| i < l < j ==> !(#[trigger] left[l] is Measure)
}

/// Whether the times that the total at position `j` is the sum of are known, or will be by then.
spec fn total_is_due(
    plan: Plan,
    initial: InitialTimes,
    accumulators: Seq<CommandAccumulator>,
    left: Seq<Step>,
    j: int,
    c: usize,
) -> bool {
    let times = accumulators[c as int].times_real@;
    &&& plan.has_preparation ==> initial.preparation is Some || exists|i: int|
        i < j && #[trigger] prepares(left, i)
    &&& plan.has_conclusion ==> initial.conclusion is Some || exists|i: int|
        i < j && #[trigger] concludes(left, i)
    &&& (exists|i: int| #[trigger] is_last_run_before(left, i, j, c)) || {
        &&& times.len() > 0
        &&& initial.run == times.last()
        &&& forall|l: int| 0 <= l < j ==> !(#[trigger] left[l] is Measure)
    }
}

/// Whether the times around the first timed runs fit what was measured and what is left to do.
pub closed spec fn initial_fits(
    plan: Plan,
    initial: InitialTimes,
    accumulators: Seq<CommandAccumulator>,
    left: Seq<Step>,
) -> bool {
    &&& !plan.has_preparation ==> initial.preparation is None
    &&& !plan.has_conclusion ==> initial.conclusion is None
    &&& forall|j: int|
        0 <= j < left.len() ==> {
            &&& #[trigger] left[j] is Prepare ==> plan.has_preparation
            &&& left[j] is Conclude ==> plan.has_conclusion
            &&& left[j] matches Step::TotalTime(c) ==> total_is_due(
                plan,
                initial,
                accumulators,
                left,
                j,
                c,
            )
        }
}

/// Before steps with framed totals, whatever was measured fits.
pub(crate) proof fn lemma_initial_begins(
    plan: Plan,
    initial: InitialTimes,
    accumulators: Seq<CommandAccumulator>,
    left: Seq<Step>,
)
    requires
        totals_are_framed(plan, left),
        !plan.has_preparation ==> initial.preparation is None,
        !plan.has_conclusion ==> initial.conclusion is None,
    ensures
        initial_fits(plan, initial, accumulators, left),
{
    assert forall|j: int| 0 <= j < left.len() implies {
        &&& #[trigger] left[j] is Prepare ==> plan.has_preparation
        &&& left[j] is Conclude ==> plan.has_conclusion
        &&& left[j] matches Step::TotalTime(c) ==> total_is_due(
            plan,
            initial,
            accumulators,
            left,
            j,
            c,
        )
    } by {
        assert(is_framed_total(plan, left, j));
        if let Step::TotalTime(c) = left[j] {
            let run = if plan.has_conclusion {
                j - 2
            } else {
                j - 1
            };
            assert(is_last_run_before(left, run, j, c));
            if plan.has_preparation {
                assert(prepares(left, run - 1));
            }
            if plan.has_conclusion {
                assert(concludes(left, j - 1));
            }
        }
    }
}

/// What fits before a step fits after it.
pub(crate) proof fn lemma_initial_goes_on(
    plan: Plan,
    initial: InitialTimes,
    before: Seq<CommandAccumulator>,
    after: Seq<CommandAccumulator>,
    left: Seq<Step>,
    outcome: Outcome,
)
    requires
        left.len() > 0,
        fits(left[0], outcome, plan.run_bounds),
        !(outcome is Failed),
        records(before, after, left[0], outcome),
        left[0] matches Step::Measure { command, .. } ==> command < before.len(),
        initial_fits(plan, initial, before, left),
    ensures
        initial_fits(plan, initial_after(initial, left[0], outcome), after, left.skip(1)),
{
    let step = left[0];
    let rest = left.skip(1);
    let then = initial_after(initial, step, outcome);
    assert forall|j: int| 0 <= j < rest.len() implies {
        &&& #[trigger] rest[j] is Prepare ==> plan.has_preparation
        &&& rest[j] is Conclude ==> plan.has_conclusion
        &&& rest[j] matches Step::TotalTime(c) ==> total_is_due(plan, then, after, rest, j, c)
    } by {
        assert(rest[j] == left[j + 1]);
        if let Step::TotalTime(c) = rest[j] {
            assert(total_is_due(plan, initial, before, left, j + 1, c));
            if plan.has_preparation && then.preparation is None {
                let i = choose|i: int| i < j + 1 && #[trigger] prepares(left, i);
                assert(prepares(rest, i - 1));
            }
            if plan.has_conclusion && then.conclusion is None {
                let i = choose|i: int| i < j + 1 && #[trigger] concludes(left, i);
                assert(concludes(rest, i - 1));
            }
            if exists|i: int| #[trigger] is_last_run_before(left, i, j + 1, c) {
                let i = choose|i: int| #[trigger] is_last_run_before(left, i, j + 1, c);
                assert forall|l: int| i - 1 < l < j implies !(#[trigger] rest[l] is Measure) by {
                    assert(rest[l] == left[l + 1]);
                }
                if i > 0 {
                    assert(is_last_run_before(rest, i - 1, j, c));
                } else {
                    let runs = after[c as int].runs();
                    assert(runs.last().result.time_real == then.run);
                }
            } else {
                assert(!(left[0] is Measure));
                assert forall|l: int| 0 <= l < j implies !(#[trigger] rest[l] is Measure) by {
                    assert(rest[l] == left[l + 1]);
                }
            }
        }
    }
}

/// When a total is to be added up, the times are those of the command.
pub(crate) proof fn lemma_initial_at_total(
    plan: Plan,
    initial: InitialTimes,
    accumulators: Seq<CommandAccumulator>,
    left: Seq<Step>,
    c: usize,
)
    requires
        left.len() > 0,
        left[0] == Step::TotalTime(c),
        initial_fits(plan, initial, accumulators, left),
    ensures
        initial.preparation is Some <==> plan.has_preparation,
        initial.conclusion is Some <==> plan.has_conclusion,
        accumulators[c as int].times_real@.len() > 0,
        initial.run == accumulators[c as int].times_real@.last(),
{
    assert(total_is_due(plan, initial, accumulators, left, 0, c));
}

/// The times around a first timed run are missing where no such command is set.
pub(crate) proof fn lemma_initial_unset(
    plan: Plan,
    initial: InitialTimes,
    accumulators: Seq<CommandAccumulator>,
    left: Seq<Step>,
)
    requires
        initial_fits(plan, initial, accumulators, left),
    ensures
        !plan.has_preparation ==> initial.preparation is None,
        !plan.has_conclusion ==> initial.conclusion is None,
{
}

} // verus!
