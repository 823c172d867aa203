//! How the exports of a benchmark follow the rounds in which commands take turns.

use crate::benchmark::plan::{for_each, step_if, BenchmarkIteration, Plan, Step};
use crate::benchmark::timed::{lemma_timed_adds, lemma_timed_one, lemma_untimed, timed};
use vstd::prelude::*;

verus! {

/// How many of the steps are exports.
pub open spec fn exports(steps: Seq<Step>) -> nat
    decreases steps.len(),
{
    if steps.len() == 0 {
        0
    } else {
        exports(steps.drop_last()) + if steps.last() == Step::Export {
            1nat
        } else {
            0
        }
    }
}

/// Whether the steps that are left at position `i` are in step with the rounds, as far as command
/// `c` is concerned: it has at most one timed run fewer than there are exports, just as many right
/// after an export, and its runs are numbered by the exports before them.
pub open spec fn in_step_at(steps: Seq<Step>, count: u64, c: int, i: int) -> bool {
    let rest = steps.skip(i);
    &&& timed(rest, c) <= exports(rest) <= timed(rest, c) + 1
    &&& i > 0 && steps[i - 1] == Step::Export ==> timed(rest, c) == exports(rest)
    &&& i < steps.len() ==> (steps[i] matches Step::Measure {
        iteration: BenchmarkIteration::Benchmark(round),
        ..
    } ==> exports(rest) == count - round)
}

/// Whether the steps are in step with the rounds at every position.
pub open spec fn in_step(steps: Seq<Step>, count: u64, c: int) -> bool {
    forall|i: int| 0 <= i <= steps.len() ==> #[trigger] in_step_at(steps, count, c, i)
}

/// Whether there is no export among the steps, and no timed run of another round.
spec fn within_round(steps: Seq<Step>, round: int) -> bool {
    forall|i: int|
        0 <= i < steps.len() ==> (#[trigger] steps[i]) != Step::Export && (
        steps[i] matches Step::Measure {
            iteration: BenchmarkIteration::Benchmark(number),
            ..
        } ==> number == round)
}

proof fn lemma_exports_add(a: Seq<Step>, b: Seq<Step>)
    ensures
        exports(a + b) == exports(a) + exports(b),
    decreases b.len(),
{
    if b.len() == 0 {
        assert(a + b =~= a);
    } else {
        assert((a + b).drop_last() =~= a + b.drop_last());
        lemma_exports_add(a, b.drop_last());
    }
}

proof fn lemma_exports_one(step: Step)
    ensures
        exports(seq![step]) == if step == Step::Export {
            1nat
        } else {
            0
        },
{
    reveal_with_fuel(exports, 2);
    assert(seq![step].drop_last() =~= seq![]);
}

proof fn lemma_no_exports(steps: Seq<Step>)
    requires
        forall|i: int| 0 <= i < steps.len() ==> (#[trigger] steps[i]) != Step::Export,
    ensures
        exports(steps) == 0,
    decreases steps.len(),
{
    if steps.len() > 0 {
        lemma_no_exports(steps.drop_last());
    }
}

/// Taking away the first step takes away one export or none.
pub(crate) proof fn lemma_exports_shrink(steps: Seq<Step>)
    requires
        steps.len() > 0,
    ensures
        exports(steps.skip(1)) <= exports(steps),
        steps[0] == Step::Export ==> exports(steps) == exports(steps.skip(1)) + 1,
        steps[0] != Step::Export ==> exports(steps) == exports(steps.skip(1)),
{
    assert(steps =~= seq![steps[0]] + steps.skip(1));
    lemma_exports_add(seq![steps[0]], steps.skip(1));
    lemma_exports_one(steps[0]);
}

/// What is in step stays so when the first step is taken away.
pub(crate) proof fn lemma_in_step_shrinks(steps: Seq<Step>, count: u64, c: int)
    requires
        steps.len() > 0,
        in_step(steps, count, c),
    ensures
        in_step(steps.skip(1), count, c),
{
    let rest = steps.skip(1);
    assert forall|i: int| 0 <= i <= rest.len() implies #[trigger] in_step_at(rest, count, c, i) by {
        assert(in_step_at(steps, count, c, i + 1));
        assert(rest.skip(i) =~= steps.skip(i + 1));
    }
}

/// A step put in front of steps that are in step.
proof fn lemma_in_step_grows(step: Step, rest: Seq<Step>, count: u64, c: int)
    requires
        in_step(rest, count, c),
        ({
            let steps = seq![step] + rest;
            &&& timed(steps, c) <= exports(steps) <= timed(steps, c) + 1
            &&& step == Step::Export ==> timed(rest, c) == exports(rest)
            &&& step matches Step::Measure {
                iteration: BenchmarkIteration::Benchmark(round),
                ..
            } ==> exports(steps) == count - round
        }),
    ensures
        in_step(seq![step] + rest, count, c),
{
    let steps = seq![step] + rest;
    assert forall|i: int| 0 <= i <= steps.len() implies #[trigger] in_step_at(steps, count, c, i) by {
        if i == 0 {
            assert(steps.skip(0) =~= steps);
        } else {
            assert(in_step_at(rest, count, c, i - 1));
            assert(steps.skip(i) =~= rest.skip(i - 1));
            assert(rest.skip(0) =~= rest);
            if i > 1 {
                assert(steps[i - 1] == rest[i - 2]);
            }
            if i < steps.len() {
                assert(steps[i] == rest[i - 1]);
            }
        }
    }
}

/// A block of steps within a round put in front of steps that are in step.
proof fn lemma_block_in_step(block: Seq<Step>, rest: Seq<Step>, count: u64, round: int, c: int)
    requires
        within_round(block, round),
        in_step(rest, count, c),
        timed(block, c) + timed(rest, c) <= exports(rest) <= timed(rest, c) + 1,
        (exists|i: int| 0 <= i < block.len() && #[trigger] block[i] is Measure) ==> exports(rest)
            == count - round,
    ensures
        in_step(block + rest, count, c),
        exports(block + rest) == exports(rest),
        timed(block + rest, c) == timed(block, c) + timed(rest, c),
    decreases block.len(),
{
    lemma_no_exports(block);
    lemma_exports_add(block, rest);
    lemma_timed_adds(block, rest, c);
    if block.len() == 0 {
        assert(block + rest =~= rest);
    } else {
        let first = block[0];
        let later = block.skip(1);
        assert(block =~= seq![first] + later);
        lemma_timed_adds(seq![first], later, c);
        if exists|i: int| 0 <= i < later.len() && #[trigger] later[i] is Measure {
            let i = choose|i: int| 0 <= i < later.len() && #[trigger] later[i] is Measure;
            assert(block[i + 1] is Measure);
        }
        assert(within_round(later, round)) by {
            assert forall|i: int| 0 <= i < later.len() implies (#[trigger] later[i])
                != Step::Export && (later[i] matches Step::Measure {
                iteration: BenchmarkIteration::Benchmark(number),
                ..
            } ==> number == round) by {
                assert(later[i] == block[i + 1]);
            }
        }
        lemma_block_in_step(later, rest, count, round, c);
        assert(block + rest =~= seq![first] + (later + rest));
        lemma_in_step_grows(first, later + rest, count, c);
    }
}

impl Plan {
    proof fn lemma_summaries_export_nothing(self, n: nat)
        ensures
            within_round(self.summaries(n), 0),
            forall|i: int|
                0 <= i < self.summaries(n).len() ==> !(#[trigger] self.summaries(n)[i] is Measure),
        decreases n,
    {
        if n > 0 {
            self.lemma_summaries_export_nothing((n - 1) as nat);
        }
    }

    proof fn lemma_finish_exports_nothing(self)
        ensures
            within_round(self.finish(), 0),
            forall|i: int|
                0 <= i < self.finish().len() ==> !(#[trigger] self.finish()[i] is Measure),
    {
        self.lemma_summaries_export_nothing(self.commands as nat);
        if self.interleaved {
            let first = step_if(self.shows_command_bars, Step::FinishCommandBars) + for_each(
                self.has_cleanup,
                self.commands as nat,
                |c: usize| Step::Cleanup(c),
            );
            assert(within_round(first, 0));
            let last = if self.shows_output {
                self.summaries(self.commands as nat)
            } else {
                seq![]
            };
            assert(self.finish() =~= first + last);
        }
    }

    proof fn lemma_round_in_step(self, count: u64, round: nat, c: nat, k: int)
        requires
            self.wf(),
            self.interleaved,
            0 <= k < self.commands,
            c <= self.commands,
            round < count || c == 0,
            round <= count,
        ensures
            in_step(self.from_round(count, round, c), count, k),
            exports(self.from_round(count, round, c)) == count - round,
        decreases count - round, self.commands - c,
    {
        let empty: Seq<Step> = seq![];
        if round >= count {
            self.lemma_finish_exports_nothing();
            self.lemma_around(count, k);
            assert(in_step(empty, count, k)) by {
                assert(empty.skip(0) =~= empty);
            }
            lemma_block_in_step(self.finish(), empty, count, 0, k);
            assert(self.finish() + empty =~= self.finish());
        } else if c >= self.commands {
            let rest = self.from_round(count, round + 1, 0);
            self.lemma_round_in_step(count, round + 1, 0, k);
            self.lemma_from_round(count, round + 1, 0, k);
            lemma_exports_add(seq![Step::Export], rest);
            lemma_exports_one(Step::Export);
            lemma_timed_adds(seq![Step::Export], rest, k);
            lemma_timed_one(Step::Export, k);
            lemma_in_step_grows(Step::Export, rest, count, k);
        } else {
            let block = self.round_block(round as u64, c as usize);
            let rest = self.from_round(count, round, c + 1);
            self.lemma_round_in_step(count, round, c + 1, k);
            self.lemma_from_round(count, round, c + 1, k);
            self.lemma_round_block(round as u64, c as usize, k);
            self.lemma_from_round(count, round, c, k);
            lemma_timed_adds(block, rest, k);
            assert(within_round(block, round as int));
            lemma_block_in_step(block, rest, count, round as int, k);
        }
    }

    /// After the count of runs, exports and rounds are in step, and there is one export for each
    /// round.
    pub(crate) proof fn lemma_closing_in_step(self, count: u64, k: int)
        requires
            self.wf(),
            self.interleaved,
            0 <= k < self.commands,
            count > 0,
        ensures
            in_step(self.closing(count), count, k),
            exports(self.closing(count)) == count,
    {
        let rounds = self.from_round(count, 1, 0);
        let shown = step_if(
            self.shows_command_bars,
            Step::StartCommandBars { length: (count - 1) as u64 },
        ) + for_each(
            self.shows_command_bars,
            self.commands as nat,
            |c: usize| Step::ShowEstimate(c),
        );
        self.lemma_round_in_step(count, 1, 0, k);
        self.lemma_from_round(count, 1, 0, k);
        lemma_untimed(shown, k);
        lemma_block_in_step(shown, rounds, count, 1, k);
        lemma_exports_add(seq![Step::Export], shown + rounds);
        lemma_exports_one(Step::Export);
        lemma_timed_adds(seq![Step::Export], shown + rounds, k);
        lemma_timed_one(Step::Export, k);
        lemma_in_step_grows(Step::Export, shown + rounds, count, k);
        assert(self.closing(count) =~= seq![Step::Export] + (shown + rounds));
    }

    proof fn lemma_initial_exports_nothing(self, c: nat)
        ensures
            exports(self.from_initial(c)) == 0,
        decreases self.commands - c,
    {
        if c >= self.commands {
            lemma_exports_one(Step::CountRuns);
        } else {
            self.lemma_initial_exports_nothing(c + 1);
            lemma_no_exports(self.initial_block(c as usize));
            lemma_exports_add(self.initial_block(c as usize), self.from_initial(c + 1));
        }
    }

    proof fn lemma_warmup_exports_nothing(self, round: nat, c: nat)
        ensures
            exports(self.from_warmup(round, c)) == 0,
        decreases self.warmup_count - round, self.commands - c,
    {
        if round >= self.warmup_count {
            self.lemma_initial_exports_nothing(0);
            lemma_no_exports(self.middle());
            lemma_exports_add(self.middle(), self.from_initial(0));
        } else if c >= self.commands {
            self.lemma_warmup_exports_nothing(round + 1, 0);
        } else {
            self.lemma_warmup_exports_nothing(round, c + 1);
            lemma_no_exports(self.warmup_block(round as u64, c as usize));
            lemma_exports_add(
                self.warmup_block(round as u64, c as usize),
                self.from_warmup(round, c + 1),
            );
        }
    }

    /// Nothing is exported before the count of runs.
    pub(crate) proof fn lemma_opening_exports_nothing(self)
        ensures
            exports(self.opening()) == 0,
    {
        self.lemma_warmup_exports_nothing(0, 0);
        lemma_no_exports(self.head());
        lemma_exports_add(self.head(), self.from_warmup(0, 0));
    }

    proof fn lemma_single_round_exports_nothing(self, count: u64, round: nat, c: nat)
        requires
            !self.interleaved,
        ensures
            exports(self.from_round(count, round, c)) == 0,
        decreases count - round, self.commands - c,
    {
        if round >= count {
            self.lemma_finish_exports_nothing();
            lemma_no_exports(self.finish());
        } else if c >= self.commands {
            self.lemma_single_round_exports_nothing(count, round + 1, 0);
            lemma_no_exports(self.round_end());
            lemma_exports_add(self.round_end(), self.from_round(count, round + 1, 0));
        } else {
            self.lemma_single_round_exports_nothing(count, round, c + 1);
            lemma_no_exports(self.round_block(round as u64, c as usize));
            lemma_exports_add(
                self.round_block(round as u64, c as usize),
                self.from_round(count, round, c + 1),
            );
        }
    }

    /// The benchmark of a single command exports nothing by itself.
    pub(crate) proof fn lemma_single_closing_exports_nothing(self, count: u64)
        requires
            !self.interleaved,
        ensures
            exports(self.closing(count)) == 0,
    {
        self.lemma_single_round_exports_nothing(count, 1, 0);
        lemma_no_exports(self.start(count));
        lemma_exports_add(self.start(count), self.from_round(count, 1, 0));
    }
}

/// Where commands take turns, the results are exported once for each round, and never before the
/// runs are counted.
pub proof fn each_round_is_exported_once(plan: Plan, count: u64)
    requires
        plan.wf(),
        plan.interleaved,
        count > 0,
    ensures
        exports(plan.opening()) == 0,
        exports(plan.closing(count)) == count,
{
    plan.lemma_opening_exports_nothing();
    plan.lemma_closing_in_step(count, 0);
}

} // verus!
