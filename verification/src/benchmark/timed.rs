//! Which of the steps of a benchmark are timed, and in which order.

use crate::benchmark::plan::{for_each, step_if, BenchmarkIteration, Plan, Step};
use vstd::arithmetic::div_mod::lemma_fundamental_div_mod_converse;
use vstd::prelude::*;

verus! {

/// Whether a step is a timed run of command `c`.
pub open spec fn is_timed(step: Step, c: int) -> bool {
    step matches Step::Measure { command, iteration } && command == c && iteration is Benchmark
}

/// How many of the steps are timed runs of command `c`.
pub open spec fn timed(steps: Seq<Step>, c: int) -> nat
    decreases steps.len(),
{
    if steps.len() == 0 {
        0
    } else {
        timed(steps.drop_last(), c) + if is_timed(steps.last(), c) {
            1nat
        } else {
            0
        }
    }
}

/// The command that a step is about, where it is about one.
pub open spec fn command_of(step: Step) -> Option<usize> {
    match step {
        Step::Announce(c) => Some(c),
        Step::Setup(c) => Some(c),
        Step::Prepare(c) => Some(c),
        Step::Measure { command, .. } => Some(command),
        Step::Conclude(c) => Some(c),
        Step::Cleanup(c) => Some(c),
        Step::TotalTime(c) => Some(c),
        Step::ShowEstimate(c) => Some(c),
        Step::AdvanceCommandBar(c) => Some(c),
        Step::Summarize(c) => Some(c),
        Step::Warn(c) => Some(c),
        _ => None,
    }
}

/// Whether the steps concern no command beyond the first `n`, and the count of runs is not among
/// them.
pub open spec fn ordinary(steps: Seq<Step>, n: int) -> bool {
    forall|k: int|
        0 <= k < steps.len() ==> (#[trigger] steps[k]) != Step::CountRuns && (command_of(
            steps[k],
        ) matches Some(c) ==> c < n)
}

/// The timed runs of two lists of steps add up.
pub(crate) proof fn lemma_timed_adds(a: Seq<Step>, b: Seq<Step>, c: int)
    ensures
        timed(a + b, c) == timed(a, c) + timed(b, c),
    decreases b.len(),
{
    if b.len() == 0 {
        assert(a + b =~= a);
    } else {
        assert((a + b).drop_last() =~= a + b.drop_last());
        lemma_timed_adds(a, b.drop_last(), c);
    }
}

/// Steps none of which is a timed run add no timed run.
pub(crate) proof fn lemma_untimed(steps: Seq<Step>, c: int)
    requires
        forall|k: int| 0 <= k < steps.len() ==> !is_timed(#[trigger] steps[k], c),
    ensures
        timed(steps, c) == 0,
    decreases steps.len(),
{
    if steps.len() > 0 {
        lemma_untimed(steps.drop_last(), c);
    }
}

/// A single step counts as one timed run or as none.
pub(crate) proof fn lemma_timed_one(step: Step, c: int)
    ensures
        timed(seq![step], c) == if is_timed(step, c) {
            1nat
        } else {
            0
        },
{
    reveal_with_fuel(timed, 2);
    assert(seq![step].drop_last() =~= seq![]);
}

impl Plan {
    pub(crate) proof fn lemma_measured(self, c: usize, iteration: BenchmarkIteration, k: int)
        ensures
            timed(self.measured(c, iteration), k) == if iteration is Benchmark && c == k {
                1nat
            } else {
                0
            },
            ordinary(self.measured(c, iteration), c + 1),
            self.measured(c, iteration).len() > 0,
    {
        let before = step_if(self.has_preparation, Step::Prepare(c));
        let run = Step::Measure { command: c, iteration };
        let after = step_if(self.has_conclusion, Step::Conclude(c));
        lemma_untimed(before, k);
        lemma_untimed(after, k);
        lemma_timed_one(run, k);
        lemma_timed_adds(before, seq![run], k);
        lemma_timed_adds(before + seq![run], after, k);
    }

    pub(crate) proof fn lemma_warmup_block(self, round: u64, c: usize, k: int)
        ensures
            timed(self.warmup_block(round, c), k) == 0,
            ordinary(self.warmup_block(round, c), c + 1),
            self.warmup_block(round, c).len() > 0,
    {
        let run = self.measured(c, BenchmarkIteration::Warmup(round));
        let after = step_if(self.shows_output, Step::Advance);
        self.lemma_measured(c, BenchmarkIteration::Warmup(round), k);
        lemma_untimed(after, k);
        lemma_timed_adds(run, after, k);
    }

    pub(crate) proof fn lemma_initial_block(self, c: usize, k: int)
        ensures
            timed(self.initial_block(c), k) == if c == k {
                1nat
            } else {
                0
            },
            ordinary(self.initial_block(c), c + 1),
            self.initial_block(c).len() > 0,
    {
        let run = self.measured(c, BenchmarkIteration::Benchmark(0));
        self.lemma_measured(c, BenchmarkIteration::Benchmark(0), k);
        lemma_timed_one(Step::TotalTime(c), k);
        lemma_timed_adds(run, seq![Step::TotalTime(c)], k);
    }

    pub(crate) proof fn lemma_round_block(self, round: u64, c: usize, k: int)
        ensures
            timed(self.round_block(round, c), k) == if c == k {
                1nat
            } else {
                0
            },
            ordinary(self.round_block(round, c), c + 1),
            self.round_block(round, c).len() > 0,
    {
        let iteration = BenchmarkIteration::Benchmark(round);
        if self.interleaved {
            let run = self.measured(c, iteration);
            let estimate = step_if(self.shows_command_bars, Step::ShowEstimate(c));
            let bar = step_if(self.shows_command_bars, Step::AdvanceCommandBar(c));
            self.lemma_measured(c, iteration, k);
            lemma_untimed(estimate, k);
            lemma_untimed(bar, k);
            lemma_timed_adds(run, estimate, k);
            lemma_timed_adds(run + estimate, bar, k);
        } else {
            let run = Step::Measure { command: c, iteration };
            let before = step_if(self.has_preparation, Step::Prepare(c)) + step_if(
                self.shows_output,
                Step::ShowEstimate(c),
            );
            let bar = step_if(self.shows_output, Step::Advance);
            let after = step_if(self.has_conclusion, Step::Conclude(c));
            lemma_untimed(before, k);
            lemma_timed_one(run, k);
            lemma_untimed(bar, k);
            lemma_untimed(after, k);
            lemma_timed_adds(before, seq![run], k);
            lemma_timed_adds(before + seq![run], bar, k);
            lemma_timed_adds(before + seq![run] + bar, after, k);
        }
    }

    pub(crate) proof fn lemma_summaries(self, n: nat, k: int)
        requires
            n <= usize::MAX,
        ensures
            timed(self.summaries(n), k) == 0,
            ordinary(self.summaries(n), n as int),
        decreases n,
    {
        if n > 0 {
            let c = (n - 1) as usize;
            let last = seq![
                Step::Announce(c),
                Step::Summarize(c),
                Step::Warn(c),
                Step::EndSection,
            ];
            self.lemma_summaries((n - 1) as nat, k);
            lemma_untimed(last, k);
            lemma_timed_adds(self.summaries((n - 1) as nat), last, k);
            let steps = self.summaries(n);
            assert forall|j: int| 0 <= j < steps.len() implies (#[trigger] steps[j])
                != Step::CountRuns && (command_of(steps[j]) matches Some(c) ==> c < n) by {
                let rest = self.summaries((n - 1) as nat);
                if j < rest.len() {
                    assert(steps[j] == rest[j]);
                } else {
                    assert(steps[j] == last[j - rest.len()]);
                }
            }
        }
    }

    proof fn lemma_head(self, k: int)
        requires
            self.wf(),
        ensures
            timed(self.head(), k) == 0,
            ordinary(self.head(), self.commands as int),
    {
        lemma_untimed(self.head(), k);
    }

    proof fn lemma_middle(self, k: int)
        requires
            self.wf(),
        ensures
            timed(self.middle(), k) == 0,
            ordinary(self.middle(), self.commands as int),
            timed(self.round_end(), k) == 0,
            ordinary(self.round_end(), self.commands as int),
    {
        lemma_untimed(self.middle(), k);
        lemma_untimed(self.round_end(), k);
    }

    proof fn lemma_start(self, count: u64, k: int)
        requires
            self.wf(),
        ensures
            timed(self.start(count), k) == 0,
            ordinary(self.start(count), self.commands as int),
    {
        lemma_untimed(self.start(count), k);
    }

    proof fn lemma_finish(self, k: int)
        requires
            self.wf(),
        ensures
            timed(self.finish(), k) == 0,
            ordinary(self.finish(), self.commands as int),
    {
        if self.interleaved {
            let first = step_if(self.shows_command_bars, Step::FinishCommandBars) + for_each(
                self.has_cleanup,
                self.commands as nat,
                |c: usize| Step::Cleanup(c),
            );
            let last = if self.shows_output {
                self.summaries(self.commands as nat)
            } else {
                seq![]
            };
            lemma_untimed(first, k);
            if self.shows_output {
                self.lemma_summaries(self.commands as nat, k);
            } else {
                lemma_untimed(last, k);
            }
            lemma_timed_adds(first, last, k);
            assert(ordinary(first, self.commands as int));
            assert(ordinary(last, self.commands as int));
            assert(self.finish() =~= first + last);
        } else {
            lemma_untimed(self.finish(), k);
        }
    }

    /// What happens around the runs is not timed.
    pub(crate) proof fn lemma_around(self, count: u64, k: int)
        requires
            self.wf(),
        ensures
            timed(self.head(), k) == 0,
            ordinary(self.head(), self.commands as int),
            timed(self.middle(), k) == 0,
            ordinary(self.middle(), self.commands as int),
            timed(self.start(count), k) == 0,
            ordinary(self.start(count), self.commands as int),
            timed(self.round_end(), k) == 0,
            ordinary(self.round_end(), self.commands as int),
            timed(self.finish(), k) == 0,
            ordinary(self.finish(), self.commands as int),
    {
        self.lemma_head(k);
        self.lemma_middle(k);
        self.lemma_start(count, k);
        self.lemma_finish(k);
    }

    /// Each command has one timed run before the runs are counted.
    pub(crate) proof fn lemma_from_initial(self, c: nat, k: int)
        requires
            self.wf(),
            0 <= k < self.commands,
            c <= self.commands,
        ensures
            timed(self.from_initial(c), k) == if c <= k {
                1nat
            } else {
                0
            },
        decreases self.commands - c,
    {
        if c >= self.commands {
            lemma_timed_one(Step::CountRuns, k);
        } else {
            self.lemma_from_initial(c + 1, k);
            self.lemma_initial_block(c as usize, k);
            lemma_timed_adds(self.initial_block(c as usize), self.from_initial(c + 1), k);
        }
    }

    /// Warmup runs are not timed.
    pub(crate) proof fn lemma_from_warmup(self, round: nat, c: nat, k: int)
        requires
            self.wf(),
            0 <= k < self.commands,
            c <= self.commands,
        ensures
            timed(self.from_warmup(round, c), k) == 1,
        decreases self.warmup_count - round, self.commands - c,
    {
        if round >= self.warmup_count {
            self.lemma_from_initial(0, k);
            self.lemma_around(1, k);
            lemma_timed_adds(self.middle(), self.from_initial(0), k);
        } else if c >= self.commands {
            self.lemma_from_warmup(round + 1, 0, k);
        } else {
            self.lemma_from_warmup(round, c + 1, k);
            self.lemma_warmup_block(round as u64, c as usize, k);
            lemma_timed_adds(
                self.warmup_block(round as u64, c as usize),
                self.from_warmup(round, c + 1),
                k,
            );
        }
    }

    /// Each command has one timed run in each round.
    pub(crate) proof fn lemma_from_round(self, count: u64, round: nat, c: nat, k: int)
        requires
            self.wf(),
            0 <= k < self.commands,
            c <= self.commands,
            round < count || c == 0,
            round <= count,
        ensures
            timed(self.from_round(count, round, c), k) == count - round - if k < c {
                1int
            } else {
                0
            },
        decreases count - round, self.commands - c,
    {
        if round >= count {
            self.lemma_around(count, k);
        } else if c >= self.commands {
            self.lemma_from_round(count, round + 1, 0, k);
            self.lemma_around(count, k);
            lemma_timed_adds(self.round_end(), self.from_round(count, round + 1, 0), k);
        } else {
            self.lemma_from_round(count, round, c + 1, k);
            self.lemma_round_block(round as u64, c as usize, k);
            lemma_timed_adds(
                self.round_block(round as u64, c as usize),
                self.from_round(count, round, c + 1),
                k,
            );
        }
    }
}

/// Before the runs are counted, each command is timed once, whatever the number of warmup runs.
pub proof fn opening_times_each_command_once(plan: Plan, c: int)
    requires
        plan.wf(),
        0 <= c < plan.commands,
    ensures
        timed(plan.opening(), c) == 1,
{
    plan.lemma_around(1, c);
    plan.lemma_from_warmup(0, 0, c);
    lemma_timed_adds(plan.head(), plan.from_warmup(0, 0), c);
}

/// From start to end, each command is timed as often as the count says.
pub proof fn each_command_is_timed_count_times(plan: Plan, count: u64, c: int)
    requires
        plan.wf(),
        0 <= c < plan.commands,
        count > 0,
    ensures
        timed(plan.opening() + plan.closing(count), c) == count,
{
    opening_times_each_command_once(plan, c);
    plan.lemma_around(count, c);
    plan.lemma_from_round(count, 1, 0, c);
    lemma_timed_adds(plan.start(count), plan.from_round(count, 1, 0), c);
    lemma_timed_adds(plan.opening(), plan.closing(count), c);
}

/// The command and the round of each timed run, in order.
pub open spec fn timed_order(steps: Seq<Step>) -> Seq<(usize, u64)>
    decreases steps.len(),
{
    if steps.len() == 0 {
        seq![]
    } else {
        let before = timed_order(steps.drop_last());
        match steps.last() {
            Step::Measure {
                command,
                iteration: BenchmarkIteration::Benchmark(round),
            } => before.push((command, round)),
            _ => before,
        }
    }
}

/// Whose turn it is at time `t`, and in which round, when `n` commands take turns.
pub open spec fn turn(n: int, t: int) -> (usize, u64) {
    ((t % n) as usize, (t / n) as u64)
}

/// The turns from time `first` up to time `last`.
pub open spec fn turns(n: int, first: int, last: int) -> Seq<(usize, u64)> {
    Seq::new((last - first) as nat, |k: int| turn(n, first + k))
}

proof fn lemma_timed_order_adds(a: Seq<Step>, b: Seq<Step>)
    ensures
        timed_order(a + b) == timed_order(a) + timed_order(b),
    decreases b.len(),
{
    if b.len() == 0 {
        assert(a + b =~= a);
        assert(timed_order(a) + timed_order(b) =~= timed_order(a));
    } else {
        assert((a + b).drop_last() =~= a + b.drop_last());
        assert((a + b).last() == b.last());
        lemma_timed_order_adds(a, b.drop_last());
        assert(timed_order(a + b) =~= timed_order(a) + timed_order(b));
    }
}

/// Steps without timed runs leave the order of timed runs alone.
proof fn lemma_no_turn(steps: Seq<Step>)
    requires
        forall|k: int, c: int| 0 <= k < steps.len() ==> !#[trigger] is_timed(steps[k], c),
    ensures
        timed_order(steps) == Seq::<(usize, u64)>::empty(),
    decreases steps.len(),
{
    if steps.len() > 0 {
        let last = steps.len() - 1;
        match steps.last() {
            Step::Measure { command, iteration: BenchmarkIteration::Benchmark(_) } => {
                assert(is_timed(steps[last], command as int));
            },
            _ => {},
        }
        assert forall|k: int, c: int| 0 <= k < steps.drop_last().len() implies !#[trigger] is_timed(
            steps.drop_last()[k],
            c,
        ) by {
            assert(!is_timed(steps[k], c));
        }
        lemma_no_turn(steps.drop_last());
    }
}

proof fn lemma_one_turn(step: Step, c: usize, round: u64)
    requires
        step == (Step::Measure { command: c, iteration: BenchmarkIteration::Benchmark(round) }),
    ensures
        timed_order(seq![step]) == seq![(c, round)],
{
    reveal_with_fuel(timed_order, 2);
    assert(seq![step].drop_last() =~= seq![]);
    assert(timed_order(seq![step]) =~= seq![(c, round)]);
}

impl Plan {
    proof fn lemma_measured_order(self, c: usize, round: u64)
        ensures
            timed_order(self.measured(c, BenchmarkIteration::Benchmark(round))) == seq![(c, round)],
            timed_order(self.measured(c, BenchmarkIteration::Warmup(round))) == Seq::<
                (usize, u64),
            >::empty(),
    {
        let before = step_if(self.has_preparation, Step::Prepare(c));
        let run = Step::Measure { command: c, iteration: BenchmarkIteration::Benchmark(round) };
        let after = step_if(self.has_conclusion, Step::Conclude(c));
        lemma_no_turn(before);
        lemma_no_turn(after);
        lemma_one_turn(run, c, round);
        lemma_timed_order_adds(before, seq![run]);
        lemma_timed_order_adds(before + seq![run], after);
        assert(timed_order(self.measured(c, BenchmarkIteration::Benchmark(round)))
            =~= seq![(c, round)]);
        lemma_no_turn(self.measured(c, BenchmarkIteration::Warmup(round)));
    }

    proof fn lemma_round_block_order(self, round: u64, c: usize)
        ensures
            timed_order(self.round_block(round, c)) == seq![(c, round)],
    {
        let iteration = BenchmarkIteration::Benchmark(round);
        if self.interleaved {
            let run = self.measured(c, iteration);
            let after = step_if(self.shows_command_bars, Step::ShowEstimate(c)) + step_if(
                self.shows_command_bars,
                Step::AdvanceCommandBar(c),
            );
            self.lemma_measured_order(c, round);
            lemma_no_turn(after);
            lemma_timed_order_adds(run, after);
            assert(self.round_block(round, c) =~= run + after);
        } else {
            let run = Step::Measure { command: c, iteration };
            let before = step_if(self.has_preparation, Step::Prepare(c)) + step_if(
                self.shows_output,
                Step::ShowEstimate(c),
            );
            let after = step_if(self.shows_output, Step::Advance) + step_if(
                self.has_conclusion,
                Step::Conclude(c),
            );
            lemma_no_turn(before);
            lemma_one_turn(run, c, round);
            lemma_no_turn(after);
            lemma_timed_order_adds(before, seq![run]);
            lemma_timed_order_adds(before + seq![run], after);
            assert(self.round_block(round, c) =~= before + seq![run] + after);
        }
        assert(timed_order(self.round_block(round, c)) =~= seq![(c, round)]);
    }

    proof fn lemma_around_order(self, count: u64)
        requires
            self.wf(),
        ensures
            timed_order(self.head()) == Seq::<(usize, u64)>::empty(),
            timed_order(self.middle()) == Seq::<(usize, u64)>::empty(),
            timed_order(self.start(count)) == Seq::<(usize, u64)>::empty(),
            timed_order(self.round_end()) == Seq::<(usize, u64)>::empty(),
            timed_order(self.finish()) == Seq::<(usize, u64)>::empty(),
    {
        lemma_no_turn(self.head());
        lemma_no_turn(self.middle());
        lemma_no_turn(self.start(count));
        lemma_no_turn(self.round_end());
        if self.interleaved {
            let first = step_if(self.shows_command_bars, Step::FinishCommandBars) + for_each(
                self.has_cleanup,
                self.commands as nat,
                |c: usize| Step::Cleanup(c),
            );
            let last = if self.shows_output {
                self.summaries(self.commands as nat)
            } else {
                seq![]
            };
            lemma_no_turn(first);
            if self.shows_output {
                self.lemma_summaries_order(self.commands as nat);
            } else {
                lemma_no_turn(last);
            }
            lemma_timed_order_adds(first, last);
            assert(self.finish() =~= first + last);
        } else {
            lemma_no_turn(self.finish());
        }
    }

    proof fn lemma_summaries_order(self, n: nat)
        ensures
            timed_order(self.summaries(n)) == Seq::<(usize, u64)>::empty(),
        decreases n,
    {
        if n > 0 {
            let c = (n - 1) as usize;
            let last = seq![
                Step::Announce(c),
                Step::Summarize(c),
                Step::Warn(c),
                Step::EndSection,
            ];
            self.lemma_summaries_order((n - 1) as nat);
            lemma_no_turn(last);
            lemma_timed_order_adds(self.summaries((n - 1) as nat), last);
        }
    }

    proof fn lemma_turn(self, round: int, c: int)
        requires
            0 <= c < self.commands,
            0 <= round <= u64::MAX,
        ensures
            turn(self.commands as int, round * self.commands + c) == (c as usize, round as u64),
    {
        lemma_fundamental_div_mod_converse(
            round * self.commands + c,
            self.commands as int,
            round,
            c,
        );
    }

    proof fn lemma_initial_order(self, c: nat)
        requires
            self.wf(),
            c <= self.commands,
        ensures
            timed_order(self.from_initial(c)) == turns(
                self.commands as int,
                c as int,
                self.commands as int,
            ),
        decreases self.commands - c,
    {
        let n = self.commands as int;
        if c >= self.commands {
            lemma_no_turn(seq![Step::CountRuns]);
            assert(turns(n, n, n) =~= seq![]);
        } else {
            let block = self.initial_block(c as usize);
            let run = self.measured(c as usize, BenchmarkIteration::Benchmark(0));
            self.lemma_measured_order(c as usize, 0);
            lemma_no_turn(seq![Step::TotalTime(c as usize)]);
            lemma_timed_order_adds(run, seq![Step::TotalTime(c as usize)]);
            self.lemma_initial_order(c + 1);
            lemma_timed_order_adds(block, self.from_initial(c + 1));
            self.lemma_turn(0, c as int);
            assert(timed_order(self.from_initial(c)) =~= turns(n, c as int, n));
        }
    }

    proof fn lemma_warmup_order(self, round: nat, c: nat)
        requires
            self.wf(),
            c <= self.commands,
        ensures
            timed_order(self.from_warmup(round, c)) == turns(
                self.commands as int,
                0,
                self.commands as int,
            ),
        decreases self.warmup_count - round, self.commands - c,
    {
        let all = turns(self.commands as int, 0, self.commands as int);
        if round >= self.warmup_count {
            self.lemma_initial_order(0);
            self.lemma_around_order(1);
            lemma_timed_order_adds(self.middle(), self.from_initial(0));
            assert(timed_order(self.from_warmup(round, c)) =~= all);
        } else if c >= self.commands {
            self.lemma_warmup_order(round + 1, 0);
        } else {
            let run = self.measured(c as usize, BenchmarkIteration::Warmup(round as u64));
            let bar = step_if(self.shows_output, Step::Advance);
            self.lemma_measured_order(c as usize, round as u64);
            lemma_no_turn(bar);
            lemma_timed_order_adds(run, bar);
            self.lemma_warmup_order(round, c + 1);
            lemma_timed_order_adds(
                self.warmup_block(round as u64, c as usize),
                self.from_warmup(round, c + 1),
            );
            assert(timed_order(self.from_warmup(round, c)) =~= all);
        }
    }

    proof fn lemma_round_order(self, count: u64, round: nat, c: nat)
        requires
            self.wf(),
            c <= self.commands,
            round < count || c == 0,
            round <= count,
        ensures
            timed_order(self.from_round(count, round, c)) == turns(
                self.commands as int,
                round * self.commands + c,
                count * self.commands,
            ),
        decreases count - round, self.commands - c,
    {
        let n = self.commands as int;
        if round >= count {
            self.lemma_around_order(count);
            assert(turns(n, count * n, count * n) =~= seq![]);
        } else if c >= self.commands {
            self.lemma_around_order(count);
            self.lemma_round_order(count, round + 1, 0);
            lemma_timed_order_adds(self.round_end(), self.from_round(count, round + 1, 0));
            assert(round * n + n == (round + 1) * n) by (nonlinear_arith);
            assert(timed_order(self.from_round(count, round, c)) =~= turns(
                n,
                round * n + c,
                count * n,
            ));
        } else {
            self.lemma_round_block_order(round as u64, c as usize);
            self.lemma_round_order(count, round, c + 1);
            lemma_timed_order_adds(
                self.round_block(round as u64, c as usize),
                self.from_round(count, round, c + 1),
            );
            self.lemma_turn(round as int, c as int);
            assert(round * n + c < count * n) by (nonlinear_arith)
                requires
                    0 <= c < n,
                    round < count,
            ;
            assert(timed_order(self.from_round(count, round, c)) =~= turns(
                n,
                round * n + c,
                count * n,
            ));
        }
    }
}

/// Timed runs alternate between the commands in rounds: in each round every command is timed once,
/// the first command first.
pub proof fn timed_runs_alternate(plan: Plan, count: u64)
    requires
        plan.wf(),
        count > 0,
    ensures
        timed_order(plan.opening() + plan.closing(count)) == turns(
            plan.commands as int,
            0,
            count * plan.commands,
        ),
{
    let n = plan.commands as int;
    plan.lemma_around_order(count);
    plan.lemma_warmup_order(0, 0);
    plan.lemma_round_order(count, 1, 0);
    lemma_timed_order_adds(plan.head(), plan.from_warmup(0, 0));
    lemma_timed_order_adds(plan.start(count), plan.from_round(count, 1, 0));
    lemma_timed_order_adds(plan.opening(), plan.closing(count));
    assert(n <= count * n) by (nonlinear_arith)
        requires
            n > 0,
            count > 0,
    ;
    assert(timed_order(plan.opening() + plan.closing(count)) =~= turns(n, 0, count * n));
}

} // verus!
