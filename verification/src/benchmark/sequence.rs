//! Which steps of each kind a benchmark has, and in which order they come.

use crate::benchmark::plan::{for_each, step_if, BenchmarkIteration, Plan, ProgressTask, Step};
use vstd::arithmetic::div_mod::lemma_fundamental_div_mod_converse;
use vstd::prelude::*;

verus! {

/// What `n` commands contribute when they take turns from time `first` up to time `last`. At time
/// `t` it is the turn of command `t % n` in round `t / n`.
pub open spec fn in_turn(
    n: int,
    first: int,
    last: int,
    block: spec_fn(int, int) -> Seq<Step>,
) -> Seq<Step>
    decreases last - first,
{
    if first >= last {
        seq![]
    } else {
        block(first / n, first % n) + in_turn(n, first + 1, last, block)
    }
}

/// Where each turn contributes one step, the step at time `t` is that of the turn.
pub(crate) proof fn lemma_one_each(
    n: int,
    first: int,
    last: int,
    block: spec_fn(int, int) -> Seq<Step>,
    step: spec_fn(int, int) -> Step,
)
    requires
        first <= last,
        forall|round: int, c: int| #[trigger] block(round, c) == seq![step(round, c)],
    ensures
        in_turn(n, first, last, block).len() == last - first,
        forall|t: int|
            0 <= t < last - first ==> #[trigger] in_turn(n, first, last, block)[t] == step(
                (first + t) / n,
                (first + t) % n,
            ),
    decreases last - first,
{
    if first < last {
        lemma_one_each(n, first + 1, last, block, step);
        let rest = in_turn(n, first + 1, last, block);
        assert(block(first / n, first % n) == seq![step(first / n, first % n)]);
        assert forall|t: int| 0 <= t < last - first implies #[trigger] in_turn(
            n,
            first,
            last,
            block,
        )[t] == step((first + t) / n, (first + t) % n) by {
            if t > 0 {
                assert(in_turn(n, first, last, block)[t] == rest[t - 1]);
            }
        }
    }
}

/// Turns that contribute nothing add up to nothing.
pub(crate) proof fn lemma_none_each(n: int, first: int, last: int, block: spec_fn(int, int) -> Seq<Step>)
    requires
        forall|round: int, c: int| (#[trigger] block(round, c)).len() == 0,
    ensures
        in_turn(n, first, last, block) == Seq::<Step>::empty(),
    decreases last - first,
{
    if first < last {
        lemma_none_each(n, first + 1, last, block);
        assert(block(first / n, first % n).len() == 0);
        assert(in_turn(n, first, last, block) =~= Seq::<Step>::empty());
    }
}

pub(crate) proof fn lemma_turn_of(n: int, round: int, c: int)
    requires
        0 <= c < n,
    ensures
        (round * n + c) / n == round,
        (round * n + c) % n == c,
{
    lemma_fundamental_div_mod_converse(round * n + c, n, round, c);
}

/// The steps that `p` picks, in order.
#[verifier::opaque]
pub open spec fn picked(steps: Seq<Step>, p: spec_fn(Step) -> bool) -> Seq<Step> {
    steps.filter(p)
}

pub(crate) proof fn lemma_pick_one(step: Step, p: spec_fn(Step) -> bool)
    ensures
        picked(seq![step], p) == step_if(p(step), step),
{
    let steps = seq![step];
    reveal(picked);
    reveal(Seq::filter);
    assert(steps.drop_last() =~= seq![]);
    assert(picked(steps.drop_last(), p) == steps.drop_last());
    assert(picked(steps, p) =~= step_if(p(step), step));
}

pub(crate) proof fn lemma_pick_if(condition: bool, step: Step, p: spec_fn(Step) -> bool)
    ensures
        picked(step_if(condition, step), p) == step_if(condition && p(step), step),
{
    if condition {
        lemma_pick_one(step, p);
    } else {
        lemma_pick_none(step_if(condition, step), p);
    }
}

pub(crate) proof fn lemma_pick_none(steps: Seq<Step>, p: spec_fn(Step) -> bool)
    requires
        forall|k: int| 0 <= k < steps.len() ==> !p(#[trigger] steps[k]),
    ensures
        picked(steps, p) == Seq::<Step>::empty(),
    decreases steps.len(),
{
    reveal(picked);
    reveal(Seq::filter);
    if steps.len() > 0 {
        lemma_pick_none(steps.drop_last(), p);
        assert(steps.last() == steps[steps.len() - 1]);
    } else {
        assert(steps =~= Seq::<Step>::empty());
    }
}

pub(crate) proof fn lemma_pick_all(steps: Seq<Step>, p: spec_fn(Step) -> bool)
    requires
        forall|k: int| 0 <= k < steps.len() ==> p(#[trigger] steps[k]),
    ensures
        picked(steps, p) == steps,
    decreases steps.len(),
{
    reveal(picked);
    reveal(Seq::filter);
    if steps.len() > 0 {
        lemma_pick_all(steps.drop_last(), p);
        assert(steps.last() == steps[steps.len() - 1]);
        assert(steps.drop_last().push(steps.last()) =~= steps);
    }
}

pub(crate) proof fn lemma_pick_both(a: Seq<Step>, b: Seq<Step>, p: spec_fn(Step) -> bool)
    ensures
        picked(a + b, p) == picked(a, p) + picked(b, p),
{
    reveal(picked);
    Seq::filter_distributes_over_add(a, b, p);
}

/// The same step for each command is picked for all of them or for none.
pub(crate) proof fn lemma_pick_each(
    condition: bool,
    n: nat,
    step: spec_fn(usize) -> Step,
    p: spec_fn(Step) -> bool,
    all: bool,
)
    requires
        forall|c: usize| p(#[trigger] step(c)) == all,
    ensures
        picked(for_each(condition, n, step), p) == for_each(condition && all, n, step),
{
    let steps = for_each(condition, n, step);
    if all {
        assert forall|k: int| 0 <= k < steps.len() implies p(#[trigger] steps[k]) by {
            assert(p(step(k as usize)));
        }
        lemma_pick_all(steps, p);
    } else {
        assert forall|k: int| 0 <= k < steps.len() implies !p(#[trigger] steps[k]) by {
            assert(!p(step(k as usize)));
        }
        lemma_pick_none(steps, p);
        assert(for_each(condition && all, n, step) =~= Seq::<Step>::empty());
    }
}

/// Whether `p` picks steps without regard to the command.
pub open spec fn regardless_of_command(p: spec_fn(Step) -> bool) -> bool {
    &&& forall|c: usize| #[trigger] p(Step::Announce(c)) == p(Step::Announce(0))
    &&& forall|c: usize| #[trigger] p(Step::Setup(c)) == p(Step::Setup(0))
    &&& forall|c: usize| #[trigger] p(Step::Cleanup(c)) == p(Step::Cleanup(0))
    &&& forall|c: usize| #[trigger] p(Step::ShowEstimate(c)) == p(Step::ShowEstimate(0))
    &&& forall|c: usize| #[trigger] p(Step::Summarize(c)) == p(Step::Summarize(0))
    &&& forall|c: usize| #[trigger] p(Step::Warn(c)) == p(Step::Warn(0))
}

impl Plan {
    pub(crate) proof fn lemma_pick_measured(
        self,
        c: usize,
        iteration: BenchmarkIteration,
        p: spec_fn(Step) -> bool,
    )
        ensures
            picked(self.measured(c, iteration), p) == step_if(
                self.has_preparation && p(Step::Prepare(c)),
                Step::Prepare(c),
            ) + step_if(
                p(Step::Measure { command: c, iteration }),
                Step::Measure { command: c, iteration },
            ) + step_if(self.has_conclusion && p(Step::Conclude(c)), Step::Conclude(c)),
    {
        let before = step_if(self.has_preparation, Step::Prepare(c));
        let run = seq![Step::Measure { command: c, iteration }];
        let after = step_if(self.has_conclusion, Step::Conclude(c));
        lemma_pick_if(self.has_preparation, Step::Prepare(c), p);
        lemma_pick_one(Step::Measure { command: c, iteration }, p);
        lemma_pick_if(self.has_conclusion, Step::Conclude(c), p);
        lemma_pick_both(before, run, p);
        lemma_pick_both(before + run, after, p);
    }

    pub(crate) proof fn lemma_pick_warmup_block(self, round: u64, c: usize, p: spec_fn(Step) -> bool)
        ensures
            picked(self.warmup_block(round, c), p) == picked(self.measured(
                c,
                BenchmarkIteration::Warmup(round),
            ), p) + step_if(self.shows_output && p(Step::Advance), Step::Advance),
    {
        lemma_pick_if(self.shows_output, Step::Advance, p);
        lemma_pick_both(
            self.measured(c, BenchmarkIteration::Warmup(round)),
            step_if(self.shows_output, Step::Advance),
            p,
        );
    }

    pub(crate) proof fn lemma_pick_initial_block(self, c: usize, p: spec_fn(Step) -> bool)
        ensures
            picked(self.initial_block(c), p) == picked(self.measured(
                c,
                BenchmarkIteration::Benchmark(0),
            ), p) + step_if(p(Step::TotalTime(c)), Step::TotalTime(c)),
    {
        lemma_pick_one(Step::TotalTime(c), p);
        lemma_pick_both(
            self.measured(c, BenchmarkIteration::Benchmark(0)),
            seq![Step::TotalTime(c)],
            p,
        );
    }

    pub(crate) proof fn lemma_pick_round_block(self, round: u64, c: usize, p: spec_fn(Step) -> bool)
        ensures
            self.interleaved ==> picked(self.round_block(round, c), p) == picked(self.measured(
                c,
                BenchmarkIteration::Benchmark(round),
            ), p) + step_if(
                self.shows_command_bars && p(Step::ShowEstimate(c)),
                Step::ShowEstimate(c),
            ) + step_if(
                self.shows_command_bars && p(Step::AdvanceCommandBar(c)),
                Step::AdvanceCommandBar(c),
            ),
            !self.interleaved ==> picked(self.round_block(round, c), p) == step_if(
                self.has_preparation && p(Step::Prepare(c)),
                Step::Prepare(c),
            ) + step_if(self.shows_output && p(Step::ShowEstimate(c)), Step::ShowEstimate(c))
                + step_if(
                p(
                    Step::Measure { command: c, iteration: BenchmarkIteration::Benchmark(round) },
                ),
                Step::Measure { command: c, iteration: BenchmarkIteration::Benchmark(round) },
            ) + step_if(self.shows_output && p(Step::Advance), Step::Advance) + step_if(
                self.has_conclusion && p(Step::Conclude(c)),
                Step::Conclude(c),
            ),
    {
        if self.interleaved {
            let run = self.measured(c, BenchmarkIteration::Benchmark(round));
            let shown = step_if(self.shows_command_bars, Step::ShowEstimate(c));
            let moved = step_if(self.shows_command_bars, Step::AdvanceCommandBar(c));
            lemma_pick_if(self.shows_command_bars, Step::ShowEstimate(c), p);
            lemma_pick_if(self.shows_command_bars, Step::AdvanceCommandBar(c), p);
            lemma_pick_both(run, shown, p);
            lemma_pick_both(run + shown, moved, p);
        } else {
            let measure = Step::Measure {
                command: c,
                iteration: BenchmarkIteration::Benchmark(round),
            };
            let before = step_if(self.has_preparation, Step::Prepare(c));
            let shown = step_if(self.shows_output, Step::ShowEstimate(c));
            let moved = step_if(self.shows_output, Step::Advance);
            let after = step_if(self.has_conclusion, Step::Conclude(c));
            lemma_pick_if(self.has_preparation, Step::Prepare(c), p);
            lemma_pick_if(self.shows_output, Step::ShowEstimate(c), p);
            lemma_pick_one(measure, p);
            lemma_pick_if(self.shows_output, Step::Advance, p);
            lemma_pick_if(self.has_conclusion, Step::Conclude(c), p);
            lemma_pick_both(before, shown, p);
            lemma_pick_both(before + shown, seq![measure], p);
            lemma_pick_both(before + shown + seq![measure], moved, p);
            lemma_pick_both(before + shown + seq![measure] + moved, after, p);
        }
    }

    pub(crate) proof fn lemma_pick_head(self, p: spec_fn(Step) -> bool)
        requires
            regardless_of_command(p),
        ensures
            picked(self.head(), p) == step_if(
                self.shows_output && p(
                    if self.interleaved {
                        Step::AnnounceAll
                    } else {
                        Step::Announce(0)
                    },
                ),
                if self.interleaved {
                    Step::AnnounceAll
                } else {
                    Step::Announce(0)
                },
            ) + for_each(
                self.has_setup && p(Step::Setup(0)),
                self.commands as nat,
                |c: usize| Step::Setup(c),
            ) + step_if(
                self.shows_output && self.warmup_count > 0 && p(
                    Step::StartProgress {
                        task: ProgressTask::WarmupRuns,
                        length: (self.warmup_count * self.commands) as u64,
                    },
                ),
                Step::StartProgress {
                    task: ProgressTask::WarmupRuns,
                    length: (self.warmup_count * self.commands) as u64,
                },
            ),
    {
        let announcement = if self.interleaved {
            Step::AnnounceAll
        } else {
            Step::Announce(0)
        };
        let bar = Step::StartProgress {
            task: ProgressTask::WarmupRuns,
            length: (self.warmup_count * self.commands) as u64,
        };
        let setup = |c: usize| Step::Setup(c);
        let a = step_if(self.shows_output, announcement);
        let b = for_each(self.has_setup, self.commands as nat, setup);
        let c = step_if(self.shows_output && self.warmup_count > 0, bar);
        lemma_pick_if(self.shows_output, announcement, p);
        assert forall|k: usize| p(#[trigger] setup(k)) == p(Step::Setup(0)) by {
            assert(p(Step::Setup(k)) == p(Step::Setup(0)));
        }
        lemma_pick_each(self.has_setup, self.commands as nat, setup, p, p(Step::Setup(0)));
        lemma_pick_if(self.shows_output && self.warmup_count > 0, bar, p);
        lemma_pick_both(a, b, p);
        lemma_pick_both(a + b, c, p);
    }

    pub(crate) proof fn lemma_pick_middle(self, p: spec_fn(Step) -> bool)
        ensures
            picked(self.middle(), p) == step_if(
                self.shows_output && self.warmup_count > 0 && p(Step::FinishProgress),
                Step::FinishProgress,
            ) + step_if(
                self.shows_output && !self.interleaved && p(
                    Step::StartProgress {
                        task: ProgressTask::InitialMeasurement,
                        length: self.run_bounds.min,
                    },
                ),
                Step::StartProgress {
                    task: ProgressTask::InitialMeasurement,
                    length: self.run_bounds.min,
                },
            ),
    {
        let bar = Step::StartProgress {
            task: ProgressTask::InitialMeasurement,
            length: self.run_bounds.min,
        };
        lemma_pick_if(self.shows_output && self.warmup_count > 0, Step::FinishProgress, p);
        lemma_pick_if(self.shows_output && !self.interleaved, bar, p);
        lemma_pick_both(
            step_if(self.shows_output && self.warmup_count > 0, Step::FinishProgress),
            step_if(self.shows_output && !self.interleaved, bar),
            p,
        );
    }

    pub(crate) proof fn lemma_pick_start(self, count: u64, p: spec_fn(Step) -> bool)
        requires
            regardless_of_command(p),
        ensures
            self.interleaved ==> picked(self.start(count), p) == step_if(
                p(Step::Export),
                Step::Export,
            ) + step_if(
                self.shows_command_bars && p(
                    Step::StartCommandBars { length: (count - 1) as u64 },
                ),
                Step::StartCommandBars { length: (count - 1) as u64 },
            ) + for_each(
                self.shows_command_bars && p(Step::ShowEstimate(0)),
                self.commands as nat,
                |c: usize| Step::ShowEstimate(c),
            ),
            !self.interleaved ==> picked(self.start(count), p) == step_if(
                self.shows_output && p(Step::SetProgressLength(count)),
                Step::SetProgressLength(count),
            ) + step_if(self.shows_output && p(Step::Advance), Step::Advance),
    {
        if self.interleaved {
            let bars = Step::StartCommandBars { length: (count - 1) as u64 };
            let show = |c: usize| Step::ShowEstimate(c);
            let a = seq![Step::Export];
            let b = step_if(self.shows_command_bars, bars);
            let c = for_each(self.shows_command_bars, self.commands as nat, show);
            lemma_pick_one(Step::Export, p);
            lemma_pick_if(self.shows_command_bars, bars, p);
            assert forall|k: usize| p(#[trigger] show(k)) == p(Step::ShowEstimate(0)) by {
                assert(p(Step::ShowEstimate(k)) == p(Step::ShowEstimate(0)));
            }
            lemma_pick_each(
                self.shows_command_bars,
                self.commands as nat,
                show,
                p,
                p(Step::ShowEstimate(0)),
            );
            lemma_pick_both(a, b, p);
            lemma_pick_both(a + b, c, p);
        } else {
            lemma_pick_if(self.shows_output, Step::SetProgressLength(count), p);
            lemma_pick_if(self.shows_output, Step::Advance, p);
            lemma_pick_both(
                step_if(self.shows_output, Step::SetProgressLength(count)),
                step_if(self.shows_output, Step::Advance),
                p,
            );
        }
    }

    pub(crate) proof fn lemma_pick_from_initial(
        self,
        c: nat,
        p: spec_fn(Step) -> bool,
        block: spec_fn(int, int) -> Seq<Step>,
    )
        requires
            self.wf(),
            c <= self.commands,
            forall|k: usize|
                k < self.commands ==> #[trigger] picked(self.initial_block(k), p) == block(
                    0,
                    k as int,
                ),
        ensures
            picked(self.from_initial(c), p) == in_turn(
                self.commands as int,
                c as int,
                self.commands as int,
                block,
            ) + step_if(p(Step::CountRuns), Step::CountRuns),
        decreases self.commands - c,
    {
        let n = self.commands as int;
        if c >= self.commands {
            lemma_pick_one(Step::CountRuns, p);
            assert(picked(self.from_initial(c), p) =~= in_turn(n, c as int, n, block) + step_if(
                p(Step::CountRuns),
                Step::CountRuns,
            ));
        } else {
            self.lemma_pick_from_initial(c + 1, p, block);
            lemma_pick_both(self.initial_block(c as usize), self.from_initial(c + 1), p);
            assert(picked(self.initial_block(c as usize), p) == block(0, c as int));
            lemma_turn_of(n, 0, c as int);
            assert(0 * n + c == c);
            assert(picked(self.from_initial(c), p) =~= in_turn(n, c as int, n, block) + step_if(
                p(Step::CountRuns),
                Step::CountRuns,
            ));
        }
    }

    pub(crate) proof fn lemma_pick_from_warmup(
        self,
        round: nat,
        c: nat,
        p: spec_fn(Step) -> bool,
        block: spec_fn(int, int) -> Seq<Step>,
    )
        requires
            self.wf(),
            c <= self.commands,
            round < self.warmup_count || c == 0,
            round <= self.warmup_count,
            forall|r: u64, k: usize|
                r < self.warmup_count && k < self.commands ==> #[trigger] picked(self.warmup_block(
                    r,
                    k,
                ), p) == block(r as int, k as int),
        ensures
            picked(self.from_warmup(round, c), p) == in_turn(
                self.commands as int,
                round * self.commands + c,
                self.warmup_count * self.commands,
                block,
            ) + picked(self.middle() + self.from_initial(0), p),
        decreases self.warmup_count - round, self.commands - c,
    {
        let n = self.commands as int;
        let last = self.warmup_count * n;
        let then = picked(self.middle() + self.from_initial(0), p);
        if round >= self.warmup_count {
            assert(in_turn(n, round * n + c, last, block) =~= seq![]);
            assert(in_turn(n, round * n + c, last, block) + then =~= then);
        } else if c >= self.commands {
            self.lemma_pick_from_warmup(round + 1, 0, p, block);
            assert(round * n + n == (round + 1) * n) by (nonlinear_arith);
        } else {
            let next = in_turn(n, round * n + c + 1, last, block);
            self.lemma_pick_from_warmup(round, c + 1, p, block);
            lemma_pick_both(
                self.warmup_block(round as u64, c as usize),
                self.from_warmup(round, c + 1),
                p,
            );
            assert(picked(self.warmup_block(round as u64, c as usize), p) == block(
                round as int,
                c as int,
            ));
            lemma_turn_of(n, round as int, c as int);
            assert(round * n + c < last) by (nonlinear_arith)
                requires
                    0 <= c < n,
                    round < self.warmup_count,
                    last == self.warmup_count * n,
            ;
            assert(in_turn(n, round * n + c, last, block) == block(round as int, c as int) + next);
            assert(block(round as int, c as int) + (next + then) =~= (block(round as int, c as int)
                + next) + then);
        }
    }

    pub(crate) proof fn lemma_pick_from_round(
        self,
        count: u64,
        round: nat,
        c: nat,
        p: spec_fn(Step) -> bool,
        block: spec_fn(int, int) -> Seq<Step>,
    )
        requires
            self.wf(),
            c <= self.commands,
            round < count || c == 0,
            round <= count,
            !p(Step::Export),
            forall|r: u64, k: usize|
                r < count && k < self.commands ==> #[trigger] picked(self.round_block(r, k), p)
                    == block(r as int, k as int),
        ensures
            picked(self.from_round(count, round, c), p) == in_turn(
                self.commands as int,
                round * self.commands + c,
                count * self.commands,
                block,
            ) + picked(self.finish(), p),
        decreases count - round, self.commands - c,
    {
        let n = self.commands as int;
        let last = count * n;
        if round >= count {
            assert(in_turn(n, round * n + c, last, block) =~= seq![]);
        } else if c >= self.commands {
            self.lemma_pick_from_round(count, round + 1, 0, p, block);
            lemma_pick_if(self.interleaved, Step::Export, p);
            lemma_pick_both(self.round_end(), self.from_round(count, round + 1, 0), p);
            assert(round * n + n == (round + 1) * n) by (nonlinear_arith);
        } else {
            self.lemma_pick_from_round(count, round, c + 1, p, block);
            lemma_pick_both(
                self.round_block(round as u64, c as usize),
                self.from_round(count, round, c + 1),
                p,
            );
            assert(picked(self.round_block(round as u64, c as usize), p) == block(
                round as int,
                c as int,
            ));
            lemma_turn_of(n, round as int, c as int);
            assert(round * n + c < last) by (nonlinear_arith)
                requires
                    0 <= c < n,
                    round < count,
                    last == count * n,
            ;
        }
        assert(picked(self.from_round(count, round, c), p) =~= in_turn(
            n,
            round * n + c,
            last,
            block,
        ) + picked(self.finish(), p));
    }
}

/// What each command contributes to the summaries of several commands.
pub open spec fn summary_of(
    announced: bool,
    summarized: bool,
    warned: bool,
    ended: bool,
) -> spec_fn(int, int) -> Seq<Step> {
    |c: int, _round: int|
        step_if(announced, Step::Announce(c as usize)) + step_if(
            summarized,
            Step::Summarize(c as usize),
        ) + step_if(warned, Step::Warn(c as usize)) + step_if(ended, Step::EndSection)
}

/// One more turn adds what the turn contributes.
pub(crate) proof fn lemma_one_turn_more(
    n: int,
    first: int,
    last: int,
    block: spec_fn(int, int) -> Seq<Step>,
)
    requires
        first <= last,
    ensures
        in_turn(n, first, last + 1, block) == in_turn(n, first, last, block) + block(
            last / n,
            last % n,
        ),
    decreases last - first,
{
    let now = block(first / n, first % n);
    if first == last {
        assert(in_turn(n, last + 1, last + 1, block) =~= seq![]);
        assert(in_turn(n, first, last + 1, block) =~= now);
        assert(in_turn(n, first, last, block) + now =~= now);
    } else {
        lemma_one_turn_more(n, first + 1, last, block);
        let rest = in_turn(n, first + 1, last, block);
        let then = block(last / n, last % n);
        assert(now + (rest + then) =~= (now + rest) + then);
    }
}

/// Turns up to some time and turns after it are all the turns.
pub(crate) proof fn lemma_turns_add(
    n: int,
    first: int,
    between: int,
    last: int,
    block: spec_fn(int, int) -> Seq<Step>,
)
    requires
        first <= between <= last,
    ensures
        in_turn(n, first, last, block) == in_turn(n, first, between, block) + in_turn(
            n,
            between,
            last,
            block,
        ),
    decreases between - first,
{
    let rest = in_turn(n, between, last, block);
    if first == between {
        assert(in_turn(n, first, between, block) =~= seq![]);
        assert(in_turn(n, first, between, block) + rest =~= rest);
    } else {
        lemma_turns_add(n, first + 1, between, last, block);
        let now = block(first / n, first % n);
        let near = in_turn(n, first + 1, between, block);
        assert(now + (near + rest) =~= (now + near) + rest);
    }
}

impl Plan {
    pub(crate) proof fn lemma_pick_summaries(self, n: nat, p: spec_fn(Step) -> bool)
        requires
            regardless_of_command(p),
        ensures
            picked(self.summaries(n), p) == in_turn(
                1,
                0,
                n as int,
                summary_of(
                    p(Step::Announce(0)),
                    p(Step::Summarize(0)),
                    p(Step::Warn(0)),
                    p(Step::EndSection),
                ),
            ),
        decreases n,
    {
        let block = summary_of(
            p(Step::Announce(0)),
            p(Step::Summarize(0)),
            p(Step::Warn(0)),
            p(Step::EndSection),
        );
        if n == 0 {
            lemma_pick_none(self.summaries(n), p);
            assert(in_turn(1, 0, 0, block) =~= seq![]);
        } else {
            let c = (n - 1) as usize;
            let four = seq![
                Step::Announce(c),
                Step::Summarize(c),
                Step::Warn(c),
                Step::EndSection,
            ];
            let a = seq![Step::Announce(c)];
            let b = seq![Step::Summarize(c)];
            let w = seq![Step::Warn(c)];
            let e = seq![Step::EndSection];
            self.lemma_pick_summaries((n - 1) as nat, p);
            lemma_pick_both(self.summaries((n - 1) as nat), four, p);
            lemma_pick_one(Step::Announce(c), p);
            lemma_pick_one(Step::Summarize(c), p);
            lemma_pick_one(Step::Warn(c), p);
            lemma_pick_one(Step::EndSection, p);
            lemma_pick_both(a, b, p);
            lemma_pick_both(a + b, w, p);
            lemma_pick_both(a + b + w, e, p);
            assert(four =~= a + b + w + e);
            lemma_one_turn_more(1, 0, n - 1, block);
            lemma_turn_of(1, n - 1, 0);
            assert(p(Step::Announce(c)) == p(Step::Announce(0)));
            assert(p(Step::Summarize(c)) == p(Step::Summarize(0)));
            assert(p(Step::Warn(c)) == p(Step::Warn(0)));
            assert((n - 1) / 1 == n - 1 && (n - 1) % 1 == 0);
            assert(picked(four, p) == block(n - 1, 0)) by {
                assert((n - 1) as usize == c);
            }
        }
    }

    pub(crate) proof fn lemma_pick_finish(self, p: spec_fn(Step) -> bool)
        requires
            regardless_of_command(p),
        ensures
            self.interleaved ==> picked(self.finish(), p) == step_if(
                self.shows_command_bars && p(Step::FinishCommandBars),
                Step::FinishCommandBars,
            ) + for_each(
                self.has_cleanup && p(Step::Cleanup(0)),
                self.commands as nat,
                |c: usize| Step::Cleanup(c),
            ) + if self.shows_output {
                picked(self.summaries(self.commands as nat), p)
            } else {
                seq![]
            },
            !self.interleaved ==> picked(self.finish(), p) == step_if(
                self.shows_output && p(Step::FinishProgress),
                Step::FinishProgress,
            ) + step_if(self.shows_output && p(Step::Summarize(0)), Step::Summarize(0)) + step_if(
                p(Step::Warn(0)),
                Step::Warn(0),
            ) + step_if(self.shows_output && p(Step::EndSection), Step::EndSection) + step_if(
                self.has_cleanup && p(Step::Cleanup(0)),
                Step::Cleanup(0),
            ),
    {
        if self.interleaved {
            let clean = |c: usize| Step::Cleanup(c);
            let a = step_if(self.shows_command_bars, Step::FinishCommandBars);
            let b = for_each(self.has_cleanup, self.commands as nat, clean);
            let c = if self.shows_output {
                self.summaries(self.commands as nat)
            } else {
                seq![]
            };
            lemma_pick_if(self.shows_command_bars, Step::FinishCommandBars, p);
            assert forall|k: usize| p(#[trigger] clean(k)) == p(Step::Cleanup(0)) by {
                assert(p(Step::Cleanup(k)) == p(Step::Cleanup(0)));
            }
            lemma_pick_each(
                self.has_cleanup,
                self.commands as nat,
                clean,
                p,
                p(Step::Cleanup(0)),
            );
            if !self.shows_output {
                lemma_pick_none(c, p);
            }
            lemma_pick_both(a, b, p);
            lemma_pick_both(a + b, c, p);
            assert(self.finish() == a + b + c);
        } else {
            let a = step_if(self.shows_output, Step::FinishProgress);
            let b = step_if(self.shows_output, Step::Summarize(0));
            let c = seq![Step::Warn(0)];
            let d = step_if(self.shows_output, Step::EndSection);
            let e = step_if(self.has_cleanup, Step::Cleanup(0));
            lemma_pick_if(self.shows_output, Step::FinishProgress, p);
            lemma_pick_if(self.shows_output, Step::Summarize(0), p);
            lemma_pick_one(Step::Warn(0), p);
            lemma_pick_if(self.shows_output, Step::EndSection, p);
            lemma_pick_if(self.has_cleanup, Step::Cleanup(0), p);
            lemma_pick_both(a, b, p);
            lemma_pick_both(a + b, c, p);
            lemma_pick_both(a + b + c, d, p);
            lemma_pick_both(a + b + c + d, e, p);
        }
    }

    pub(crate) proof fn lemma_pick_opening(
        self,
        p: spec_fn(Step) -> bool,
        warmup: spec_fn(int, int) -> Seq<Step>,
        initial: spec_fn(int, int) -> Seq<Step>,
    )
        requires
            self.wf(),
            forall|r: u64, k: usize|
                r < self.warmup_count && k < self.commands ==> #[trigger] picked(self.warmup_block(
                    r,
                    k,
                ), p) == warmup(r as int, k as int),
            forall|k: usize|
                k < self.commands ==> #[trigger] picked(self.initial_block(k), p) == initial(
                    0,
                    k as int,
                ),
        ensures
            picked(self.opening(), p) == picked(self.head(), p) + (in_turn(
                self.commands as int,
                0,
                self.warmup_count * self.commands,
                warmup,
            ) + (picked(self.middle(), p) + (in_turn(
                self.commands as int,
                0,
                self.commands as int,
                initial,
            ) + step_if(p(Step::CountRuns), Step::CountRuns)))),
    {
        self.lemma_pick_from_warmup(0, 0, p, warmup);
        self.lemma_pick_from_initial(0, p, initial);
        assert(0 * self.commands + 0 == 0);
        lemma_pick_both(self.head(), self.from_warmup(0, 0), p);
        lemma_pick_both(self.middle(), self.from_initial(0), p);
    }

    pub(crate) proof fn lemma_pick_closing(
        self,
        count: u64,
        p: spec_fn(Step) -> bool,
        timed: spec_fn(int, int) -> Seq<Step>,
    )
        requires
            self.wf(),
            count >= 1,
            !p(Step::Export),
            forall|r: u64, k: usize|
                r < count && k < self.commands ==> #[trigger] picked(self.round_block(r, k), p)
                    == timed(r as int, k as int),
        ensures
            picked(self.closing(count), p) == picked(self.start(count), p) + (in_turn(
                self.commands as int,
                self.commands as int,
                count * self.commands,
                timed,
            ) + picked(self.finish(), p)),
    {
        self.lemma_pick_from_round(count, 1, 0, p, timed);
        assert(1 * self.commands + 0 == self.commands);
        lemma_pick_both(self.start(count), self.from_round(count, 1, 0), p);
    }
}

} // verus!
