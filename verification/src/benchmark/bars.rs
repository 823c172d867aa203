//! How progress bars and summaries go along with the runs of a benchmark.

use crate::benchmark::display::{
    lemma_head_without, lemma_middle_without, lemma_rest_is_empty, lemma_shown_around,
    lemma_start_without, lemma_summaries_without,
};
use crate::benchmark::plan::{for_each, step_if, Plan, ProgressTask, Step};
use crate::benchmark::sequence::{in_turn, lemma_one_turn_more, picked, summary_of};
use vstd::prelude::*;

verus! {

/// Where each turn contributes two steps, they come in pairs.
pub(crate) proof fn lemma_two_each(
    n: int,
    first: int,
    last: int,
    block: spec_fn(int, int) -> Seq<Step>,
    a: spec_fn(int, int) -> Step,
    b: spec_fn(int, int) -> Step,
    t: int,
)
    requires
        0 <= t < last - first,
        forall|round: int, c: int| #[trigger] block(round, c) == seq![a(round, c), b(round, c)],
    ensures
        in_turn(n, first, last, block).len() == 2 * (last - first),
        in_turn(n, first, last, block)[2 * t] == a((first + t) / n, (first + t) % n),
        in_turn(n, first, last, block)[2 * t + 1] == b((first + t) / n, (first + t) % n),
    decreases last - first,
{
    let rest = in_turn(n, first + 1, last, block);
    let all = in_turn(n, first, last, block);
    let now = block(first / n, first % n);
    assert(now == seq![a(first / n, first % n), b(first / n, first % n)]);
    assert(all == now + rest);
    if first + 1 == last {
        assert(rest =~= seq![]);
    } else if t > 0 {
        lemma_two_each(n, first + 1, last, block, a, b, t - 1);
        assert(all[2 * t] == rest[2 * (t - 1)]);
        assert(all[2 * t + 1] == rest[2 * (t - 1) + 1]);
        assert(first + 1 + (t - 1) == first + t);
    } else {
        lemma_two_each(n, first + 1, last, block, a, b, 0);
    }
}

/// The summaries of several commands hold four steps for each of them.
proof fn lemma_four_each(last: int, c: int)
    requires
        0 <= c < last,
    ensures
        ({
            let all = in_turn(1, 0, last, summary_of(true, true, true, true));
            &&& all.len() == 4 * last
            &&& all[4 * c] == Step::Announce(c as usize)
            &&& all[4 * c + 1] == Step::Summarize(c as usize)
            &&& all[4 * c + 2] == Step::Warn(c as usize)
            &&& all[4 * c + 3] == Step::EndSection
        }),
    decreases last,
{
    let block = summary_of(true, true, true, true);
    let all = in_turn(1, 0, last, block);
    let before = in_turn(1, 0, last - 1, block);
    let now = block(last - 1, 0);
    lemma_one_turn_more(1, 0, last - 1, block);
    assert((last - 1) / 1 == last - 1 && (last - 1) % 1 == 0);
    assert(all == before + now);
    assert(now =~= seq![
        Step::Announce((last - 1) as usize),
        Step::Summarize((last - 1) as usize),
        Step::Warn((last - 1) as usize),
        Step::EndSection,
    ]);
    if last == 1 {
        assert(before =~= seq![]);
    } else if c < last - 1 {
        lemma_four_each(last - 1, c);
    } else {
        lemma_four_each(last - 1, 0);
    }
}

/// Where output is shown, several commands that take turns are announced together before they are
/// run. Afterwards, each of them in its order is announced, summarized and warned about, and an
/// empty line follows.
pub proof fn several_commands_are_reported_in_order(plan: Plan, count: u64, c: usize)
    requires
        plan.wf(),
        count >= 1,
        plan.interleaved,
        plan.shows_output,
        c < plan.commands,
    ensures
        ({
            let reports = (plan.opening() + plan.closing(count)).filter(
                |step: Step|
                    step is AnnounceAll || step is Announce || step is Summarize || step is Warn
                        || step is EndSection,
            );
            &&& reports.len() == 1 + 4 * plan.commands
            &&& reports[0] == Step::AnnounceAll
            &&& reports[1 + 4 * c] == Step::Announce(c)
            &&& reports[2 + 4 * c] == Step::Summarize(c)
            &&& reports[3 + 4 * c] == Step::Warn(c)
            &&& reports[4 + 4 * c] == Step::EndSection
        }),
{
    let n = plan.commands as int;
    let p = |step: Step|
        step is AnnounceAll || step is Announce || step is Summarize || step is Warn
            || step is EndSection;
    lemma_shown_around(plan, count, p);
    lemma_middle_without(plan, p);
    lemma_start_without(plan, count, p);
    plan.lemma_pick_head(p);
    assert(picked(plan.head(), p) =~= seq![Step::AnnounceAll]);
    let all = in_turn(1, 0, n, summary_of(true, true, true, true));
    plan.lemma_pick_summaries(plan.commands as nat, p);
    plan.lemma_pick_finish(p);
    assert(picked(plan.finish(), p) =~= all);
    lemma_rest_is_empty(
        picked(plan.head(), p),
        picked(plan.middle(), p),
        picked(plan.start(count), p),
        picked(plan.finish(), p),
    );
    lemma_four_each(n, c as int);
    let reports = picked(plan.opening() + plan.closing(count), p);
    assert(reports == seq![Step::AnnounceAll] + all);
    assert(reports[1 + 4 * c] == all[4 * c as int]);
    assert(reports[2 + 4 * c] == all[4 * c + 1]);
    assert(reports[3 + 4 * c] == all[4 * c + 2]);
    assert(reports[4 + 4 * c] == all[4 * c + 3]);
    reveal(picked);
}

/// What is reported of a single command, or of several without output.
spec fn short_report(plan: Plan) -> Seq<Step> {
    if plan.interleaved {
        seq![]
    } else if plan.shows_output {
        seq![Step::Announce(0), Step::Summarize(0), Step::Warn(0), Step::EndSection]
    } else {
        seq![Step::Warn(0)]
    }
}

proof fn lemma_short_report(plan: Plan, count: u64, p: spec_fn(Step) -> bool)
    requires
        plan.wf(),
        count >= 1,
        !plan.interleaved || !plan.shows_output,
        p == (|step: Step|
            step is AnnounceAll || step is Announce || step is Summarize || step is Warn
                || step is EndSection),
    ensures
        picked(plan.opening() + plan.closing(count), p) == short_report(plan),
{
    let a = picked(plan.head(), p);
    let d = picked(plan.finish(), p);
    lemma_shown_around(plan, count, p);
    lemma_middle_without(plan, p);
    lemma_start_without(plan, count, p);
    lemma_rest_is_empty(a, picked(plan.middle(), p), picked(plan.start(count), p), d);
    plan.lemma_pick_head(p);
    plan.lemma_pick_finish(p);
    assert(a =~= step_if(plan.shows_output, Step::Announce(0)));
    if plan.interleaved {
        assert(d =~= seq![]);
    } else {
        assert(d =~= step_if(plan.shows_output, Step::Summarize(0)) + seq![Step::Warn(0)] + step_if(
            plan.shows_output,
            Step::EndSection,
        ));
    }
    assert(a + d =~= short_report(plan));
}

/// A single command is announced, summarized and warned about, and an empty line follows. Where
/// output is disabled, only the warnings remain. Of several commands that take turns, nothing is
/// reported then.
pub proof fn one_command_is_reported_in_order(plan: Plan, count: u64)
    requires
        plan.wf(),
        count >= 1,
        !plan.interleaved || !plan.shows_output,
    ensures
        (plan.opening() + plan.closing(count)).filter(
            |step: Step|
                step is AnnounceAll || step is Announce || step is Summarize || step is Warn
                    || step is EndSection,
        ) == if plan.interleaved {
            seq![]
        } else if plan.shows_output {
            seq![Step::Announce(0), Step::Summarize(0), Step::Warn(0), Step::EndSection]
        } else {
            seq![Step::Warn(0)]
        },
{
    let p = |step: Step|
        step is AnnounceAll || step is Announce || step is Summarize || step is Warn
            || step is EndSection;
    lemma_short_report(plan, count, p);
    reveal(picked);
}

/// The progress bars of a benchmark.
spec fn bars_of(plan: Plan, count: u64) -> Seq<Step> {
    (if plan.shows_output && plan.warmup_count > 0 {
        seq![
            Step::StartProgress {
                task: ProgressTask::WarmupRuns,
                length: (plan.warmup_count * plan.commands) as u64,
            },
            Step::FinishProgress,
        ]
    } else {
        seq![]
    }) + (if plan.shows_output && !plan.interleaved {
        seq![
            Step::StartProgress {
                task: ProgressTask::InitialMeasurement,
                length: plan.run_bounds.min,
            },
            Step::SetProgressLength(count),
            Step::FinishProgress,
        ]
    } else {
        seq![]
    })
}

proof fn lemma_bars(plan: Plan, count: u64, p: spec_fn(Step) -> bool)
    requires
        plan.wf(),
        count >= 1,
        p == (|step: Step|
            step is StartProgress || step is SetProgressLength || step is FinishProgress),
    ensures
        picked(plan.opening() + plan.closing(count), p) == bars_of(plan, count),
{
    let warmup = Step::StartProgress {
        task: ProgressTask::WarmupRuns,
        length: (plan.warmup_count * plan.commands) as u64,
    };
    let initial = Step::StartProgress {
        task: ProgressTask::InitialMeasurement,
        length: plan.run_bounds.min,
    };
    let warm = plan.shows_output && plan.warmup_count > 0;
    let single = plan.shows_output && !plan.interleaved;
    let a = step_if(warm, warmup);
    let b = step_if(warm, Step::FinishProgress) + step_if(single, initial);
    let c = step_if(single, Step::SetProgressLength(count));
    let d = step_if(single, Step::FinishProgress);
    lemma_shown_around(plan, count, p);
    assert(picked(plan.head(), p) =~= a) by {
        plan.lemma_pick_head(p);
    }
    assert(picked(plan.middle(), p) =~= b) by {
        plan.lemma_pick_middle(p);
    }
    assert(picked(plan.start(count), p) =~= c) by {
        plan.lemma_pick_start(count, p);
    }
    assert(picked(plan.finish(), p) =~= d) by {
        plan.lemma_pick_finish(p);
        lemma_summaries_without(plan, p);
    }
    lemma_bars_join(plan, count, a, b, c, d);
}

proof fn lemma_bars_join(
    plan: Plan,
    count: u64,
    a: Seq<Step>,
    b: Seq<Step>,
    c: Seq<Step>,
    d: Seq<Step>,
)
    requires
        ({
            let warm = plan.shows_output && plan.warmup_count > 0;
            let single = plan.shows_output && !plan.interleaved;
            &&& a == step_if(
                warm,
                Step::StartProgress {
                    task: ProgressTask::WarmupRuns,
                    length: (plan.warmup_count * plan.commands) as u64,
                },
            )
            &&& b == step_if(warm, Step::FinishProgress) + step_if(
                single,
                Step::StartProgress {
                    task: ProgressTask::InitialMeasurement,
                    length: plan.run_bounds.min,
                },
            )
            &&& c == step_if(single, Step::SetProgressLength(count))
            &&& d == step_if(single, Step::FinishProgress)
        }),
    ensures
        a + b + c + d == bars_of(plan, count),
{
    assert(a + b + c + d =~= bars_of(plan, count));
}

/// A progress bar is shown for the warmup runs, where there are any, as long as there are warmup
/// runs of all commands together. A second one is shown for the timed runs of a single command: its
/// length is first the least number of runs, and then the number of runs that was counted. Each bar
/// is removed before the next one is shown.
pub proof fn progress_bars_are_as_long_as_there_are_runs(plan: Plan, count: u64)
    requires
        plan.wf(),
        count >= 1,
    ensures
        (plan.opening() + plan.closing(count)).filter(
            |step: Step| step is StartProgress || step is SetProgressLength || step is FinishProgress,
        ) == (if plan.shows_output && plan.warmup_count > 0 {
            seq![
                Step::StartProgress {
                    task: ProgressTask::WarmupRuns,
                    length: (plan.warmup_count * plan.commands) as u64,
                },
                Step::FinishProgress,
            ]
        } else {
            seq![]
        }) + (if plan.shows_output && !plan.interleaved {
            seq![
                Step::StartProgress {
                    task: ProgressTask::InitialMeasurement,
                    length: plan.run_bounds.min,
                },
                Step::SetProgressLength(count),
                Step::FinishProgress,
            ]
        } else {
            seq![]
        }),
{
    let p = |step: Step|
        step is StartProgress || step is SetProgressLength || step is FinishProgress;
    lemma_bars(plan, count, p);
    reveal(picked);
}

/// The progress bars of several commands.
spec fn command_bars_of(plan: Plan, count: u64) -> Seq<Step> {
    if plan.interleaved && plan.shows_command_bars {
        seq![Step::StartCommandBars { length: (count - 1) as u64 }, Step::FinishCommandBars]
    } else {
        seq![]
    }
}

proof fn lemma_command_bars(plan: Plan, count: u64, p: spec_fn(Step) -> bool)
    requires
        plan.wf(),
        count >= 1,
        p == (|step: Step| step is StartCommandBars || step is FinishCommandBars),
    ensures
        picked(plan.opening() + plan.closing(count), p) == command_bars_of(plan, count),
{
    let shown = plan.interleaved && plan.shows_command_bars;
    let a = step_if(shown, Step::StartCommandBars { length: (count - 1) as u64 });
    let b = step_if(shown, Step::FinishCommandBars);
    lemma_shown_around(plan, count, p);
    lemma_head_without(plan, p);
    lemma_middle_without(plan, p);
    assert(picked(plan.start(count), p) =~= a) by {
        plan.lemma_pick_start(count, p);
    }
    assert(picked(plan.finish(), p) =~= b) by {
        plan.lemma_pick_finish(p);
        lemma_summaries_without(plan, p);
    }
    lemma_rest_is_empty(picked(plan.head(), p), picked(plan.middle(), p), a, b);
    assert(a + b =~= command_bars_of(plan, count));
}

/// Each command of several has a progress bar of its own from the second timed run on, where such
/// bars are shown. They are shown once and removed once.
pub proof fn command_bars_are_shown_once(plan: Plan, count: u64)
    requires
        plan.wf(),
        count >= 1,
    ensures
        (plan.opening() + plan.closing(count)).filter(
            |step: Step| step is StartCommandBars || step is FinishCommandBars,
        ) == if plan.interleaved && plan.shows_command_bars {
            seq![
                Step::StartCommandBars { length: (count - 1) as u64 },
                Step::FinishCommandBars,
            ]
        } else {
            seq![]
        },
{
    let p = |step: Step| step is StartCommandBars || step is FinishCommandBars;
    lemma_command_bars(plan, count, p);
    reveal(picked);
}

/// Whether a step tells what came out of the runs.
spec fn tells(step: Step) -> bool {
    step is Summarize || step is Warn || step is EndSection
}

/// Whether a step belongs to a run.
spec fn runs(step: Step) -> bool {
    step is Measure || step is Prepare || step is Conclude
}

spec fn tells_last(steps: Seq<Step>) -> bool {
    forall|i: int, j: int|
        0 <= i < j < steps.len() && tells(#[trigger] steps[i]) ==> !runs(#[trigger] steps[j])
}

/// Steps that tell nothing may come first.
proof fn lemma_tells_last(a: Seq<Step>, b: Seq<Step>)
    requires
        forall|k: int| 0 <= k < a.len() ==> !tells(#[trigger] a[k]),
        tells_last(b),
    ensures
        tells_last(a + b),
{
    let steps = a + b;
    assert forall|i: int, j: int|
        0 <= i < j < steps.len() && tells(#[trigger] steps[i]) implies !runs(#[trigger] steps[j]) by {
        if i < a.len() {
            assert(steps[i] == a[i]);
        } else {
            assert(steps[i] == b[i - a.len()]);
            assert(steps[j] == b[j - a.len()]);
        }
    }
}

proof fn lemma_summaries_run_nothing(plan: Plan, n: nat, k: int)
    requires
        0 <= k < plan.summaries(n).len(),
    ensures
        !runs(plan.summaries(n)[k]),
    decreases n,
{
    if n > 0 {
        let before = plan.summaries((n - 1) as nat);
        if k < before.len() {
            lemma_summaries_run_nothing(plan, (n - 1) as nat, k);
        }
    }
}

proof fn lemma_finish_runs_nothing(plan: Plan)
    ensures
        forall|k: int| 0 <= k < plan.finish().len() ==> !runs(#[trigger] plan.finish()[k]),
{
    let finish = plan.finish();
    let summaries = plan.summaries(plan.commands as nat);
    assert forall|k: int| 0 <= k < finish.len() implies !runs(#[trigger] finish[k]) by {
        if plan.interleaved {
            let before = step_if(plan.shows_command_bars, Step::FinishCommandBars) + for_each(
                plan.has_cleanup,
                plan.commands as nat,
                |c: usize| Step::Cleanup(c),
            );
            if k >= before.len() {
                assert(plan.shows_output);
                assert(finish[k] == summaries[k - before.len()]);
                lemma_summaries_run_nothing(plan, plan.commands as nat, k - before.len());
            } else {
                assert(finish[k] == before[k]);
            }
        }
    }
}

proof fn lemma_round_tells_nothing(plan: Plan, round: u64, c: usize)
    ensures
        forall|k: int|
            0 <= k < plan.round_block(round, c).len() ==> !tells(
                #[trigger] plan.round_block(round, c)[k],
            ),
{
    let block = plan.round_block(round, c);
    if plan.interleaved {
        assert forall|k: int| 0 <= k < block.len() implies !tells(#[trigger] block[k]) by {}
    } else {
        assert forall|k: int| 0 <= k < block.len() implies !tells(#[trigger] block[k]) by {}
    }
}

proof fn lemma_nothing_runs_last(steps: Seq<Step>)
    requires
        forall|k: int| 0 <= k < steps.len() ==> !runs(#[trigger] steps[k]),
    ensures
        tells_last(steps),
{
}

proof fn lemma_closing_tells_last(plan: Plan, count: u64, round: nat, c: nat)
    requires
        c <= plan.commands,
    ensures
        tells_last(plan.from_round(count, round, c)),
    decreases count - round, plan.commands - c,
{
    if round >= count {
        lemma_finish_runs_nothing(plan);
        lemma_nothing_runs_last(plan.finish());
    } else if c >= plan.commands {
        lemma_closing_tells_last(plan, count, round + 1, 0);
        lemma_tells_last(plan.round_end(), plan.from_round(count, round + 1, 0));
    } else {
        lemma_closing_tells_last(plan, count, round, c + 1);
        lemma_round_tells_nothing(plan, round as u64, c as usize);
        lemma_tells_last(
            plan.round_block(round as u64, c as usize),
            plan.from_round(count, round, c + 1),
        );
    }
}

proof fn lemma_initial_tells_nothing(plan: Plan, c: nat, k: int)
    requires
        c <= plan.commands,
        0 <= k < plan.from_initial(c).len(),
    ensures
        !tells(plan.from_initial(c)[k]),
    decreases plan.commands - c,
{
    if c < plan.commands {
        let block = plan.initial_block(c as usize);
        if k >= block.len() {
            lemma_initial_tells_nothing(plan, c + 1, k - block.len());
        } else {
            assert(plan.from_initial(c)[k] == block[k]);
        }
    }
}

proof fn lemma_warmup_tells_nothing(plan: Plan, round: nat, c: nat, k: int)
    requires
        c <= plan.commands,
        0 <= k < plan.from_warmup(round, c).len(),
    ensures
        !tells(plan.from_warmup(round, c)[k]),
    decreases plan.warmup_count - round, plan.commands - c,
{
    if round >= plan.warmup_count {
        if k >= plan.middle().len() {
            lemma_initial_tells_nothing(plan, 0, k - plan.middle().len());
        } else {
            assert(plan.from_warmup(round, c)[k] == plan.middle()[k]);
        }
    } else if c >= plan.commands {
        lemma_warmup_tells_nothing(plan, round + 1, 0, k);
    } else {
        let block = plan.warmup_block(round as u64, c as usize);
        if k >= block.len() {
            lemma_warmup_tells_nothing(plan, round, c + 1, k - block.len());
        } else {
            assert(plan.from_warmup(round, c)[k] == block[k]);
        }
    }
}

proof fn lemma_opening_tells_nothing(plan: Plan, k: int)
    requires
        0 <= k < plan.opening().len(),
    ensures
        !tells(plan.opening()[k]),
{
    if k >= plan.head().len() {
        lemma_warmup_tells_nothing(plan, 0, 0, k - plan.head().len());
    } else {
        assert(plan.opening()[k] == plan.head()[k]);
    }
}

/// Summaries and warnings come when all runs are over: no run, preparation or conclusion follows
/// them. Where anything is shown, the announcement is the very first step.
pub proof fn summaries_follow_all_runs(plan: Plan, count: u64, i: int, j: int)
    requires
        plan.wf(),
        count >= 1,
        0 <= i < j < (plan.opening() + plan.closing(count)).len(),
    ensures
        ({
            let steps = plan.opening() + plan.closing(count);
            &&& steps[i] is Summarize || steps[i] is Warn || steps[i] is EndSection ==> !(
            steps[j] is Measure || steps[j] is Prepare || steps[j] is Conclude)
            &&& plan.shows_output ==> steps[0] == if plan.interleaved {
                Step::AnnounceAll
            } else {
                Step::Announce(0)
            }
        }),
{
    let steps = plan.opening() + plan.closing(count);
    lemma_closing_tells_last(plan, count, 1, 0);
    lemma_tells_last(plan.start(count), plan.from_round(count, 1, 0));
    assert forall|k: int| 0 <= k < plan.opening().len() implies !tells(
        #[trigger] plan.opening()[k],
    ) by {
        lemma_opening_tells_nothing(plan, k);
    }
    lemma_tells_last(plan.opening(), plan.closing(count));
    assert(tells(steps[i]) ==> !runs(steps[j]));
}

} // verus!
