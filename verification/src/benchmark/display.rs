//! What is done and shown around the runs of a benchmark, and how often.

use crate::benchmark::plan::{for_each, step_if, BenchmarkIteration, Plan, ProgressTask, Step};
use crate::benchmark::sequence::{
    in_turn, lemma_none_each, lemma_pick_both, picked, regardless_of_command, summary_of,
};
use vstd::prelude::*;

verus! {

/// Whether `p` picks nothing that belongs to a run, and neither counts nor exports.
pub open spec fn picks_no_runs(p: spec_fn(Step) -> bool) -> bool {
    forall|step: Step|
        #[trigger] p(step) ==> !(step is Measure || step is Prepare || step is Conclude
            || step is TotalTime || step is CountRuns || step is Export)
}

/// What `p` picks of what is shown in the turn of a warmup run.
pub open spec fn shown_warmup(plan: Plan, p: spec_fn(Step) -> bool) -> spec_fn(int, int) -> Seq<Step> {
    |round: int, c: int| step_if(plan.shows_output && p(Step::Advance), Step::Advance)
}

/// What `p` picks of what is shown in the turn of a first timed run.
pub open spec fn shown_initial() -> spec_fn(int, int) -> Seq<Step> {
    |round: int, c: int| Seq::<Step>::empty()
}

/// What `p` picks of what is shown in the turn of a timed run after the first.
pub open spec fn shown_timed(plan: Plan, p: spec_fn(Step) -> bool) -> spec_fn(int, int) -> Seq<Step> {
    |round: int, c: int|
        if plan.interleaved {
            step_if(
                plan.shows_command_bars && p(Step::ShowEstimate(c as usize)),
                Step::ShowEstimate(c as usize),
            ) + step_if(
                plan.shows_command_bars && p(Step::AdvanceCommandBar(c as usize)),
                Step::AdvanceCommandBar(c as usize),
            )
        } else {
            step_if(
                plan.shows_output && p(Step::ShowEstimate(c as usize)),
                Step::ShowEstimate(c as usize),
            ) + step_if(plan.shows_output && p(Step::Advance), Step::Advance)
        }
}

pub(crate) proof fn lemma_nothing_measured(
    plan: Plan,
    p: spec_fn(Step) -> bool,
    c: usize,
    iteration: BenchmarkIteration,
)
    requires
        picks_no_runs(p),
    ensures
        picked(plan.measured(c, iteration), p) == Seq::<Step>::empty(),
{
    plan.lemma_pick_measured(c, iteration, p);
    assert(!p(Step::Prepare(c)) && !p(Step::Conclude(c)) && !p(
        Step::Measure { command: c, iteration },
    ));
    assert(picked(plan.measured(c, iteration), p) =~= Seq::<Step>::empty());
}

pub(crate) proof fn lemma_shown_warmup(plan: Plan, p: spec_fn(Step) -> bool, r: u64, k: usize)
    requires
        picked(plan.measured(k, BenchmarkIteration::Warmup(r)), p) == Seq::<Step>::empty(),
    ensures
        picked(plan.warmup_block(r, k), p) == shown_warmup(plan, p)(r as int, k as int),
{
    let bar = step_if(plan.shows_output && p(Step::Advance), Step::Advance);
    plan.lemma_pick_warmup_block(r, k, p);
    assert(Seq::<Step>::empty() + bar =~= bar);
}

pub(crate) proof fn lemma_shown_initial(plan: Plan, p: spec_fn(Step) -> bool, k: usize)
    requires
        picks_no_runs(p),
    ensures
        picked(plan.initial_block(k), p) == shown_initial()(0, k as int),
{
    lemma_nothing_measured(plan, p, k, BenchmarkIteration::Benchmark(0));
    plan.lemma_pick_initial_block(k, p);
    assert(!p(Step::TotalTime(k)));
    assert(picked(plan.initial_block(k), p) =~= shown_initial()(0, k as int));
}

pub(crate) proof fn lemma_shown_timed(plan: Plan, p: spec_fn(Step) -> bool, r: u64, k: usize)
    requires
        plan.interleaved ==> picked(plan.measured(k, BenchmarkIteration::Benchmark(r)), p)
            == Seq::<Step>::empty(),
        !p(Step::Measure { command: k, iteration: BenchmarkIteration::Benchmark(r) }),
        !p(Step::Prepare(k)),
        !p(Step::Conclude(k)),
    ensures
        picked(plan.round_block(r, k), p) == shown_timed(plan, p)(r as int, k as int),
{
    let nothing = Seq::<Step>::empty();
    let estimate = Step::ShowEstimate(k);
    plan.lemma_pick_round_block(r, k, p);
    if plan.interleaved {
        let a = step_if(plan.shows_command_bars && p(estimate), estimate);
        let b = step_if(
            plan.shows_command_bars && p(Step::AdvanceCommandBar(k)),
            Step::AdvanceCommandBar(k),
        );
        assert(nothing + a + b =~= a + b);
    } else {
        let a = step_if(plan.shows_output && p(estimate), estimate);
        let b = step_if(plan.shows_output && p(Step::Advance), Step::Advance);
        assert(nothing + a + nothing + b + nothing =~= a + b);
    }
}

/// A step that belongs to a run is not picked.
pub(crate) proof fn lemma_runs_not_picked(
    plan: Plan,
    p: spec_fn(Step) -> bool,
    k: usize,
    iteration: BenchmarkIteration,
)
    requires
        picks_no_runs(p),
    ensures
        picked(plan.measured(k, iteration), p) == Seq::<Step>::empty(),
        !p(Step::Measure { command: k, iteration }),
        !p(Step::Prepare(k)),
        !p(Step::Conclude(k)),
{
    lemma_nothing_measured(plan, p, k, iteration);
}

/// What is picked of the opening, but for runs.
pub(crate) proof fn lemma_shown_opening(plan: Plan, p: spec_fn(Step) -> bool)
    requires
        plan.wf(),
        picks_no_runs(p),
    ensures
        picked(plan.opening(), p) == picked(plan.head(), p) + in_turn(
            plan.commands as int,
            0,
            plan.warmup_count * plan.commands,
            shown_warmup(plan, p),
        ) + picked(plan.middle(), p),
{
    let n = plan.commands as int;
    let warmup = shown_warmup(plan, p);
    let initial = shown_initial();
    assert forall|r: u64, k: usize|
        r < plan.warmup_count && k < plan.commands implies #[trigger] picked(plan.warmup_block(
        r,
        k,
    ), p) == warmup(r as int, k as int) by {
        lemma_runs_not_picked(plan, p, k, BenchmarkIteration::Warmup(r));
        lemma_shown_warmup(plan, p, r, k);
    }
    assert forall|k: usize| k < plan.commands implies #[trigger] picked(plan.initial_block(k), p)
        == initial(0, k as int) by {
        lemma_shown_initial(plan, p, k);
    }
    assert(!p(Step::CountRuns));
    plan.lemma_pick_opening(p, warmup, initial);
    lemma_none_each(n, 0, n, initial);
    lemma_joined(
        picked(plan.head(), p),
        in_turn(n, 0, plan.warmup_count * n, warmup),
        picked(plan.middle(), p),
    );
}

pub(crate) proof fn lemma_joined(a: Seq<Step>, b: Seq<Step>, c: Seq<Step>)
    ensures
        a + (b + (c + (Seq::<Step>::empty() + Seq::<Step>::empty()))) == a + b + c,
        a + (b + c) == a + b + c,
{
    assert(a + (b + (c + (Seq::<Step>::empty() + Seq::<Step>::empty()))) =~= a + b + c);
    assert(a + (b + c) =~= a + b + c);
}

/// What is picked of the closing, but for runs.
pub(crate) proof fn lemma_shown_closing(plan: Plan, count: u64, p: spec_fn(Step) -> bool)
    requires
        plan.wf(),
        count >= 1,
        picks_no_runs(p),
    ensures
        picked(plan.closing(count), p) == picked(plan.start(count), p) + in_turn(
            plan.commands as int,
            plan.commands as int,
            count * plan.commands,
            shown_timed(plan, p),
        ) + picked(plan.finish(), p),
{
    let n = plan.commands as int;
    let timed = shown_timed(plan, p);
    assert forall|r: u64, k: usize| r < count && k < plan.commands implies #[trigger] picked(plan.round_block(
        r,
        k,
    ), p) == timed(r as int, k as int) by {
        lemma_runs_not_picked(plan, p, k, BenchmarkIteration::Benchmark(r));
        lemma_shown_timed(plan, p, r, k);
    }
    assert(!p(Step::Export));
    plan.lemma_pick_closing(count, p, timed);
    lemma_joined(
        picked(plan.start(count), p),
        in_turn(n, n, count * n, timed),
        picked(plan.finish(), p),
    );
}

/// What is picked outside the turns of commands.
pub(crate) proof fn lemma_shown_around(plan: Plan, count: u64, p: spec_fn(Step) -> bool)
    requires
        plan.wf(),
        count >= 1,
        picks_no_runs(p),
        !p(Step::Advance),
        forall|c: usize| !#[trigger] p(Step::ShowEstimate(c)),
        forall|c: usize| !#[trigger] p(Step::AdvanceCommandBar(c)),
    ensures
        picked(plan.opening() + plan.closing(count), p) == picked(plan.head(), p)
            + picked(plan.middle(), p) + picked(plan.start(count), p) + picked(plan.finish(), p),
{
    let n = plan.commands as int;
    lemma_shown_opening(plan, p);
    lemma_shown_closing(plan, count, p);
    lemma_none_each(n, 0, plan.warmup_count * n, shown_warmup(plan, p));
    lemma_none_each(n, n, count * n, shown_timed(plan, p));
    lemma_pick_both(plan.opening(), plan.closing(count), p);
    let nothing = Seq::<Step>::empty();
    let head = picked(plan.head(), p);
    let middle = picked(plan.middle(), p);
    let start = picked(plan.start(count), p);
    let finish = picked(plan.finish(), p);
    assert((head + nothing + middle) + (start + nothing + finish) =~= head + middle + start
        + finish);
}

pub(crate) proof fn lemma_head_without(plan: Plan, p: spec_fn(Step) -> bool)
    requires
        regardless_of_command(p),
        !p(Step::AnnounceAll),
        !p(Step::Announce(0)),
        !p(Step::Setup(0)),
        forall|task: ProgressTask, length: u64| !#[trigger] p(Step::StartProgress { task, length }),
    ensures
        picked(plan.head(), p) == Seq::<Step>::empty(),
{
    plan.lemma_pick_head(p);
    assert(picked(plan.head(), p) =~= Seq::<Step>::empty());
}

pub(crate) proof fn lemma_middle_without(plan: Plan, p: spec_fn(Step) -> bool)
    requires
        !p(Step::FinishProgress),
        forall|task: ProgressTask, length: u64| !#[trigger] p(Step::StartProgress { task, length }),
    ensures
        picked(plan.middle(), p) == Seq::<Step>::empty(),
{
    plan.lemma_pick_middle(p);
    assert(picked(plan.middle(), p) =~= Seq::<Step>::empty());
}

pub(crate) proof fn lemma_start_without(plan: Plan, count: u64, p: spec_fn(Step) -> bool)
    requires
        regardless_of_command(p),
        !p(Step::Export),
        !p(Step::Advance),
        !p(Step::ShowEstimate(0)),
        forall|length: u64| !#[trigger] p(Step::StartCommandBars { length }),
        forall|length: u64| !#[trigger] p(Step::SetProgressLength(length)),
    ensures
        picked(plan.start(count), p) == Seq::<Step>::empty(),
{
    plan.lemma_pick_start(count, p);
    assert(picked(plan.start(count), p) =~= Seq::<Step>::empty());
}

pub(crate) proof fn lemma_summaries_without(plan: Plan, p: spec_fn(Step) -> bool)
    requires
        regardless_of_command(p),
        !p(Step::Announce(0)),
        !p(Step::Summarize(0)),
        !p(Step::Warn(0)),
        !p(Step::EndSection),
    ensures
        picked(plan.summaries(plan.commands as nat), p) == Seq::<Step>::empty(),
{
    let block = summary_of(false, false, false, false);
    plan.lemma_pick_summaries(plan.commands as nat, p);
    assert forall|c: int, round: int| (#[trigger] block(c, round)).len() == 0 by {}
    lemma_none_each(1, 0, plan.commands as int, block);
}

/// Of what follows the last run, only the cleanup commands may be picked.
pub(crate) proof fn lemma_finish_with_cleanups(plan: Plan, p: spec_fn(Step) -> bool)
    requires
        plan.wf(),
        regardless_of_command(p),
        !p(Step::FinishCommandBars),
        !p(Step::FinishProgress),
        !p(Step::Announce(0)),
        !p(Step::Summarize(0)),
        !p(Step::Warn(0)),
        !p(Step::EndSection),
    ensures
        picked(plan.finish(), p) == for_each(
            plan.has_cleanup && p(Step::Cleanup(0)),
            plan.commands as nat,
            |c: usize| Step::Cleanup(c),
        ),
{
    let all = for_each(
        plan.has_cleanup && p(Step::Cleanup(0)),
        plan.commands as nat,
        |c: usize| Step::Cleanup(c),
    );
    plan.lemma_pick_finish(p);
    lemma_summaries_without(plan, p);
    assert(picked(plan.finish(), p) =~= all);
}

/// Where there is a setup command, it is run once for each command, in their order, and likewise the
/// cleanup command. Without one nothing is set up, or cleaned up.
pub proof fn each_command_is_set_up_and_cleaned_up_once(plan: Plan, count: u64)
    requires
        plan.wf(),
        count >= 1,
    ensures
        ({
            let steps = plan.opening() + plan.closing(count);
            let n = plan.commands as nat;
            &&& steps.filter(|step: Step| step is Setup) == Seq::new(
                if plan.has_setup {
                    n
                } else {
                    0
                },
                |c: int| Step::Setup(c as usize),
            )
            &&& steps.filter(|step: Step| step is Cleanup) == Seq::new(
                if plan.has_cleanup {
                    n
                } else {
                    0
                },
                |c: int| Step::Cleanup(c as usize),
            )
        }),
{
    let steps = plan.opening() + plan.closing(count);
    let n = plan.commands as nat;
    lemma_setups(plan, count);
    lemma_cleanups(plan, count);
    assert(for_each(plan.has_setup, n, |c: usize| Step::Setup(c)) =~= Seq::new(
        if plan.has_setup {
            n
        } else {
            0
        },
        |c: int| Step::Setup(c as usize),
    ));
    assert(for_each(plan.has_cleanup, n, |c: usize| Step::Cleanup(c)) =~= Seq::new(
        if plan.has_cleanup {
            n
        } else {
            0
        },
        |c: int| Step::Cleanup(c as usize),
    ));
    reveal(picked);
}

pub(crate) proof fn lemma_head_with_setups(plan: Plan, p: spec_fn(Step) -> bool)
    requires
        regardless_of_command(p),
        !p(Step::AnnounceAll),
        !p(Step::Announce(0)),
        p(Step::Setup(0)),
        forall|task: ProgressTask, length: u64| !#[trigger] p(Step::StartProgress { task, length }),
    ensures
        picked(plan.head(), p) == for_each(
            plan.has_setup,
            plan.commands as nat,
            |c: usize| Step::Setup(c),
        ),
{
    let all = for_each(plan.has_setup, plan.commands as nat, |c: usize| Step::Setup(c));
    let nothing = Seq::<Step>::empty();
    plan.lemma_pick_head(p);
    assert(nothing + all + nothing =~= all);
}

pub(crate) proof fn lemma_rest_is_empty(a: Seq<Step>, b: Seq<Step>, c: Seq<Step>, d: Seq<Step>)
    ensures
        b.len() == 0 && c.len() == 0 && d.len() == 0 ==> a + b + c + d == a,
        a.len() == 0 && b.len() == 0 && c.len() == 0 ==> a + b + c + d == d,
        c.len() == 0 && d.len() == 0 ==> a + b + c + d == a + b,
        b.len() == 0 && c.len() == 0 ==> a + b + c + d == a + d,
        a.len() == 0 && b.len() == 0 ==> a + b + c + d == c + d,
{
    if b.len() == 0 && c.len() == 0 && d.len() == 0 {
        assert(a + b + c + d =~= a);
    }
    if a.len() == 0 && b.len() == 0 && c.len() == 0 {
        assert(a + b + c + d =~= d);
    }
    if c.len() == 0 && d.len() == 0 {
        assert(a + b + c + d =~= a + b);
    }
    if b.len() == 0 && c.len() == 0 {
        assert(a + b + c + d =~= a + d);
    }
    if a.len() == 0 && b.len() == 0 {
        assert(a + b + c + d =~= c + d);
    }
}

pub(crate) proof fn lemma_setups(plan: Plan, count: u64)
    requires
        plan.wf(),
        count >= 1,
    ensures
        picked(plan.opening() + plan.closing(count), |step: Step| step is Setup) == for_each(
            plan.has_setup,
            plan.commands as nat,
            |c: usize| Step::Setup(c),
        ),
{
    let p = |step: Step| step is Setup;
    lemma_shown_around(plan, count, p);
    lemma_head_with_setups(plan, p);
    lemma_middle_without(plan, p);
    lemma_start_without(plan, count, p);
    lemma_finish_with_cleanups(plan, p);
    lemma_rest_is_empty(
        picked(plan.head(), p),
        picked(plan.middle(), p),
        picked(plan.start(count), p),
        picked(plan.finish(), p),
    );
}

pub(crate) proof fn lemma_cleanups(plan: Plan, count: u64)
    requires
        plan.wf(),
        count >= 1,
    ensures
        picked(plan.opening() + plan.closing(count), |step: Step| step is Cleanup) == for_each(
            plan.has_cleanup,
            plan.commands as nat,
            |c: usize| Step::Cleanup(c),
        ),
{
    let p = |step: Step| step is Cleanup;
    lemma_shown_around(plan, count, p);
    lemma_head_without(plan, p);
    lemma_middle_without(plan, p);
    lemma_start_without(plan, count, p);
    lemma_finish_with_cleanups(plan, p);
    lemma_rest_is_empty(
        picked(plan.head(), p),
        picked(plan.middle(), p),
        picked(plan.start(count), p),
        picked(plan.finish(), p),
    );
}

} // verus!
