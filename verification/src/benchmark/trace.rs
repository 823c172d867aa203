//! What a benchmark has done from its beginning on.

use crate::benchmark::accumulator::Run;
use crate::benchmark::count::run_count_of;
use crate::benchmark::plan::{BenchmarkIteration, Plan, Step};
use crate::benchmark::run::{
    count_is_taken_once, every_timed_run_is_accounted_for, fits, has_completed, has_named,
    run_is_of_a_command, BenchmarkRun, Outcome,
};
use crate::benchmark::timed::{timed_order, timed_runs_alternate, turns};
use crate::number::Second;
use vstd::prelude::*;

verus! {

/// A step that was taken: the benchmark before it, the benchmark that awaits its outcome, the step
/// itself and how it went.
pub struct Taken {
    pub before: BenchmarkRun,
    pub awaiting: BenchmarkRun,
    pub step: Step,
    pub outcome: Outcome,
}

/// Whether the benchmark `after` comes about by taking the step.
pub open spec fn leads_to(taken: Taken, after: BenchmarkRun) -> bool {
    &&& taken.before.wf()
    &&& taken.awaiting.wf()
    &&& has_named(taken.before, taken.awaiting, Some(taken.step))
    &&& fits(taken.step, taken.outcome, taken.before.plan().run_bounds)
    &&& !(taken.outcome is Failed)
    &&& has_completed(taken.awaiting, after, taken.step, taken.outcome)
}

/// Whether a benchmark of the given plan has come from its beginning to `now` by taking the steps of
/// the trace, one after the other.
pub open spec fn is_trace(plan: Plan, trace: Seq<Taken>, now: BenchmarkRun) -> bool
    decreases trace.len(),
{
    if trace.len() == 0 {
        &&& now.plan() == plan
        &&& now.remaining() == plan.opening()
        &&& !now.is_counted()
        &&& now.accumulators().len() == plan.commands
        &&& forall|c: int|
            0 <= c < plan.commands ==> (#[trigger] now.accumulators()[c]).runs().len() == 0
                && now.accumulators()[c].all_succeeded
    } else {
        &&& leads_to(trace.last(), now)
        &&& is_trace(plan, trace.drop_last(), trace.last().before)
    }
}

/// The steps of a trace.
pub open spec fn steps_of(trace: Seq<Taken>) -> Seq<Step> {
    trace.map_values(|taken: Taken| taken.step)
}

/// What the timed runs of command `c` have measured, in order.
pub open spec fn measured_in(trace: Seq<Taken>, c: int) -> Seq<Run>
    decreases trace.len(),
{
    if trace.len() == 0 {
        seq![]
    } else {
        let before = measured_in(trace.drop_last(), c);
        match (trace.last().step, trace.last().outcome) {
            (
                Step::Measure { command, iteration: BenchmarkIteration::Benchmark(_) },
                Outcome::Measured { result, exit_code, .. },
            ) => if command == c {
                before.push(Run { result, exit_code })
            } else {
                before
            },
            _ => before,
        }
    }
}

/// Whether all timed runs of command `c` have succeeded.
pub open spec fn all_succeeded_in(trace: Seq<Taken>, c: int) -> bool
    decreases trace.len(),
{
    if trace.len() == 0 {
        true
    } else {
        let before = all_succeeded_in(trace.drop_last(), c);
        match (trace.last().step, trace.last().outcome) {
            (
                Step::Measure { command, iteration: BenchmarkIteration::Benchmark(_) },
                Outcome::Measured { success, .. },
            ) => before && (command == c ==> success),
            _ => before,
        }
    }
}

/// All steps of a benchmark that are known so far.
pub open spec fn known_steps(run: BenchmarkRun) -> Seq<Step> {
    if run.is_counted() {
        run.plan().opening() + run.plan().closing(run.run_count())
    } else {
        run.plan().opening()
    }
}

/// At any time, the steps that a benchmark has taken and those that remain are the steps of its
/// plan. The accumulators hold what the timed runs have measured, and nothing else.
pub proof fn a_benchmark_follows_its_plan(plan: Plan, trace: Seq<Taken>, now: BenchmarkRun, c: int)
    requires
        is_trace(plan, trace, now),
        0 <= c < plan.commands,
    ensures
        now.plan() == plan,
        now.accumulators().len() == plan.commands,
        steps_of(trace) + now.remaining() == known_steps(now),
        now.accumulators()[c].runs() == measured_in(trace, c),
        now.accumulators()[c].all_succeeded == all_succeeded_in(trace, c),
    decreases trace.len(),
{
    if trace.len() == 0 {
        assert(steps_of(trace) + now.remaining() =~= plan.opening());
        assert(now.accumulators()[c].runs() =~= seq![]);
    } else {
        let taken = trace.last();
        let (before, awaiting, step) = (taken.before, taken.awaiting, taken.step);
        a_benchmark_follows_its_plan(plan, trace.drop_last(), before, c);
        run_is_of_a_command(awaiting);
        assert(steps_of(trace) =~= steps_of(trace.drop_last()).push(step));
        assert(steps_of(trace) + awaiting.remaining() =~= steps_of(trace.drop_last()) + (seq![step]
            + awaiting.remaining()));
        if step == Step::CountRuns {
            count_is_taken_once(awaiting);
            assert(steps_of(trace) =~= plan.opening()) by {
                assert(awaiting.remaining() =~= seq![]);
                assert(steps_of(trace) + awaiting.remaining() =~= steps_of(trace));
            }
        }
    }
}

/// A benchmark that has come to its end has taken exactly the steps of its plan, and each
/// accumulator holds what the timed runs of its command have measured, in the order in which the
/// commands take turns.
pub proof fn a_finished_benchmark_did_its_plan(
    plan: Plan,
    trace: Seq<Taken>,
    now: BenchmarkRun,
    c: int,
)
    requires
        plan.wf(),
        now.wf(),
        is_trace(plan, trace, now),
        now.is_counted(),
        now.remaining().len() == 0,
        0 <= c < plan.commands,
    ensures
        steps_of(trace) == plan.opening() + plan.closing(now.run_count()),
        timed_order(steps_of(trace)) == turns(
            plan.commands as int,
            0,
            now.run_count() * plan.commands,
        ),
        now.accumulators()[c].runs() == measured_in(trace, c),
        now.accumulators()[c].all_succeeded == all_succeeded_in(trace, c),
{
    a_benchmark_follows_its_plan(plan, trace, now, c);
    every_timed_run_is_accounted_for(now, c);
    timed_runs_alternate(plan, now.run_count());
    assert(steps_of(trace) + now.remaining() =~= steps_of(trace));
}

/// A benchmark that has just begun has taken no step.
pub proof fn a_benchmark_begins_without_a_step(plan: Plan, run: BenchmarkRun)
    requires
        run.plan() == plan,
        run.remaining() == plan.opening(),
        !run.is_counted(),
        run.accumulators().len() == plan.commands,
        forall|c: int|
            0 <= c < plan.commands ==> (#[trigger] run.accumulators()[c]).runs().len() == 0
                && run.accumulators()[c].all_succeeded,
    ensures
        is_trace(plan, seq![], run),
{
}

/// Naming a step and telling its outcome adds the step to what a benchmark has done.
pub proof fn each_step_is_added(plan: Plan, trace: Seq<Taken>, taken: Taken, after: BenchmarkRun)
    requires
        is_trace(plan, trace, taken.before),
        leads_to(taken, after),
    ensures
        is_trace(plan, trace.push(taken), after),
{
    assert(trace.push(taken).drop_last() =~= trace);
}

/// The decisive time when a benchmark began.
pub open spec fn total_at_first(trace: Seq<Taken>, now: BenchmarkRun) -> Second {
    if trace.len() == 0 {
        now.total()
    } else {
        trace[0].before.total()
    }
}

/// Of several commands that take turns, the longest total time decides: no total time so far is
/// longer, and it is one of them unless none was above the time at the beginning.
pub proof fn the_longest_total_time_decides(
    plan: Plan,
    trace: Seq<Taken>,
    now: BenchmarkRun,
    i: int,
)
    requires
        plan.wf(),
        plan.interleaved,
        is_trace(plan, trace, now),
        !total_at_first(trace, now).nan(),
        0 <= i <= trace.len(),
    ensures
        !now.total().nan(),
        i < trace.len() && trace[i].step is TotalTime ==> (
        trace[i].outcome matches Outcome::Total(time) ==> !time.nan() ==> time.le(now.total())),
        now.total() == total_at_first(trace, now) || exists|k: int|
            0 <= k < trace.len() && (#[trigger] trace[k]).step is TotalTime && trace[k].outcome
                == Outcome::Total(now.total()),
        total_at_first(trace, now).le(now.total()),
    decreases trace.len(),
{
    if trace.len() > 0 {
        let taken = trace.last();
        let earlier = trace.drop_last();
        let last = trace.len() - 1;
        a_benchmark_follows_its_plan(plan, earlier, taken.before, 0);
        if earlier.len() > 0 {
            assert(earlier[0] == trace[0]);
        }
        the_longest_total_time_decides(
            plan,
            earlier,
            taken.before,
            if i < earlier.len() {
                i
            } else {
                0
            },
        );
        if i < earlier.len() {
            assert(earlier[i] == trace[i]);
        }
        let before = taken.before.total();
        if before != total_at_first(trace, now) {
            let k = choose|k: int|
                0 <= k < earlier.len() && (#[trigger] earlier[k]).step is TotalTime
                    && earlier[k].outcome == Outcome::Total(before);
            assert(trace[k] == earlier[k]);
        }
        if now.total() != before {
            assert(trace[last].step is TotalTime && trace[last].outcome == Outcome::Total(
                now.total(),
            ));
        }
    }
}

/// The number of runs of a benchmark whose runs are counted was counted at one of its steps, from
/// the number that was told for it.
pub proof fn a_counted_number_was_told(plan: Plan, trace: Seq<Taken>, now: BenchmarkRun)
    requires
        plan.wf(),
        is_trace(plan, trace, now),
        now.is_counted(),
    ensures
        exists|k: int|
            0 <= k < trace.len() && (#[trigger] trace[k]).step == Step::CountRuns && (
            trace[k].outcome matches Outcome::Runs(runs) && now.run_count() == run_count_of(
                plan.run_bounds,
                runs,
            )),
    decreases trace.len(),
{
    let taken = trace.last();
    let earlier = trace.drop_last();
    let last = trace.len() - 1;
    a_benchmark_follows_its_plan(plan, earlier, taken.before, 0);
    if taken.step == Step::CountRuns {
        assert(trace[last].step == Step::CountRuns);
    } else {
        a_counted_number_was_told(plan, earlier, taken.before);
        let k = choose|k: int|
            0 <= k < earlier.len() && (#[trigger] earlier[k]).step == Step::CountRuns && (
            earlier[k].outcome matches Outcome::Runs(runs) && taken.before.run_count()
                == run_count_of(plan.run_bounds, runs));
        assert(trace[k] == earlier[k]);
    }
}

} // verus!
