//! The course of a benchmark: how often each command is run, and in which order.

use crate::benchmark::plan::{for_each, step_if, BenchmarkIteration, Plan, Step};
use crate::benchmark::sequence::{
    in_turn, lemma_none_each, lemma_one_each, lemma_pick_both, lemma_pick_none, lemma_turn_of,
    lemma_turns_add, picked,
};
use vstd::arithmetic::div_mod::lemma_fundamental_div_mod;
use vstd::prelude::*;

verus! {

/// A number of whole rounds later it is the turn of the same command.
proof fn lemma_rounds_later(n: int, t: int, rounds: int)
    requires
        n > 0,
    ensures
        (t + rounds * n) / n == t / n + rounds,
        (t + rounds * n) % n == t % n,
{
    lemma_fundamental_div_mod(t, n);
    assert(t + rounds * n == (t / n + rounds) * n + t % n) by (nonlinear_arith)
        requires
            t == n * (t / n) + t % n,
    ;
    lemma_turn_of(n, t / n + rounds, t % n);
}

/// Whether `p` picks only runs and what belongs to a run.
spec fn picks_runs(p: spec_fn(Step) -> bool) -> bool {
    forall|step: Step|
        #[trigger] p(step) ==> step is Measure || step is Prepare || step is Conclude
            || step is TotalTime
}

/// What `p` picks of a run with the preparation before and the conclusion after it.
spec fn picked_run(
    plan: Plan,
    p: spec_fn(Step) -> bool,
    c: usize,
    iteration: BenchmarkIteration,
) -> Seq<Step> {
    let run = Step::Measure { command: c, iteration };
    step_if(plan.has_preparation && p(Step::Prepare(c)), Step::Prepare(c)) + step_if(p(run), run)
        + step_if(plan.has_conclusion && p(Step::Conclude(c)), Step::Conclude(c))
}

/// What `p` picks of each warmup run.
spec fn warmup_turn(plan: Plan, p: spec_fn(Step) -> bool) -> spec_fn(int, int) -> Seq<Step> {
    |round: int, c: int|
        picked_run(plan, p, c as usize, BenchmarkIteration::Warmup(round as u64))
}

/// What `p` picks of each first timed run.
spec fn initial_turn(plan: Plan, p: spec_fn(Step) -> bool) -> spec_fn(int, int) -> Seq<Step> {
    |round: int, c: int|
        picked_run(plan, p, c as usize, BenchmarkIteration::Benchmark(0)) + step_if(
            p(Step::TotalTime(c as usize)),
            Step::TotalTime(c as usize),
        )
}

/// What `p` picks of each timed run after the first.
spec fn timed_turn(plan: Plan, p: spec_fn(Step) -> bool) -> spec_fn(int, int) -> Seq<Step> {
    |round: int, c: int|
        picked_run(plan, p, c as usize, BenchmarkIteration::Benchmark(round as u64))
}

proof fn lemma_picked_blocks(plan: Plan, p: spec_fn(Step) -> bool, r: u64, k: usize)
    requires
        picks_runs(p),
    ensures
        picked(plan.warmup_block(r, k), p) == warmup_turn(plan, p)(r as int, k as int),
        picked(plan.initial_block(k), p) == initial_turn(plan, p)(0, k as int),
        picked(plan.round_block(r, k), p) == timed_turn(plan, p)(r as int, k as int),
{
    plan.lemma_pick_measured(k, BenchmarkIteration::Warmup(r), p);
    plan.lemma_pick_warmup_block(r, k, p);
    assert(picked(plan.warmup_block(r, k), p) =~= picked_run(
        plan,
        p,
        k,
        BenchmarkIteration::Warmup(r),
    ));
    plan.lemma_pick_measured(k, BenchmarkIteration::Benchmark(0), p);
    plan.lemma_pick_initial_block(k, p);
    plan.lemma_pick_measured(k, BenchmarkIteration::Benchmark(r), p);
    plan.lemma_pick_round_block(r, k, p);
    assert(picked(plan.round_block(r, k), p) =~= picked_run(
        plan,
        p,
        k,
        BenchmarkIteration::Benchmark(r),
    ));
}

/// Steps that belong to a run stand only in the turns of commands.
proof fn lemma_only_in_turns(plan: Plan, count: u64, p: spec_fn(Step) -> bool)
    requires
        plan.wf(),
        count >= 1,
        picks_runs(p),
    ensures
        picked(plan.opening(), p) == in_turn(
            plan.commands as int,
            0,
            plan.warmup_count * plan.commands,
            warmup_turn(plan, p),
        ) + in_turn(plan.commands as int, 0, plan.commands as int, initial_turn(plan, p)),
        picked(plan.closing(count), p) == in_turn(
            plan.commands as int,
            plan.commands as int,
            count * plan.commands,
            timed_turn(plan, p),
        ),
{
    let n = plan.commands as int;
    let warmup = warmup_turn(plan, p);
    let initial = initial_turn(plan, p);
    let timed = timed_turn(plan, p);
    assert forall|r: u64, k: usize|
        r < plan.warmup_count && k < plan.commands implies #[trigger] picked(plan.warmup_block(
        r,
        k,
    ), p) == warmup(r as int, k as int) by {
        lemma_picked_blocks(plan, p, r, k);
    }
    assert forall|k: usize| k < plan.commands implies #[trigger] picked(plan.initial_block(k), p)
        == initial(0, k as int) by {
        lemma_picked_blocks(plan, p, 0, k);
    }
    assert forall|r: u64, k: usize| r < count && k < plan.commands implies #[trigger] picked(plan.round_block(
        r,
        k,
    ), p) == timed(r as int, k as int) by {
        lemma_picked_blocks(plan, p, r, k);
    }
    lemma_nothing_around(plan, count, p);
    plan.lemma_pick_opening(p, warmup, initial);
    plan.lemma_pick_closing(count, p, timed);
    let warm = in_turn(n, 0, plan.warmup_count * n, warmup);
    let first = in_turn(n, 0, n, initial);
    let later = in_turn(n, n, count * n, timed);
    let nothing = Seq::<Step>::empty();
    assert(nothing + (warm + (nothing + (first + nothing))) =~= warm + first);
    assert(nothing + (later + nothing) =~= later);
}

proof fn lemma_nothing_around(plan: Plan, count: u64, p: spec_fn(Step) -> bool)
    requires
        picks_runs(p),
    ensures
        picked(plan.head(), p) == Seq::<Step>::empty(),
        picked(plan.middle(), p) == Seq::<Step>::empty(),
        picked(plan.start(count), p) == Seq::<Step>::empty(),
        picked(plan.finish(), p) == Seq::<Step>::empty(),
        step_if(p(Step::CountRuns), Step::CountRuns) == Seq::<Step>::empty(),
        !p(Step::Export),
{
    lemma_nothing_in_head(plan, p);
    lemma_nothing_in_middle(plan, p);
    lemma_nothing_in_start(plan, count, p);
    lemma_nothing_after(plan, p);
}

proof fn lemma_nothing_in_head(plan: Plan, p: spec_fn(Step) -> bool)
    requires
        picks_runs(p),
    ensures
        picked(plan.head(), p) == Seq::<Step>::empty(),
{
    let steps = plan.head();
    assert forall|k: int| 0 <= k < steps.len() implies !p(#[trigger] steps[k]) by {
        let step = steps[k];
        assert(!(step is Measure || step is Prepare || step is Conclude || step is TotalTime));
    }
    lemma_pick_none(steps, p);
}

proof fn lemma_nothing_in_middle(plan: Plan, p: spec_fn(Step) -> bool)
    requires
        picks_runs(p),
    ensures
        picked(plan.middle(), p) == Seq::<Step>::empty(),
{
    let steps = plan.middle();
    assert forall|k: int| 0 <= k < steps.len() implies !p(#[trigger] steps[k]) by {
        let step = steps[k];
        assert(!(step is Measure || step is Prepare || step is Conclude || step is TotalTime));
    }
    lemma_pick_none(steps, p);
}

proof fn lemma_nothing_in_start(plan: Plan, count: u64, p: spec_fn(Step) -> bool)
    requires
        picks_runs(p),
    ensures
        picked(plan.start(count), p) == Seq::<Step>::empty(),
{
    let steps = plan.start(count);
    assert forall|k: int| 0 <= k < steps.len() implies !p(#[trigger] steps[k]) by {
        let step = steps[k];
        assert(!(step is Measure || step is Prepare || step is Conclude || step is TotalTime));
    }
    lemma_pick_none(steps, p);
}

/// The summaries hold nothing that belongs to a run.
proof fn lemma_summaries_without_runs(plan: Plan, n: nat, k: int)
    requires
        0 <= k < plan.summaries(n).len(),
    ensures
        ({
            let step = plan.summaries(n)[k];
            !(step is Measure || step is Prepare || step is Conclude || step is TotalTime)
        }),
    decreases n,
{
    if n > 0 {
        let before = plan.summaries((n - 1) as nat);
        if k < before.len() {
            lemma_summaries_without_runs(plan, (n - 1) as nat, k);
        }
    }
}

proof fn lemma_nothing_after(plan: Plan, p: spec_fn(Step) -> bool)
    requires
        picks_runs(p),
    ensures
        picked(plan.finish(), p) == Seq::<Step>::empty(),
{
    let finish = plan.finish();
    let summaries = plan.summaries(plan.commands as nat);
    assert forall|k: int| 0 <= k < finish.len() implies !p(#[trigger] finish[k]) by {
        let step = finish[k];
        if plan.interleaved {
            let before = step_if(plan.shows_command_bars, Step::FinishCommandBars) + for_each(
                plan.has_cleanup,
                plan.commands as nat,
                |c: usize| Step::Cleanup(c),
            );
            if k >= before.len() {
                assert(plan.shows_output);
                assert(step == summaries[k - before.len()]);
                lemma_summaries_without_runs(plan, plan.commands as nat, k - before.len());
            } else {
                assert(step == before[k]);
            }
        }
        assert(!(step is Measure || step is Prepare || step is Conclude || step is TotalTime));
    }
    lemma_pick_none(finish, p);
}

/// Where totals are not picked, the first timed run is like any other.
proof fn lemma_first_turns(plan: Plan, p: spec_fn(Step) -> bool)
    requires
        plan.wf(),
        forall|step: Step| #[trigger] p(step) ==> !(step is TotalTime),
    ensures
        in_turn(plan.commands as int, 0, plan.commands as int, initial_turn(plan, p)) == in_turn(
            plan.commands as int,
            0,
            plan.commands as int,
            timed_turn(plan, p),
        ),
{
    lemma_first_turns_from(plan, p, 0);
}

proof fn lemma_first_turns_from(plan: Plan, p: spec_fn(Step) -> bool, c: int)
    requires
        plan.wf(),
        0 <= c <= plan.commands,
        forall|step: Step| #[trigger] p(step) ==> !(step is TotalTime),
    ensures
        in_turn(plan.commands as int, c, plan.commands as int, initial_turn(plan, p)) == in_turn(
            plan.commands as int,
            c,
            plan.commands as int,
            timed_turn(plan, p),
        ),
    decreases plan.commands - c,
{
    let n = plan.commands as int;
    if c < n {
        lemma_first_turns_from(plan, p, c + 1);
        lemma_turn_of(n, 0, c);
        assert(0 * n + c == c);
        assert(initial_turn(plan, p)(0, c) =~= timed_turn(plan, p)(0, c));
    }
}

/// The runs, where `p` picks one step of each.
proof fn lemma_one_in_each_turn(
    plan: Plan,
    count: u64,
    p: spec_fn(Step) -> bool,
    warmup_run: spec_fn(int, int) -> Step,
    timed_run: spec_fn(int, int) -> Step,
)
    requires
        plan.wf(),
        count >= 1,
        picks_runs(p),
        forall|round: int, c: int|
            #[trigger] warmup_turn(plan, p)(round, c) == seq![warmup_run(round, c)],
        forall|round: int, c: int|
            #[trigger] timed_turn(plan, p)(round, c) == seq![timed_run(round, c)],
        forall|step: Step| #[trigger] p(step) ==> !(step is TotalTime),
    ensures
        ({
            let n = plan.commands as int;
            let w = plan.warmup_count as int;
            let runs = picked(plan.opening() + plan.closing(count), p);
            &&& runs.len() == (w + count) * n
            &&& forall|t: int|
                0 <= t < runs.len() ==> #[trigger] runs[t] == if t / n < w {
                    warmup_run(t / n, t % n)
                } else {
                    timed_run(t / n - w, t % n)
                }
            &&& picked(plan.opening(), p) == runs.take((w + 1) * n)
        }),
{
    let n = plan.commands as int;
    let w = plan.warmup_count as int;
    let warmup = warmup_turn(plan, p);
    let timed = timed_turn(plan, p);
    lemma_only_in_turns(plan, count, p);
    lemma_pick_both(plan.opening(), plan.closing(count), p);
    lemma_first_turns(plan, p);
    let warm = in_turn(n, 0, w * n, warmup);
    let first = in_turn(n, 0, n, timed);
    let later = in_turn(n, n, count * n, timed);
    let all = in_turn(n, 0, count * n, timed);
    assert(n <= count * n) by (nonlinear_arith)
        requires
            count >= 1,
            n > 0,
    ;
    assert(0 <= w * n) by (nonlinear_arith)
        requires
            w >= 0,
            n > 0,
    ;
    assert((w + 1) * n == w * n + n && (w + count) * n == w * n + count * n) by (nonlinear_arith);
    lemma_turns_add(n, 0, n, count * n, timed);
    lemma_one_each(n, 0, w * n, warmup, warmup_run);
    lemma_one_each(n, 0, n, timed, timed_run);
    lemma_one_each(n, 0, count * n, timed, timed_run);
    let runs = picked(plan.opening() + plan.closing(count), p);
    assert(runs =~= warm + all);
    assert(picked(plan.opening(), p) =~= runs.take((w + 1) * n));
    assert forall|t: int| 0 <= t < runs.len() implies #[trigger] runs[t] == if t / n < w {
        warmup_run(t / n, t % n)
    } else {
        timed_run(t / n - w, t % n)
    } by {
        lemma_fundamental_div_mod(t, n);
        if t < w * n {
            assert(runs[t] == warm[t]);
            assert(t / n < w) by (nonlinear_arith)
                requires
                    t < w * n,
                    t == n * (t / n) + t % n,
                    t % n >= 0,
                    n > 0,
            ;
        } else {
            let s = t - w * n;
            assert(runs[t] == all[s]);
            lemma_rounds_later(n, s, w);
            assert(s / n >= 0) by (nonlinear_arith)
                requires
                    s >= 0,
                    n > 0,
            ;
        }
    }
}

/// The runs of a benchmark, warmup runs and timed runs alike, come in rounds in which every command
/// has one turn: first as many rounds of warmup runs as there are to be, then the timed rounds,
/// numbered from zero. The opening holds the warmup rounds and the first timed round.
pub proof fn runs_come_in_turn(plan: Plan, count: u64)
    requires
        plan.wf(),
        count >= 1,
    ensures
        ({
            let n = plan.commands as int;
            let warmups = plan.warmup_count as int;
            let runs = (plan.opening() + plan.closing(count)).filter(|step: Step| step is Measure);
            &&& runs.len() == (warmups + count) * n
            &&& forall|t: int|
                0 <= t < runs.len() ==> #[trigger] runs[t] == (Step::Measure {
                    command: (t % n) as usize,
                    iteration: if t / n < warmups {
                        BenchmarkIteration::Warmup((t / n) as u64)
                    } else {
                        BenchmarkIteration::Benchmark((t / n - warmups) as u64)
                    },
                })
            &&& plan.opening().filter(|step: Step| step is Measure) == runs.take((warmups + 1) * n)
        }),
{
    let n = plan.commands as int;
    let w = plan.warmup_count as int;
    let p = |step: Step| step is Measure;
    let warmup_run = |round: int, c: int|
        Step::Measure {
            command: c as usize,
            iteration: BenchmarkIteration::Warmup(round as u64),
        };
    let timed_run = |round: int, c: int|
        Step::Measure {
            command: c as usize,
            iteration: BenchmarkIteration::Benchmark(round as u64),
        };
    assert forall|round: int, c: int| #[trigger]
        warmup_turn(plan, p)(round, c) == seq![warmup_run(round, c)] by {
        assert(warmup_turn(plan, p)(round, c) =~= seq![warmup_run(round, c)]);
    }
    assert forall|round: int, c: int| #[trigger]
        timed_turn(plan, p)(round, c) == seq![timed_run(round, c)] by {
        assert(timed_turn(plan, p)(round, c) =~= seq![timed_run(round, c)]);
    }
    lemma_one_in_each_turn(plan, count, p, warmup_run, timed_run);
    reveal(picked);
}

/// What is picked among picked steps is what is picked at once.
proof fn lemma_pick_twice(steps: Seq<Step>, p: spec_fn(Step) -> bool, q: spec_fn(Step) -> bool)
    requires
        forall|step: Step| #[trigger] q(step) ==> p(step),
    ensures
        picked(picked(steps, p), q) == picked(steps, q),
    decreases steps.len(),
{
    reveal(picked);
    reveal(Seq::filter);
    if steps.len() > 0 {
        let before = steps.drop_last();
        lemma_pick_twice(before, p, q);
        if p(steps.last()) {
            assert(picked(steps, p).drop_last() =~= picked(before, p));
        } else {
            assert(!q(steps.last()));
        }
    }
}

/// A step that stands at one place only is picked once.
proof fn lemma_pick_once(steps: Seq<Step>, step: Step, i: int)
    requires
        0 <= i < steps.len(),
        steps[i] == step,
        forall|k: int| 0 <= k < steps.len() && k != i ==> #[trigger] steps[k] != step,
    ensures
        steps.filter(|other: Step| other == step).len() == 1,
    decreases steps.len(),
{
    let p = |other: Step| other == step;
    let before = steps.drop_last();
    reveal(picked);
    reveal(Seq::filter);
    if i == steps.len() - 1 {
        assert forall|k: int| 0 <= k < before.len() implies !p(#[trigger] before[k]) by {
            assert(before[k] == steps[k]);
        }
        lemma_pick_none(before, p);
    } else {
        assert forall|k: int| 0 <= k < before.len() && k != i implies #[trigger] before[k]
            != step by {
            assert(before[k] == steps[k]);
        }
        assert(before[i] == step);
        lemma_pick_once(before, step, i);
        assert(steps.last() == steps[steps.len() - 1]);
    }
}

/// Picking keeps the order.
proof fn lemma_pick_in_order(steps: Seq<Step>, p: spec_fn(Step) -> bool, i: int, j: int)
    requires
        0 <= i < j < steps.len(),
        p(steps[i]),
        p(steps[j]),
    ensures
        exists|a: int, b: int|
            0 <= a < b < picked(steps, p).len() && #[trigger] picked(steps, p)[a] == steps[i]
                && #[trigger] picked(steps, p)[b] == steps[j],
    decreases steps.len(),
{
    let before = steps.drop_last();
    let found = picked(steps, p);
    reveal(picked);
    reveal(Seq::filter);
    if j < before.len() {
        lemma_pick_in_order(before, p, i, j);
        let (a, b) = choose|a: int, b: int|
            0 <= a < b < picked(before, p).len() && #[trigger] picked(before, p)[a] == before[i]
                && #[trigger] picked(before, p)[b] == before[j];
        assert(found[a] == steps[i] && found[b] == steps[j]);
    } else {
        assert(before[i] == steps[i]);
        before.lemma_filter_contains(p, i);
        let a = choose|a: int| 0 <= a < picked(before, p).len() && picked(before, p)[a] == before[i];
        let b = picked(before, p).len() as int;
        assert(found[a] == steps[i] && found[b] == steps[j]);
    }
}

/// Each command has each of its warmup runs once: the opening holds it once, the closing does not,
/// and no timed run comes before it.
pub proof fn each_warmup_run_happens_once(plan: Plan, count: u64, c: usize, round: u64)
    requires
        plan.wf(),
        count >= 1,
        c < plan.commands,
        round < plan.warmup_count,
    ensures
        ({
            let warmup = Step::Measure {
                command: c,
                iteration: BenchmarkIteration::Warmup(round),
            };
            let steps = plan.opening() + plan.closing(count);
            &&& plan.opening().filter(|step: Step| step == warmup).len() == 1
            &&& plan.closing(count).filter(|step: Step| step == warmup).len() == 0
            &&& forall|i: int, j: int|
                0 <= i < j < steps.len() && #[trigger] steps[j] == warmup ==> !(
                #[trigger] steps[i] matches Step::Measure {
                    iteration: BenchmarkIteration::Benchmark(_),
                    ..
                })
        }),
{
    reveal(picked);
    let n = plan.commands as int;
    let w = plan.warmup_count as int;
    let warmup = Step::Measure { command: c, iteration: BenchmarkIteration::Warmup(round) };
    let p = |step: Step| step is Measure;
    let q = |step: Step| step == warmup;
    let steps = plan.opening() + plan.closing(count);
    let runs = picked(steps, p);
    runs_come_in_turn(plan, count);
    let t = round * n + c;
    lemma_turn_of(n, round as int, c as int);
    assert(0 <= t < (w + 1) * n && (w + 1) * n <= (w + count) * n) by (nonlinear_arith)
        requires
            t == round * n + c,
            0 <= c < n,
            0 <= round < w,
            count >= 1,
    ;
    assert(runs[t] == warmup);
    assert forall|k: int| 0 <= k < runs.len() && k != t implies #[trigger] runs[k] != warmup by {
        lemma_run_at(plan, count, k);
        if runs[k] == warmup {
            lemma_fundamental_div_mod(k, n);
            assert(k / n == round && k % n == c);
            assert(k == round * n + c) by (nonlinear_arith)
                requires
                    k == n * (k / n) + k % n,
                    k / n == round,
                    k % n == c,
            ;
        }
    }
    let first = runs.take((w + 1) * n);
    assert(first[t] == warmup);
    assert forall|k: int| 0 <= k < first.len() && k != t implies #[trigger] first[k] != warmup by {
        assert(first[k] == runs[k]);
    }
    lemma_pick_once(first, warmup, t);
    lemma_pick_twice(plan.opening(), p, q);
    assert(picked(plan.opening(), q).len() == 1);
    lemma_pick_once(runs, warmup, t);
    lemma_pick_twice(steps, p, q);
    lemma_pick_both(plan.opening(), plan.closing(count), q);
    assert forall|i: int, j: int| 0 <= i < j < steps.len() && #[trigger] steps[j] == warmup implies !(
    #[trigger] steps[i] matches Step::Measure {
        iteration: BenchmarkIteration::Benchmark(_),
        ..
    }) by {
        if p(steps[i]) {
            lemma_pick_in_order(steps, p, i, j);
            let (a, b) = choose|a: int, b: int|
                0 <= a < b < picked(steps, p).len() && #[trigger] picked(steps, p)[a] == steps[i]
                    && #[trigger] picked(steps, p)[b] == steps[j];
            assert(b == t);
            lemma_run_at(plan, count, a);
            lemma_fundamental_div_mod(a, n);
            assert(a / n <= round) by (nonlinear_arith)
                requires
                    a < round * n + c,
                    a == n * (a / n) + a % n,
                    0 <= a % n,
                    0 <= c < n,
            ;
        }
    }
}

/// The run at a place among all runs, with numbers that are in range.
proof fn lemma_run_at(plan: Plan, count: u64, t: int)
    requires
        plan.wf(),
        count >= 1,
        0 <= t < (plan.warmup_count + count) * plan.commands,
    ensures
        0 <= t % (plan.commands as int) < plan.commands,
        0 <= t / (plan.commands as int) < plan.warmup_count + count,
        (plan.opening() + plan.closing(count)).filter(|step: Step| step is Measure)[t]
            == (Step::Measure {
            command: (t % (plan.commands as int)) as usize,
            iteration: if t / (plan.commands as int) < plan.warmup_count {
                BenchmarkIteration::Warmup((t / (plan.commands as int)) as u64)
            } else {
                BenchmarkIteration::Benchmark(
                    (t / (plan.commands as int) - plan.warmup_count) as u64,
                )
            },
        }),
{
    let n = plan.commands as int;
    runs_come_in_turn(plan, count);
    lemma_fundamental_div_mod(t, n);
    assert(0 <= t / n < plan.warmup_count + count) by (nonlinear_arith)
        requires
            0 <= t < (plan.warmup_count + count) * n,
            t == n * (t / n) + t % n,
            0 <= t % n < n,
            n > 0,
    ;
}

/// Each command has each of its timed runs once, as often as runs were counted.
pub proof fn each_timed_run_happens_once(plan: Plan, count: u64, c: usize, round: u64)
    requires
        plan.wf(),
        count >= 1,
        c < plan.commands,
        round < count,
    ensures
        ({
            let run = Step::Measure {
                command: c,
                iteration: BenchmarkIteration::Benchmark(round),
            };
            (plan.opening() + plan.closing(count)).filter(|step: Step| step == run).len() == 1
        }),
{
    reveal(picked);
    let n = plan.commands as int;
    let w = plan.warmup_count as int;
    let run = Step::Measure { command: c, iteration: BenchmarkIteration::Benchmark(round) };
    let p = |step: Step| step is Measure;
    let q = |step: Step| step == run;
    let steps = plan.opening() + plan.closing(count);
    let runs = picked(steps, p);
    runs_come_in_turn(plan, count);
    let t = (w + round) * n + c;
    lemma_turn_of(n, w + round, c as int);
    assert(0 <= t < (w + count) * n) by (nonlinear_arith)
        requires
            t == (w + round) * n + c,
            0 <= c < n,
            0 <= round < count,
            w >= 0,
    ;
    assert(runs[t] == run);
    assert forall|k: int| 0 <= k < runs.len() && k != t implies #[trigger] runs[k] != run by {
        lemma_run_at(plan, count, k);
        if runs[k] == run {
            lemma_fundamental_div_mod(k, n);
            assert(k / n == w + round && k % n == c);
            assert(k == (w + round) * n + c) by (nonlinear_arith)
                requires
                    k == n * (k / n) + k % n,
                    k / n == w + round,
                    k % n == c,
            ;
        }
    }
    lemma_pick_once(runs, run, t);
    lemma_pick_twice(steps, p, q);
}

/// Every run is a warmup run or a timed run of one of the commands, with the number of a round that
/// there is.
pub proof fn there_are_no_other_runs(plan: Plan, count: u64, i: int)
    requires
        plan.wf(),
        count >= 1,
        0 <= i < (plan.opening() + plan.closing(count)).len(),
    ensures
        (plan.opening() + plan.closing(count))[i] matches Step::Measure { command, iteration } ==> {
            &&& command < plan.commands
            &&& match iteration {
                BenchmarkIteration::Warmup(round) => round < plan.warmup_count,
                BenchmarkIteration::Benchmark(round) => round < count,
                BenchmarkIteration::NonBenchmarkRun => false,
            }
        },
{
    reveal(picked);
    let steps = plan.opening() + plan.closing(count);
    let p = |step: Step| step is Measure;
    if p(steps[i]) {
        runs_come_in_turn(plan, count);
        steps.lemma_filter_contains(p, i);
        let t = choose|t: int| 0 <= t < picked(steps, p).len() && picked(steps, p)[t] == steps[i];
        lemma_run_at(plan, count, t);
    }
}

/// In each round, a command has its turn once.
proof fn lemma_round_length(
    n: int,
    round: int,
    k: int,
    c: int,
    block: spec_fn(int, int) -> Seq<Step>,
)
    requires
        0 <= c < n,
        0 <= k <= n,
        forall|r: int, other: int|
            0 <= other < n ==> (#[trigger] block(r, other)).len() == if other == c {
                1nat
            } else {
                0
            },
    ensures
        in_turn(n, round * n + k, round * n + n, block).len() == if k <= c {
            1nat
        } else {
            0
        },
    decreases n - k,
{
    if k < n {
        lemma_round_length(n, round, k + 1, c, block);
        lemma_turn_of(n, round, k);
        assert(block(round, k).len() == if k == c { 1nat } else { 0 });
    }
}

/// In a number of rounds, a command has its turn as often.
proof fn lemma_rounds_length(
    n: int,
    rounds: nat,
    c: int,
    block: spec_fn(int, int) -> Seq<Step>,
)
    requires
        0 <= c < n,
        forall|r: int, other: int|
            0 <= other < n ==> (#[trigger] block(r, other)).len() == if other == c {
                1nat
            } else {
                0
            },
    ensures
        in_turn(n, 0, rounds * n, block).len() == rounds,
    decreases rounds,
{
    if rounds > 0 {
        let before = (rounds - 1) as nat;
        lemma_rounds_length(n, before, c, block);
        lemma_round_length(n, before as int, 0, c, block);
        assert(0 <= before * n && rounds * n == before * n + n) by (nonlinear_arith)
            requires
                rounds == before + 1,
                n > 0,
        ;
        lemma_turns_add(n, 0, before * n, rounds * n, block);
    } else {
        assert(0 * n == 0);
    }
}

/// Each command has as many warmup runs as there are to be, all of them in the opening.
pub proof fn each_command_has_its_warmup_runs(plan: Plan, count: u64, c: usize)
    requires
        plan.wf(),
        count >= 1,
        c < plan.commands,
    ensures
        plan.opening().filter(
            |step: Step|
                step matches Step::Measure { command, iteration: BenchmarkIteration::Warmup(_) }
                    && command == c,
        ).len() == plan.warmup_count,
        plan.closing(count).filter(
            |step: Step|
                step matches Step::Measure { command, iteration: BenchmarkIteration::Warmup(_) }
                    && command == c,
        ).len() == 0,
{
    let n = plan.commands as int;
    let p = |step: Step|
        step matches Step::Measure { command, iteration: BenchmarkIteration::Warmup(_) }
            && command == c;
    lemma_only_in_turns(plan, count, p);
    lemma_rounds_length(n, plan.warmup_count as nat, c as int, warmup_turn(plan, p));
    lemma_none_each(n, 0, n, initial_turn(plan, p));
    lemma_none_each(n, n, count * n, timed_turn(plan, p));
    reveal(picked);
}

/// Each command has as many timed runs as were counted: one in the opening and the others in the
/// closing.
pub proof fn each_command_has_its_timed_runs(plan: Plan, count: u64, c: usize)
    requires
        plan.wf(),
        count >= 1,
        c < plan.commands,
    ensures
        plan.opening().filter(
            |step: Step|
                step matches Step::Measure { command, iteration: BenchmarkIteration::Benchmark(_) }
                    && command == c,
        ).len() == 1,
        plan.closing(count).filter(
            |step: Step|
                step matches Step::Measure { command, iteration: BenchmarkIteration::Benchmark(_) }
                    && command == c,
        ).len() == count - 1,
{
    let n = plan.commands as int;
    let p = |step: Step|
        step matches Step::Measure { command, iteration: BenchmarkIteration::Benchmark(_) }
            && command == c;
    let timed = timed_turn(plan, p);
    lemma_only_in_turns(plan, count, p);
    lemma_first_turns(plan, p);
    lemma_none_each(n, 0, plan.warmup_count * n, warmup_turn(plan, p));
    lemma_rounds_length(n, 1, c as int, timed);
    lemma_rounds_length(n, count as nat, c as int, timed);
    assert(1 * n == n);
    assert(n <= count * n) by (nonlinear_arith)
        requires
            count >= 1,
            n > 0,
    ;
    lemma_turns_add(n, 0, n, count * n, timed);
    reveal(picked);
}

/// Where there is a preparation command, it is run as often as commands are run, warmup runs
/// included, and the order is that of the runs. Without one nothing is prepared.
pub proof fn each_run_has_one_preparation(plan: Plan, count: u64)
    requires
        plan.wf(),
        count >= 1,
    ensures
        ({
            let n = plan.commands as int;
            let prepared = (plan.opening() + plan.closing(count)).filter(
                |step: Step| step is Prepare,
            );
            &&& prepared.len() == if plan.has_preparation {
                (plan.warmup_count + count) * n
            } else {
                0
            }
            &&& forall|t: int|
                0 <= t < prepared.len() ==> #[trigger] prepared[t] == Step::Prepare(
                    (t % n) as usize,
                )
        }),
{
    let n = plan.commands as int;
    let p = |step: Step| step is Prepare;
    if plan.has_preparation {
        let prepare = |round: int, c: int| Step::Prepare(c as usize);
        assert forall|round: int, c: int| #[trigger]
            warmup_turn(plan, p)(round, c) == seq![prepare(round, c)] by {
            assert(warmup_turn(plan, p)(round, c) =~= seq![prepare(round, c)]);
        }
        assert forall|round: int, c: int| #[trigger]
            timed_turn(plan, p)(round, c) == seq![prepare(round, c)] by {
            assert(timed_turn(plan, p)(round, c) =~= seq![prepare(round, c)]);
        }
        lemma_one_in_each_turn(plan, count, p, prepare, prepare);
    } else {
        lemma_only_in_turns(plan, count, p);
        lemma_none_each(n, 0, plan.warmup_count * n, warmup_turn(plan, p));
        lemma_none_each(n, 0, n, initial_turn(plan, p));
        lemma_none_each(n, n, count * n, timed_turn(plan, p));
        lemma_pick_both(plan.opening(), plan.closing(count), p);
    }
    reveal(picked);
}

/// Where there is a conclusion command, it is run as often as commands are run, warmup runs
/// included, and the order is that of the runs. Without one nothing is concluded.
pub proof fn each_run_has_one_conclusion(plan: Plan, count: u64)
    requires
        plan.wf(),
        count >= 1,
    ensures
        ({
            let n = plan.commands as int;
            let concluded = (plan.opening() + plan.closing(count)).filter(
                |step: Step| step is Conclude,
            );
            &&& concluded.len() == if plan.has_conclusion {
                (plan.warmup_count + count) * n
            } else {
                0
            }
            &&& forall|t: int|
                0 <= t < concluded.len() ==> #[trigger] concluded[t] == Step::Conclude(
                    (t % n) as usize,
                )
        }),
{
    let n = plan.commands as int;
    let p = |step: Step| step is Conclude;
    if plan.has_conclusion {
        let conclude = |round: int, c: int| Step::Conclude(c as usize);
        assert forall|round: int, c: int| #[trigger]
            warmup_turn(plan, p)(round, c) == seq![conclude(round, c)] by {
            assert(warmup_turn(plan, p)(round, c) =~= seq![conclude(round, c)]);
        }
        assert forall|round: int, c: int| #[trigger]
            timed_turn(plan, p)(round, c) == seq![conclude(round, c)] by {
            assert(timed_turn(plan, p)(round, c) =~= seq![conclude(round, c)]);
        }
        lemma_one_in_each_turn(plan, count, p, conclude, conclude);
    } else {
        lemma_only_in_turns(plan, count, p);
        lemma_none_each(n, 0, plan.warmup_count * n, warmup_turn(plan, p));
        lemma_none_each(n, 0, n, initial_turn(plan, p));
        lemma_none_each(n, n, count * n, timed_turn(plan, p));
        lemma_pick_both(plan.opening(), plan.closing(count), p);
    }
    reveal(picked);
}

/// The time of the first timed run is totalled once for each command, in the order of the commands,
/// and always before the runs are counted.
pub proof fn each_command_has_one_total(plan: Plan, count: u64)
    requires
        plan.wf(),
        count >= 1,
    ensures
        plan.opening().filter(|step: Step| step is TotalTime) == Seq::new(
            plan.commands as nat,
            |c: int| Step::TotalTime(c as usize),
        ),
        plan.closing(count).filter(|step: Step| step is TotalTime).len() == 0,
{
    let n = plan.commands as int;
    let p = |step: Step| step is TotalTime;
    let total = |round: int, c: int| Step::TotalTime(c as usize);
    lemma_only_in_turns(plan, count, p);
    lemma_none_each(n, 0, plan.warmup_count * n, warmup_turn(plan, p));
    lemma_none_each(n, n, count * n, timed_turn(plan, p));
    assert forall|round: int, c: int| #[trigger]
        initial_turn(plan, p)(round, c) == seq![total(round, c)] by {
        assert(initial_turn(plan, p)(round, c) =~= seq![total(round, c)]);
    }
    lemma_one_each(n, 0, n, initial_turn(plan, p), total);
    let totals = picked(plan.opening(), p);
    assert forall|t: int| 0 <= t < n implies #[trigger] totals[t] == Step::TotalTime(t as usize) by {
        lemma_turn_of(n, 0, t);
        assert(0 * n + t == t);
    }
    assert(totals =~= Seq::new(plan.commands as nat, |c: int| Step::TotalTime(c as usize)));
    reveal(picked);
}

} // verus!
