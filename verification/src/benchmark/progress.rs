//! How the progress bars move with the runs of a benchmark.

use crate::benchmark::bars::lemma_two_each;
use crate::benchmark::display::{
    lemma_finish_with_cleanups, lemma_head_without, lemma_middle_without,
    lemma_shown_closing, lemma_shown_opening, lemma_start_without, shown_timed, shown_warmup,
};
use crate::benchmark::plan::{for_each, BenchmarkIteration, Plan, Step};
use crate::benchmark::sequence::{
    in_turn, lemma_none_each, lemma_one_each, lemma_pick_both, lemma_pick_one, lemma_turn_of, picked,
};
use vstd::prelude::*;

verus! {

proof fn lemma_advances(plan: Plan, count: u64, p: spec_fn(Step) -> bool)
    requires
        plan.wf(),
        count >= 1,
        p == (|step: Step| step is Advance),
    ensures
        picked(plan.opening(), p).len() == if plan.shows_output {
            plan.warmup_count * plan.commands
        } else {
            0
        },
        picked(plan.closing(count), p).len() == if plan.shows_output && !plan.interleaved {
            count as int
        } else {
            0
        },
{
    let n = plan.commands as int;
    let w = plan.warmup_count * n;
    let advance = |round: int, c: int| Step::Advance;
    let warmup = shown_warmup(plan, p);
    let timed = shown_timed(plan, p);
    lemma_shown_opening(plan, p);
    lemma_shown_closing(plan, count, p);
    lemma_head_without(plan, p);
    lemma_middle_without(plan, p);
    lemma_finish_with_cleanups(plan, p);
    assert(0 <= w && n <= count * n) by (nonlinear_arith)
        requires
            w == plan.warmup_count * n,
            n > 0,
            count >= 1,
    ;
    if plan.shows_output {
        assert forall|round: int, c: int| #[trigger] warmup(round, c) == seq![
            advance(round, c),
        ] by {
            assert(warmup(round, c) =~= seq![advance(round, c)]);
        }
        lemma_one_each(n, 0, w, warmup, advance);
    } else {
        lemma_none_each(n, 0, w, warmup);
    }
    if plan.shows_output && !plan.interleaved {
        assert forall|round: int, c: int| #[trigger] timed(round, c) == seq![
            advance(round, c),
        ] by {
            assert(timed(round, c) =~= seq![advance(round, c)]);
        }
        lemma_one_each(n, n, count * n, timed, advance);
        assert(picked(plan.start(count), p) =~= seq![Step::Advance]) by {
            plan.lemma_pick_start(count, p);
        }
        assert(n == 1);
        assert(count * 1 == count);
    } else {
        lemma_none_each(n, n, count * n, timed);
        assert(picked(plan.start(count), p) =~= seq![]) by {
            plan.lemma_pick_start(count, p);
        }
    }
}

/// A progress bar that is shown reaches its end: it moves as often as there are warmup runs of all
/// commands together, and that of a single command as often as there are timed runs.
pub proof fn progress_bars_reach_their_end(plan: Plan, count: u64)
    requires
        plan.wf(),
        count >= 1,
    ensures
        plan.opening().filter(|step: Step| step is Advance).len() == if plan.shows_output {
            plan.warmup_count * plan.commands
        } else {
            0
        },
        plan.closing(count).filter(|step: Step| step is Advance).len() == if plan.shows_output
            && !plan.interleaved {
            count as int
        } else {
            0
        },
{
    lemma_advances(plan, count, |step: Step| step is Advance);
    reveal(picked);
}

proof fn lemma_command_bars_move(plan: Plan, count: u64, p: spec_fn(Step) -> bool, t: int)
    requires
        plan.wf(),
        count >= 1,
        p == (|step: Step| step is AdvanceCommandBar),
    ensures
        ({
            let n = plan.commands as int;
            let moved = picked(plan.closing(count), p);
            &&& picked(plan.opening(), p).len() == 0
            &&& moved.len() == if plan.interleaved && plan.shows_command_bars {
                (count - 1) * n
            } else {
                0
            }
            &&& 0 <= t < moved.len() ==> moved[t] == Step::AdvanceCommandBar((t % n) as usize)
        }),
{
    let n = plan.commands as int;
    let moves = |round: int, c: int| Step::AdvanceCommandBar(c as usize);
    let warmup = shown_warmup(plan, p);
    let timed = shown_timed(plan, p);
    lemma_shown_opening(plan, p);
    lemma_shown_closing(plan, count, p);
    lemma_head_without(plan, p);
    lemma_middle_without(plan, p);
    lemma_start_without(plan, count, p);
    lemma_finish_with_cleanups(plan, p);
    lemma_none_each(n, 0, plan.warmup_count * n, warmup);
    assert(n <= count * n && (count - 1) * n == count * n - n) by (nonlinear_arith)
        requires
            n > 0,
            count >= 1,
    ;
    if plan.interleaved && plan.shows_command_bars {
        assert forall|round: int, c: int| #[trigger] timed(round, c) == seq![moves(round, c)] by {
            assert(timed(round, c) =~= seq![moves(round, c)]);
        }
        lemma_one_each(n, n, count * n, timed, moves);
        if 0 <= t < count * n - n {
            vstd::arithmetic::div_mod::lemma_mod_add_multiples_vanish(t, n);
        }
    } else {
        lemma_none_each(n, n, count * n, timed);
    }
}

/// Where each of several commands has a progress bar, it moves as often as the command is timed after
/// its first timed run, and the bars move in the order of the runs.
pub proof fn command_bars_reach_their_end(plan: Plan, count: u64, t: int)
    requires
        plan.wf(),
        count >= 1,
    ensures
        ({
            let n = plan.commands as int;
            let moved = plan.closing(count).filter(|step: Step| step is AdvanceCommandBar);
            &&& plan.opening().filter(|step: Step| step is AdvanceCommandBar).len() == 0
            &&& moved.len() == if plan.interleaved && plan.shows_command_bars {
                (count - 1) * n
            } else {
                0
            }
            &&& 0 <= t < moved.len() ==> moved[t] == Step::AdvanceCommandBar((t % n) as usize)
        }),
{
    lemma_command_bars_move(plan, count, |step: Step| step is AdvanceCommandBar, t);
    reveal(picked);
}

proof fn lemma_estimates(plan: Plan, count: u64, p: spec_fn(Step) -> bool, t: int)
    requires
        plan.wf(),
        count >= 1,
        p == (|step: Step| step is ShowEstimate),
    ensures
        ({
            let n = plan.commands as int;
            let shown = picked(plan.closing(count), p);
            &&& picked(plan.opening(), p).len() == 0
            &&& shown.len() == if plan.interleaved && plan.shows_command_bars {
                count * n
            } else if !plan.interleaved && plan.shows_output {
                count - 1
            } else {
                0
            }
            &&& 0 <= t < shown.len() ==> shown[t] == Step::ShowEstimate((t % n) as usize)
        }),
{
    let n = plan.commands as int;
    let shows = |round: int, c: int| Step::ShowEstimate(c as usize);
    let warmup = shown_warmup(plan, p);
    let timed = shown_timed(plan, p);
    lemma_shown_opening(plan, p);
    lemma_shown_closing(plan, count, p);
    lemma_head_without(plan, p);
    lemma_middle_without(plan, p);
    lemma_finish_with_cleanups(plan, p);
    lemma_none_each(n, 0, plan.warmup_count * n, warmup);
    assert(n <= count * n) by (nonlinear_arith)
        requires
            n > 0,
            count >= 1,
    ;
    let first = for_each(
        plan.interleaved && plan.shows_command_bars,
        plan.commands as nat,
        |c: usize| Step::ShowEstimate(c),
    );
    assert(picked(plan.start(count), p) =~= first) by {
        plan.lemma_pick_start(count, p);
    }
    if (plan.interleaved && plan.shows_command_bars) || (!plan.interleaved && plan.shows_output) {
        assert forall|round: int, c: int| #[trigger] timed(round, c) == seq![shows(round, c)] by {
            assert(timed(round, c) =~= seq![shows(round, c)]);
        }
        lemma_one_each(n, n, count * n, timed, shows);
        if plan.interleaved {
            if 0 <= t < n {
                lemma_turn_of(n, 0, t);
                assert(0 * n + t == t);
            } else if n <= t < count * n {
                assert(n + (t - n) == t);
            }
        } else {
            assert(count * 1 == count);
            if 0 <= t < count - 1 {
                assert(t % 1 == 0 && (1 + t) % 1 == 0);
            }
        }
    } else {
        lemma_none_each(n, n, count * n, timed);
    }
}

/// Estimates of the time of a command are shown in the order of the runs: after each timed run of
/// several commands that have progress bars, and before each timed run of a single command but the
/// first.
pub proof fn estimates_are_shown_in_turn(plan: Plan, count: u64, t: int)
    requires
        plan.wf(),
        count >= 1,
    ensures
        ({
            let n = plan.commands as int;
            let shown = plan.closing(count).filter(|step: Step| step is ShowEstimate);
            &&& plan.opening().filter(|step: Step| step is ShowEstimate).len() == 0
            &&& shown.len() == if plan.interleaved && plan.shows_command_bars {
                count * n
            } else if !plan.interleaved && plan.shows_output {
                count - 1
            } else {
                0
            }
            &&& 0 <= t < shown.len() ==> shown[t] == Step::ShowEstimate((t % n) as usize)
        }),
{
    lemma_estimates(plan, count, |step: Step| step is ShowEstimate, t);
    reveal(picked);
}

/// A run of a command, and what `p` picks around it.
proof fn lemma_run_picked(
    plan: Plan,
    p: spec_fn(Step) -> bool,
    c: usize,
    iteration: BenchmarkIteration,
)
    requires
        p(Step::Measure { command: c, iteration }),
        !p(Step::Prepare(c)),
        !p(Step::Conclude(c)),
    ensures
        picked(plan.measured(c, iteration), p) == seq![Step::Measure { command: c, iteration }],
{
    plan.lemma_pick_measured(c, iteration, p);
    assert(picked(plan.measured(c, iteration), p) =~= seq![
        Step::Measure { command: c, iteration },
    ]);
}

proof fn lemma_bar_moves(plan: Plan, count: u64, p: spec_fn(Step) -> bool, t: int)
    requires
        plan.wf(),
        count >= 1,
        !plan.interleaved,
        plan.shows_output,
        p == (|step: Step| step is Measure || step is Advance),
        0 <= t < plan.warmup_count + count,
    ensures
        ({
            let steps = picked(plan.opening(), p) + picked(plan.closing(count), p);
            &&& steps.len() == 2 * (plan.warmup_count + count)
            &&& steps[2 * t] is Measure
            &&& steps[2 * t + 1] == Step::Advance
        }),
{
    let w = plan.warmup_count as int;
    let warmup_run = |round: int, c: int|
        Step::Measure {
            command: c as usize,
            iteration: BenchmarkIteration::Warmup(round as u64),
        };
    let timed_run = |round: int, c: int|
        Step::Measure {
            command: c as usize,
            iteration: BenchmarkIteration::Benchmark(round as u64),
        };
    let advance = |round: int, c: int| Step::Advance;
    let warmup = |round: int, c: int| seq![warmup_run(round, c), Step::Advance];
    let initial = |round: int, c: int| seq![timed_run(0, c)];
    let timed = |round: int, c: int| seq![timed_run(round, c), Step::Advance];
    assert forall|r: u64, k: usize|
        r < plan.warmup_count && k < plan.commands implies #[trigger] picked(
        plan.warmup_block(r, k),
        p,
    ) == warmup(r as int, k as int) by {
        lemma_run_picked(plan, p, k, BenchmarkIteration::Warmup(r));
        plan.lemma_pick_warmup_block(r, k, p);
        assert(picked(plan.warmup_block(r, k), p) =~= warmup(r as int, k as int));
    }
    assert forall|k: usize| k < plan.commands implies #[trigger] picked(plan.initial_block(k), p)
        == initial(0, k as int) by {
        lemma_run_picked(plan, p, k, BenchmarkIteration::Benchmark(0));
        plan.lemma_pick_initial_block(k, p);
        assert(picked(plan.initial_block(k), p) =~= initial(0, k as int));
    }
    assert forall|r: u64, k: usize| r < count && k < plan.commands implies #[trigger] picked(
        plan.round_block(r, k),
        p,
    ) == timed(r as int, k as int) by {
        plan.lemma_pick_round_block(r, k, p);
        assert(picked(plan.round_block(r, k), p) =~= timed(r as int, k as int));
    }
    lemma_head_without(plan, p);
    lemma_middle_without(plan, p);
    lemma_finish_with_cleanups(plan, p);
    plan.lemma_pick_opening(p, warmup, initial);
    plan.lemma_pick_closing(count, p, timed);
    assert(picked(plan.start(count), p) =~= seq![Step::Advance]) by {
        plan.lemma_pick_start(count, p);
    }
    lemma_one_each(1, 0, 1, initial, |round: int, c: int| timed_run(0, c));
    assert(w * 1 == w && count * 1 == count);
    let warm = in_turn(1, 0, w, warmup);
    let first = in_turn(1, 0, 1, initial);
    let later = in_turn(1, 1, count as int, timed);
    lemma_pairs_join(warm, first, later, w, count as int, t);
    if t < w {
        lemma_two_each(1, 0, w, warmup, warmup_run, advance, t);
    } else if w > 0 {
        lemma_two_each(1, 0, w, warmup, warmup_run, advance, 0);
    } else {
        assert(warm =~= seq![]);
    }
    if t > w {
        lemma_two_each(1, 1, count as int, timed, timed_run, advance, t - w - 1);
    } else if count > 1 {
        lemma_two_each(1, 1, count as int, timed, timed_run, advance, 0);
    } else {
        assert(later =~= seq![]);
    }
}

/// Pairs before and after a pair that two parts share.
proof fn lemma_pairs_join(
    warm: Seq<Step>,
    first: Seq<Step>,
    later: Seq<Step>,
    w: int,
    count: int,
    t: int,
)
    requires
        0 <= w,
        1 <= count,
        0 <= t < w + count,
    ensures
        warm.len() == 2 * w && first.len() == 1 && later.len() == 2 * (count - 1) ==> {
            let steps = (Seq::<Step>::empty() + (warm + (Seq::<Step>::empty() + (first + Seq::<
                Step,
            >::empty())))) + (seq![Step::Advance] + (later + Seq::<Step>::empty()));
            &&& steps.len() == 2 * (w + count)
            &&& t < w ==> steps[2 * t] == warm[2 * t] && steps[2 * t + 1] == warm[2 * t + 1]
            &&& t == w ==> steps[2 * t] == first[0] && steps[2 * t + 1] == Step::Advance
            &&& t > w ==> steps[2 * t] == later[2 * (t - w - 1)] && steps[2 * t + 1] == later[2 * (t
                - w - 1) + 1]
        },
{
}

/// The progress bar of a single command moves right after each run, warmup runs included, but for
/// what belongs to the run or sets up the bar.
pub proof fn the_bar_moves_after_each_run(plan: Plan, count: u64, t: int)
    requires
        plan.wf(),
        count >= 1,
        !plan.interleaved,
        plan.shows_output,
        0 <= t < plan.warmup_count + count,
    ensures
        ({
            let steps = (plan.opening() + plan.closing(count)).filter(
                |step: Step| step is Measure || step is Advance,
            );
            &&& steps.len() == 2 * (plan.warmup_count + count)
            &&& steps[2 * t] is Measure
            &&& steps[2 * t + 1] == Step::Advance
        }),
{
    let p = |step: Step| step is Measure || step is Advance;
    lemma_bar_moves(plan, count, p, t);
    lemma_pick_both(plan.opening(), plan.closing(count), p);
    reveal(picked);
}

proof fn lemma_shared_bar_moves(plan: Plan, p: spec_fn(Step) -> bool, t: int)
    requires
        plan.wf(),
        plan.interleaved,
        plan.shows_output,
        p == (|step: Step| step is Measure || step is Advance),
        0 <= t < plan.warmup_count * plan.commands,
    ensures
        ({
            let steps = picked(plan.opening(), p);
            &&& steps.len() == 2 * (plan.warmup_count * plan.commands) + plan.commands
            &&& steps[2 * t] is Measure
            &&& steps[2 * t + 1] == Step::Advance
        }),
{
    let n = plan.commands as int;
    let w = plan.warmup_count * n;
    let warmup_run = |round: int, c: int|
        Step::Measure {
            command: c as usize,
            iteration: BenchmarkIteration::Warmup(round as u64),
        };
    let first_run = |round: int, c: int|
        Step::Measure { command: c as usize, iteration: BenchmarkIteration::Benchmark(0) };
    let advance = |round: int, c: int| Step::Advance;
    let warmup = |round: int, c: int| seq![warmup_run(round, c), Step::Advance];
    let initial = |round: int, c: int| seq![first_run(round, c)];
    assert forall|r: u64, k: usize|
        r < plan.warmup_count && k < plan.commands implies #[trigger] picked(
        plan.warmup_block(r, k),
        p,
    ) == warmup(r as int, k as int) by {
        lemma_run_picked(plan, p, k, BenchmarkIteration::Warmup(r));
        plan.lemma_pick_warmup_block(r, k, p);
        assert(picked(plan.warmup_block(r, k), p) =~= warmup(r as int, k as int));
    }
    assert forall|k: usize| k < plan.commands implies #[trigger] picked(plan.initial_block(k), p)
        == initial(0, k as int) by {
        lemma_run_picked(plan, p, k, BenchmarkIteration::Benchmark(0));
        plan.lemma_pick_initial_block(k, p);
        assert(picked(plan.initial_block(k), p) =~= initial(0, k as int));
    }
    lemma_head_without(plan, p);
    lemma_middle_without(plan, p);
    plan.lemma_pick_opening(p, warmup, initial);
    lemma_one_each(n, 0, n, initial, first_run);
    lemma_two_each(n, 0, w, warmup, warmup_run, advance, t);
    let warm = in_turn(n, 0, w, warmup);
    let first = in_turn(n, 0, n, initial);
    assert(picked(plan.opening(), p) =~= warm + first);
}

/// The progress bar that several commands share moves right after each warmup run, but for the
/// conclusion of the run.
pub proof fn the_shared_bar_moves_after_each_warmup_run(plan: Plan, t: int)
    requires
        plan.wf(),
        plan.interleaved,
        plan.shows_output,
        0 <= t < plan.warmup_count * plan.commands,
    ensures
        ({
            let steps = plan.opening().filter(|step: Step| step is Measure || step is Advance);
            &&& steps.len() == 2 * (plan.warmup_count * plan.commands) + plan.commands
            &&& steps[2 * t] is Measure
            &&& steps[2 * t + 1] == Step::Advance
        }),
{
    lemma_shared_bar_moves(plan, |step: Step| step is Measure || step is Advance, t);
    reveal(picked);
}

proof fn lemma_own_bars_move(plan: Plan, count: u64, p: spec_fn(Step) -> bool, t: int)
    requires
        plan.wf(),
        count >= 1,
        plan.interleaved,
        plan.shows_command_bars,
        p == (|step: Step| step is Measure || step is AdvanceCommandBar),
        0 <= t < (count - 1) * plan.commands,
    ensures
        ({
            let n = plan.commands as int;
            let steps = picked(plan.closing(count), p);
            &&& steps.len() == 2 * ((count - 1) * n)
            &&& steps[2 * t] == (Step::Measure {
                command: (t % n) as usize,
                iteration: BenchmarkIteration::Benchmark((t / n + 1) as u64),
            })
            &&& steps[2 * t + 1] == Step::AdvanceCommandBar((t % n) as usize)
        }),
{
    let n = plan.commands as int;
    let timed_run = |round: int, c: int|
        Step::Measure {
            command: c as usize,
            iteration: BenchmarkIteration::Benchmark(round as u64),
        };
    let moves = |round: int, c: int| Step::AdvanceCommandBar(c as usize);
    let timed = |round: int, c: int| seq![timed_run(round, c), moves(round, c)];
    assert forall|r: u64, k: usize| r < count && k < plan.commands implies #[trigger] picked(
        plan.round_block(r, k),
        p,
    ) == timed(r as int, k as int) by {
        lemma_run_picked(plan, p, k, BenchmarkIteration::Benchmark(r));
        plan.lemma_pick_round_block(r, k, p);
        assert(picked(plan.round_block(r, k), p) =~= timed(r as int, k as int));
    }
    lemma_start_without(plan, count, p);
    lemma_finish_with_cleanups(plan, p);
    plan.lemma_pick_closing(count, p, timed);
    assert((count - 1) * n == count * n - n) by (nonlinear_arith);
    lemma_two_each(n, n, count * n, timed, timed_run, moves, t);
    let later = in_turn(n, n, count * n, timed);
    assert(picked(plan.closing(count), p) =~= later);
    lemma_one_round_later(n, t);
}

proof fn lemma_one_round_later(n: int, t: int)
    requires
        n > 0,
    ensures
        (n + t) / n == t / n + 1,
        (n + t) % n == t % n,
{
    vstd::arithmetic::div_mod::lemma_fundamental_div_mod(t, n);
    assert(n + t == (t / n + 1) * n + t % n) by (nonlinear_arith)
        requires
            t == n * (t / n) + t % n,
    ;
    lemma_turn_of(n, t / n + 1, t % n);
}

/// The progress bar of each of several commands moves after each run of that command but its first
/// timed run, before the next command is run.
pub proof fn command_bars_move_after_their_runs(plan: Plan, count: u64, t: int)
    requires
        plan.wf(),
        count >= 1,
        plan.interleaved,
        plan.shows_command_bars,
        0 <= t < (count - 1) * plan.commands,
    ensures
        ({
            let n = plan.commands as int;
            let steps = plan.closing(count).filter(
                |step: Step| step is Measure || step is AdvanceCommandBar,
            );
            &&& steps.len() == 2 * ((count - 1) * n)
            &&& steps[2 * t] == (Step::Measure {
                command: (t % n) as usize,
                iteration: BenchmarkIteration::Benchmark((t / n + 1) as u64),
            })
            &&& steps[2 * t + 1] == Step::AdvanceCommandBar((t % n) as usize)
        }),
{
    lemma_own_bars_move(
        plan,
        count,
        |step: Step| step is Measure || step is AdvanceCommandBar,
        t,
    );
    reveal(picked);
}

proof fn lemma_counted(plan: Plan, count: u64, p: spec_fn(Step) -> bool)
    requires
        plan.wf(),
        count >= 1,
        p == (|step: Step| step is CountRuns),
    ensures
        picked(plan.opening(), p) == seq![Step::CountRuns],
        picked(plan.closing(count), p).len() == 0,
{
    let n = plan.commands as int;
    let none = |round: int, c: int| Seq::<Step>::empty();
    assert forall|r: u64, k: usize|
        r < plan.warmup_count && k < plan.commands implies #[trigger] picked(
        plan.warmup_block(r, k),
        p,
    ) == none(r as int, k as int) by {
        plan.lemma_pick_measured(k, BenchmarkIteration::Warmup(r), p);
        plan.lemma_pick_warmup_block(r, k, p);
        assert(picked(plan.warmup_block(r, k), p) =~= Seq::<Step>::empty());
    }
    assert forall|k: usize| k < plan.commands implies #[trigger] picked(plan.initial_block(k), p)
        == none(0, k as int) by {
        plan.lemma_pick_measured(k, BenchmarkIteration::Benchmark(0), p);
        plan.lemma_pick_initial_block(k, p);
        assert(picked(plan.initial_block(k), p) =~= Seq::<Step>::empty());
    }
    assert forall|r: u64, k: usize| r < count && k < plan.commands implies #[trigger] picked(
        plan.round_block(r, k),
        p,
    ) == none(r as int, k as int) by {
        plan.lemma_pick_measured(k, BenchmarkIteration::Benchmark(r), p);
        plan.lemma_pick_round_block(r, k, p);
        assert(picked(plan.round_block(r, k), p) =~= Seq::<Step>::empty());
    }
    lemma_head_without(plan, p);
    lemma_middle_without(plan, p);
    lemma_start_without(plan, count, p);
    lemma_finish_with_cleanups(plan, p);
    plan.lemma_pick_opening(p, none, none);
    plan.lemma_pick_closing(count, p, none);
    lemma_none_each(n, 0, plan.warmup_count * n, none);
    lemma_none_each(n, 0, n, none);
    lemma_none_each(n, n, count * n, none);
    assert(picked(plan.opening(), p) =~= seq![Step::CountRuns]);
}

/// The last step from the first timed run of a command on is the count of runs.
proof fn lemma_count_is_last_from(plan: Plan, c: nat)
    requires
        c <= plan.commands,
    ensures
        plan.from_initial(c).len() > 0,
        plan.from_initial(c).last() == Step::CountRuns,
    decreases plan.commands - c,
{
    if c < plan.commands {
        lemma_count_is_last_from(plan, c + 1);
    }
}

proof fn lemma_count_is_last(plan: Plan, round: nat, c: nat)
    requires
        c <= plan.commands,
    ensures
        plan.from_warmup(round, c).len() > 0,
        plan.from_warmup(round, c).last() == Step::CountRuns,
    decreases plan.warmup_count - round, plan.commands - c,
{
    if round >= plan.warmup_count {
        lemma_count_is_last_from(plan, 0);
    } else if c >= plan.commands {
        lemma_count_is_last(plan, round + 1, 0);
    } else {
        lemma_count_is_last(plan, round, c + 1);
    }
}

/// The runs are counted once, at the end of the opening.
pub proof fn runs_are_counted_once(plan: Plan, count: u64)
    requires
        plan.wf(),
        count >= 1,
    ensures
        plan.opening().len() > 0,
        plan.opening().last() == Step::CountRuns,
        plan.opening().filter(|step: Step| step is CountRuns).len() == 1,
        plan.closing(count).filter(|step: Step| step is CountRuns).len() == 0,
{
    lemma_count_is_last(plan, 0, 0);
    lemma_counted(plan, count, |step: Step| step is CountRuns);
    reveal(picked);
}

/// Whether a step is a run or an export.
spec fn runs_and_exports() -> spec_fn(Step) -> bool {
    |step: Step| step is Measure || step is Export
}

/// The runs of one round from command `c` on, and the export after them.
spec fn rest_of_round(n: int, round: int, c: int) -> Seq<Step> {
    Seq::new(
        (n - c) as nat,
        |k: int|
            Step::Measure {
                command: (c + k) as usize,
                iteration: BenchmarkIteration::Benchmark(round as u64),
            },
    ) + seq![Step::Export]
}

proof fn lemma_rest_of_round(plan: Plan, count: u64, round: nat, c: nat)
    requires
        plan.wf(),
        plan.interleaved,
        round < count,
        c <= plan.commands,
    ensures
        picked(plan.from_round(count, round, c), runs_and_exports()) == rest_of_round(
            plan.commands as int,
            round as int,
            c as int,
        ) + picked(plan.from_round(count, round + 1, 0), runs_and_exports()),
    decreases plan.commands - c,
{
    let p = runs_and_exports();
    let n = plan.commands as int;
    let next = picked(plan.from_round(count, round + 1, 0), p);
    if c >= plan.commands {
        lemma_pick_both(plan.round_end(), plan.from_round(count, round + 1, 0), p);
        lemma_pick_one(Step::Export, p);
        assert(rest_of_round(n, round as int, c as int) =~= seq![Step::Export]);
    } else {
        let run = Step::Measure {
            command: c as usize,
            iteration: BenchmarkIteration::Benchmark(round as u64),
        };
        let block = plan.round_block(round as u64, c as usize);
        lemma_rest_of_round(plan, count, round, c + 1);
        lemma_run_picked(plan, p, c as usize, BenchmarkIteration::Benchmark(round as u64));
        plan.lemma_pick_round_block(round as u64, c as usize, p);
        assert(picked(block, p) =~= seq![run]);
        lemma_pick_both(block, plan.from_round(count, round, c + 1), p);
        let rest = rest_of_round(n, round as int, (c + 1) as int);
        assert(seq![run] + rest =~= rest_of_round(n, round as int, c as int));
        assert(seq![run] + (rest + next) =~= (seq![run] + rest) + next);
    }
}

proof fn lemma_round_exported(plan: Plan, count: u64, first: nat, round: int, k: int)
    requires
        plan.wf(),
        plan.interleaved,
        first <= round < count,
        0 <= k <= plan.commands,
    ensures
        ({
            let n = plan.commands as int;
            let steps = picked(plan.from_round(count, first, 0), runs_and_exports());
            &&& steps.len() == (count - first) * (n + 1)
            &&& 0 <= (round - first) * (n + 1) + k < steps.len()
            &&& steps[(round - first) * (n + 1) + k] == if k < n {
                (Step::Measure {
                    command: k as usize,
                    iteration: BenchmarkIteration::Benchmark(round as u64),
                })
            } else {
                Step::Export
            }
        }),
    decreases count - first,
{
    let p = runs_and_exports();
    let n = plan.commands as int;
    let now = rest_of_round(n, first as int, 0);
    let next = picked(plan.from_round(count, first + 1, 0), p);
    lemma_rest_of_round(plan, count, first, 0);
    if first + 1 == count {
        lemma_no_exports_at_last(plan, count);
        assert(next.len() == 0);
        assert(1 * (n + 1) == n + 1 && 0 * (n + 1) == 0);
    } else {
        let target: int = if round == first { (first + 1) as int } else { round };
        lemma_round_exported(plan, count, first + 1, target, k);
        assert((count - first) * (n + 1) == (count - (first + 1)) * (n + 1) + (n + 1))
            by (nonlinear_arith);
        assert((round - first) * (n + 1) == (round - (first + 1)) * (n + 1) + (n + 1))
            by (nonlinear_arith);
        if round == first {
            assert((round - first) * (n + 1) == 0) by (nonlinear_arith)
                requires
                    round == first,
            ;
        }
    }
}

proof fn lemma_no_exports_at_last(plan: Plan, count: u64)
    requires
        plan.wf(),
    ensures
        picked(plan.from_round(count, count as nat, 0), runs_and_exports()).len() == 0,
{
    lemma_finish_with_cleanups(plan, runs_and_exports());
}

/// Where several commands take turns, the results are exported after each timed round: once before
/// the second round, and then right after the last command of each round, before the first command
/// is run again.
pub proof fn each_round_ends_with_an_export(plan: Plan, count: u64, round: u64, c: usize)
    requires
        plan.wf(),
        plan.interleaved,
        1 <= round < count,
        c < plan.commands,
    ensures
        ({
            let n = plan.commands as int;
            let steps = plan.closing(count).filter(
                |step: Step| step is Measure || step is Export,
            );
            &&& steps.len() == 1 + (count - 1) * (n + 1)
            &&& steps[0] == Step::Export
            &&& steps[1 + (round - 1) * (n + 1) + c] == (Step::Measure {
                command: c,
                iteration: BenchmarkIteration::Benchmark(round),
            })
            &&& steps[1 + (round - 1) * (n + 1) + n] == Step::Export
        }),
{
    let n = plan.commands as int;
    let p = runs_and_exports();
    lemma_round_exported(plan, count, 1, round as int, c as int);
    lemma_round_exported(plan, count, 1, round as int, n);
    assert(picked(plan.start(count), p) =~= seq![Step::Export]) by {
        plan.lemma_pick_start(count, p);
    }
    lemma_pick_both(plan.start(count), plan.from_round(count, 1, 0), p);
    let steps = picked(plan.closing(count), p);
    let rest = picked(plan.from_round(count, 1, 0), p);
    assert(steps == seq![Step::Export] + rest);
    assert(steps[1 + (round - 1) * (n + 1) + c] == rest[(round - 1) * (n + 1) + c]);
    assert(steps[1 + (round - 1) * (n + 1) + n] == rest[(round - 1) * (n + 1) + n]);
    reveal(picked);
}

} // verus!
