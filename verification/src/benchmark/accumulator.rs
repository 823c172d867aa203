//! Timing data as it is collected.

use crate::number::Second;
use vstd::prelude::*;

verus! {

/// Results from timing a single command.
#[derive(Debug, Clone, Copy, PartialEq, Eq, Structural)]
pub struct TimingResult {
    /// Wall clock time
    pub time_real: Second,
    /// Time spent in user mode
    pub time_user: Second,
    /// Time spent in kernel mode
    pub time_system: Second,
    /// Maximum amount of memory used, in bytes
    pub memory_usage_byte: u64,
}

/// Accumulator for collecting benchmark timing data during execution
pub struct CommandAccumulator {
    pub times_real: Vec<Second>,
    pub times_user: Vec<Second>,
    pub times_system: Vec<Second>,
    pub memory_usage_byte: Vec<u64>,
    pub exit_codes: Vec<Option<i32>>,
    pub all_succeeded: bool,
}

/// One run of a command as it was recorded.
pub struct Run {
    pub result: TimingResult,
    pub exit_code: Option<i32>,
}

impl CommandAccumulator {
    /// Whether every run has left one entry in each list.
    pub open spec fn wf(self) -> bool {
        &&& self.times_user@.len() == self.times_real@.len()
        &&& self.times_system@.len() == self.times_real@.len()
        &&& self.memory_usage_byte@.len() == self.times_real@.len()
        &&& self.exit_codes@.len() == self.times_real@.len()
    }

    /// The runs that were recorded, in order.
    pub open spec fn runs(self) -> Seq<Run> {
        Seq::new(
            self.times_real@.len(),
            |i: int|
                Run {
                    result: TimingResult {
                        time_real: self.times_real@[i],
                        time_user: self.times_user@[i],
                        time_system: self.times_system@[i],
                        memory_usage_byte: self.memory_usage_byte@[i],
                    },
                    exit_code: self.exit_codes@[i],
                },
        )
    }

    /// An accumulator without any run.
    pub fn new() -> (accumulator: CommandAccumulator)
        ensures
            accumulator.wf(),
            accumulator.runs() == Seq::<Run>::empty(),
            accumulator.all_succeeded,
    {
        let accumulator = CommandAccumulator {
            times_real: Vec::new(),
            times_user: Vec::new(),
            times_system: Vec::new(),
            memory_usage_byte: Vec::new(),
            exit_codes: Vec::new(),
            all_succeeded: true,
        };
        assert(accumulator.runs() =~= Seq::<Run>::empty());
        accumulator
    }

    /// Add a timing result to the accumulator
    pub fn add_result(&mut self, res: &TimingResult, exit_code: Option<i32>, success: bool)
        requires
            old(self).wf(),
        ensures
            final(self).wf(),
            final(self).runs() == old(self).runs().push((Run { result: *res, exit_code })),
            final(self).all_succeeded == (old(self).all_succeeded && success),
    {
        self.times_real.push(res.time_real);
        self.times_user.push(res.time_user);
        self.times_system.push(res.time_system);
        self.memory_usage_byte.push(res.memory_usage_byte);
        self.exit_codes.push(exit_code);
        self.all_succeeded = self.all_succeeded && success;
        assert(self.runs() =~= old(self).runs().push(Run { result: *res, exit_code }));
    }

    /// Get number of runs
    pub fn run_count(&self) -> (count: usize)
        ensures
            count == self.runs().len(),
    {
        self.times_real.len()
    }
}

impl Default for CommandAccumulator {
    fn default() -> (accumulator: CommandAccumulator)
        ensures
            accumulator.wf(),
            accumulator.runs() == Seq::<Run>::empty(),
            accumulator.all_succeeded,
    {
        CommandAccumulator::new()
    }
}

/// The entries of the lists at one place are those of one run.
pub proof fn lists_are_of_the_runs(accumulator: CommandAccumulator, i: int)
    requires
        accumulator.wf(),
        0 <= i < accumulator.times_real@.len(),
    ensures
        accumulator.runs().len() == accumulator.times_real@.len(),
        accumulator.runs()[i].result.time_real == accumulator.times_real@[i],
        accumulator.runs()[i].result.time_user == accumulator.times_user@[i],
        accumulator.runs()[i].result.time_system == accumulator.times_system@[i],
        accumulator.runs()[i].result.memory_usage_byte == accumulator.memory_usage_byte@[i],
        accumulator.runs()[i].exit_code == accumulator.exit_codes@[i],
{
}

/// One more run adds one entry to the end of each list, and leaves the others as they are.
pub proof fn a_run_adds_to_each_list(
    before: CommandAccumulator,
    after: CommandAccumulator,
    result: TimingResult,
    exit_code: Option<i32>,
)
    requires
        before.wf(),
        after.wf(),
        after.runs() == before.runs().push((Run { result, exit_code })),
    ensures
        after.times_real@ == before.times_real@.push(result.time_real),
        after.times_user@ == before.times_user@.push(result.time_user),
        after.times_system@ == before.times_system@.push(result.time_system),
        after.memory_usage_byte@ == before.memory_usage_byte@.push(result.memory_usage_byte),
        after.exit_codes@ == before.exit_codes@.push(exit_code),
{
    let n = before.times_real@.len() as int;
    assert(after.runs().len() == n + 1);
    assert(after.runs()[n] == (Run { result, exit_code }));
    assert forall|i: int| 0 <= i < n implies #[trigger] after.runs()[i] == before.runs()[i] by {}
    assert forall|i: int| 0 <= i < n + 1 implies after.times_real@[i] == before.times_real@.push(
        result.time_real,
    )[i] by {
        assert(after.runs()[i].result.time_real == after.times_real@[i]);
        if i < n {
            assert(after.runs()[i] == before.runs()[i]);
        }
    }
    assert forall|i: int| 0 <= i < n + 1 implies after.times_user@[i] == before.times_user@.push(
        result.time_user,
    )[i] by {
        assert(after.runs()[i].result.time_user == after.times_user@[i]);
        if i < n {
            assert(after.runs()[i] == before.runs()[i]);
        }
    }
    assert forall|i: int| 0 <= i < n + 1 implies after.times_system@[i] == before.times_system@.push(
        result.time_system,
    )[i] by {
        assert(after.runs()[i].result.time_system == after.times_system@[i]);
        if i < n {
            assert(after.runs()[i] == before.runs()[i]);
        }
    }
    assert forall|i: int| 0 <= i < n + 1 implies after.memory_usage_byte@[i]
        == before.memory_usage_byte@.push(result.memory_usage_byte)[i] by {
        assert(after.runs()[i].result.memory_usage_byte == after.memory_usage_byte@[i]);
        if i < n {
            assert(after.runs()[i] == before.runs()[i]);
        }
    }
    assert forall|i: int| 0 <= i < n + 1 implies after.exit_codes@[i] == before.exit_codes@.push(
        exit_code,
    )[i] by {
        assert(after.runs()[i].exit_code == after.exit_codes@[i]);
        if i < n {
            assert(after.runs()[i] == before.runs()[i]);
        }
    }
    assert(after.times_real@ =~= before.times_real@.push(result.time_real));
    assert(after.times_user@ =~= before.times_user@.push(result.time_user));
    assert(after.times_system@ =~= before.times_system@.push(result.time_system));
    assert(after.memory_usage_byte@ =~= before.memory_usage_byte@.push(result.memory_usage_byte));
    assert(after.exit_codes@ =~= before.exit_codes@.push(exit_code));
}

} // verus!
