//! The result of benchmarking one command.

use crate::analysis::bootstrap::takes_samples;
use crate::benchmark::accumulator::CommandAccumulator;
use crate::benchmark::statistics::{
    are_numbers, are_statistics, statistics_describe_their_times, takes_any_samples,
    takes_several_samples, BenchmarkStatistics,
};
use crate::command::{copy_parameters, parameters_view, same_parameters_pair_up, CommandLabel};
use crate::number::{Real, Second};
use vstd::prelude::*;

verus! {

/// Set of values that will be exported.
pub struct BenchmarkResult {
    /// The name of the command
    pub command: String,
    /// The name, followed by the parameters that the command line does not use
    pub command_with_unused_parameters: String,
    /// The average run time
    pub mean: Second,
    /// The standard deviation of all run times, where there is more than one
    pub stddev: Option<Second>,
    /// The median run time
    pub median: Second,
    /// Average user time
    pub user: Second,
    /// Average system time
    pub system: Second,
    /// Minimum of all measured times
    pub min: Second,
    /// Maximum of all measured times
    pub max: Second,
    /// All run time measurements
    pub times: Option<Vec<Second>>,
    /// Maximum memory usage of the process, in bytes
    pub memory_usage_byte: Option<Vec<u64>>,
    /// Exit codes of all command invocations
    pub exit_codes: Vec<Option<i32>>,
    /// Parameter values for this benchmark
    pub parameters: Vec<(String, String)>,
}

impl BenchmarkResult {
    /// The statistics that are part of the result.
    pub open spec fn statistics(self) -> BenchmarkStatistics {
        BenchmarkStatistics {
            mean: self.mean,
            stddev: self.stddev,
            median: self.median,
            min: self.min,
            max: self.max,
            user_mean: self.user,
            system_mean: self.system,
        }
    }

    /// Whether the result goes by the names and has the parameters of the given label.
    pub open spec fn is_labelled(self, label: CommandLabel) -> bool {
        &&& self.command@ == label.name@
        &&& self.command_with_unused_parameters@ == label.name_with_unused_parameters@
        &&& parameters_view(self.parameters@) == parameters_view(label.parameters@)
    }

    /// Whether the result holds every run of the accumulator.
    pub open spec fn holds_runs_of(self, accumulator: CommandAccumulator) -> bool {
        &&& self.times matches Some(times) && times@ == accumulator.times_real@
        &&& self.memory_usage_byte matches Some(usage) && usage@ == accumulator.memory_usage_byte@
        &&& self.exit_codes@ == accumulator.exit_codes@
    }
}

/// Whether `result` is what the accumulator makes of its runs, under the given label.
pub open spec fn is_result_of<
    M: Fn(&[Real]) -> Real,
    S: Fn(&[Real], Real) -> Real,
    D: Fn(&[Real]) -> Real,
>(
    accumulator: CommandAccumulator,
    label: CommandLabel,
    mean: M,
    stddev: S,
    median: D,
    result: BenchmarkResult,
) -> bool {
    &&& result.is_labelled(label)
    &&& result.holds_runs_of(accumulator)
    &&& are_statistics(
        accumulator.times_real@,
        accumulator.times_user@,
        accumulator.times_system@,
        mean,
        stddev,
        median,
        result.statistics(),
    )
}

impl CommandAccumulator {
    /// Get statistics from accumulated times
    pub fn get_statistics<
        M: Fn(&[Real]) -> Real,
        S: Fn(&[Real], Real) -> Real,
        D: Fn(&[Real]) -> Real,
    >(&self, mean: &M, stddev: &S, median: &D) -> (stats: BenchmarkStatistics)
        requires
            self.times_real@.len() > 0,
            are_numbers(self.times_real@),
            takes_any_samples(*mean),
            takes_several_samples(*stddev),
            takes_samples(*median),
        ensures
            are_statistics(
                self.times_real@,
                self.times_user@,
                self.times_system@,
                *mean,
                *stddev,
                *median,
                stats,
            ),
    {
        BenchmarkStatistics::from_times(
            self.times_real.as_slice(),
            self.times_user.as_slice(),
            self.times_system.as_slice(),
            mean,
            stddev,
            median,
        )
    }

    /// Build a BenchmarkResult from accumulated data
    pub fn build_result<
        M: Fn(&[Real]) -> Real,
        S: Fn(&[Real], Real) -> Real,
        D: Fn(&[Real]) -> Real,
    >(&self, label: &CommandLabel, mean: &M, stddev: &S, median: &D) -> (result: BenchmarkResult)
        requires
            self.times_real@.len() > 0,
            are_numbers(self.times_real@),
            takes_any_samples(*mean),
            takes_several_samples(*stddev),
            takes_samples(*median),
        ensures
            is_result_of(*self, *label, *mean, *stddev, *median, result),
    {
        let stats = self.get_statistics(mean, stddev, median);
        let times = self.times_real.clone();
        assert(times@ =~= self.times_real@);
        let memory_usage_byte = self.memory_usage_byte.clone();
        assert(memory_usage_byte@ =~= self.memory_usage_byte@);
        let exit_codes = self.exit_codes.clone();
        assert(exit_codes@ =~= self.exit_codes@);
        let result = BenchmarkResult {
            command: label.name.clone(),
            command_with_unused_parameters: label.name_with_unused_parameters.clone(),
            mean: stats.mean,
            stddev: stats.stddev,
            median: stats.median,
            user: stats.user_mean,
            system: stats.system_mean,
            min: stats.min,
            max: stats.max,
            times: Some(times),
            memory_usage_byte: Some(memory_usage_byte),
            exit_codes,
            parameters: copy_parameters(&label.parameters),
        };
        assert(result.statistics() == stats);
        result
    }
}

/// A result holds the run times, the memory usage and the exit code of every run, in order, and goes
/// by the names of its label, with the same parameters. Its statistics are those of its runs.
pub proof fn a_result_tells_of_every_run<
    M: Fn(&[Real]) -> Real,
    S: Fn(&[Real], Real) -> Real,
    D: Fn(&[Real]) -> Real,
>(
    accumulator: CommandAccumulator,
    label: CommandLabel,
    mean: M,
    stddev: S,
    median: D,
    result: BenchmarkResult,
    i: int,
)
    requires
        accumulator.wf(),
        is_result_of(accumulator, label, mean, stddev, median, result),
        0 <= i < accumulator.runs().len(),
    ensures
        result.times is Some,
        result.memory_usage_byte is Some,
        result.times->0@.len() == accumulator.runs().len(),
        result.memory_usage_byte->0@.len() == accumulator.runs().len(),
        result.exit_codes@.len() == accumulator.runs().len(),
        result.times->0@[i] == accumulator.runs()[i].result.time_real,
        result.memory_usage_byte->0@[i] == accumulator.runs()[i].result.memory_usage_byte,
        result.exit_codes@[i] == accumulator.runs()[i].exit_code,
        result.min.le(accumulator.runs()[i].result.time_real),
        accumulator.runs()[i].result.time_real.le(result.max),
        result.times->0@.contains(result.min),
        result.times->0@.contains(result.max),
        result.stddev is Some <==> accumulator.runs().len() >= 2,
        exists|x: &[Real]| #[trigger]
            call_ensures(mean, (x,), result.mean) && x@ == accumulator.times_real@,
        exists|x: &[Real]| #[trigger]
            call_ensures(median, (x,), result.median) && x@ == accumulator.times_real@,
        exists|x: &[Real]| #[trigger]
            call_ensures(mean, (x,), result.user) && x@ == accumulator.times_user@,
        exists|x: &[Real]| #[trigger]
            call_ensures(mean, (x,), result.system) && x@ == accumulator.times_system@,
        result.stddev matches Some(deviation) ==> exists|x: &[Real]|
            #[trigger] call_ensures(stddev, (x, result.mean), deviation) && x@
                == accumulator.times_real@,
        result.command@ == label.name@,
        result.command_with_unused_parameters@ == label.name_with_unused_parameters@,
        result.parameters@.len() == label.parameters@.len(),
        forall|k: int|
            0 <= k < label.parameters@.len() ==> (#[trigger] result.parameters@[k]).0@
                == label.parameters@[k].0@ && result.parameters@[k].1@ == label.parameters@[k].1@,
{
    statistics_describe_their_times(
        accumulator.times_real@,
        accumulator.times_user@,
        accumulator.times_system@,
        mean,
        stddev,
        median,
        result.statistics(),
        i,
    );
    same_parameters_pair_up(result.parameters@, label.parameters@);
}

} // verus!
