//! Running benchmarks and making sense of what was measured.
//!
//! A [`plan::Plan`] lays down the steps of a benchmark, and a [`run::BenchmarkRun`] goes through
//! them while it keeps the measurements of each command in an accumulator. From these come the
//! statistics, the warnings and the results; the [`scheduler::Scheduler`] decides which benchmarks
//! there are and compares their results.

pub mod accumulator;
pub mod bars;
pub mod count;
pub mod course;
pub mod discipline;
pub mod display;
pub mod initial;
pub mod intermediate;
pub mod plan;
pub mod progress;
pub mod relative_speed;
pub mod result;
pub mod rounds;
pub mod run;
pub mod scheduler;
pub mod sequence;
pub mod session;
pub mod statistics;
pub mod timed;
pub mod trace;
pub mod warnings;

pub use accumulator::CommandAccumulator;
pub use count::calculate_run_count;
pub use intermediate::{
    build_cleanup_command, build_conclusion_command, build_preparation_command,
    build_setup_command,
};
pub use run::Benchmark;
pub use statistics::BenchmarkStatistics;
pub use warnings::generate_warnings;
