//! A command-line benchmarking tool: how benchmarks are run, measured, analysed and compared.
//!
//! Times are numbers of [`number::Real`], which are ordered here but not computed with: sums, means,
//! logarithms and the like come from the caller. Running commands, writing files and printing are
//! the caller's too.

pub mod analysis;
pub mod benchmark;
pub mod command;
pub mod number;
pub mod options;
pub mod output;
pub mod random;
