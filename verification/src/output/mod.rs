//! What is shown while benchmarks run.

pub mod progress_bar;
