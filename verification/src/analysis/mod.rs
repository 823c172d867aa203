//! Statistical analysis module for benchmark comparisons.
//!
//! This module provides:
//! - Bootstrap confidence intervals for speedup estimates
//! - Log-ratio based speedup calculation (geometric mean)
//! - Practical significance verdicts

pub mod bootstrap;
pub mod direction;
pub mod order;
pub mod rearrangement;
pub mod rounding;
pub mod speedup;
pub mod verdict;

pub use bootstrap::bootstrap_percentile_ci;
pub use speedup::{compute_log_ratios, compute_speedup_with_ci, speedup_from_log_ratios};
pub use verdict::{determine_verdict, Verdict};

use crate::number::Real;
use vstd::prelude::*;

verus! {

/// Result of statistical analysis comparing a command to the reference.
#[derive(Debug, Clone)]
pub struct AnalysisResult {
    /// Name of the command being analyzed
    pub command: String,
    /// Geometric mean speedup (>1 means faster than reference)
    pub speedup: Real,
    /// Lower bound of the confidence interval
    pub ci_lower: Real,
    /// Upper bound of the confidence interval
    pub ci_upper: Real,
    /// Confidence level used (e.g., 0.95)
    pub confidence: Real,
    /// Practical significance verdict
    pub verdict: Verdict,
}

} // verus!
