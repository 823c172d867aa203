//! Practical significance verdict determination.
//!
//! Determines whether a speedup is practically significant based on the confidence interval and
//! the zone around one that a user-defined threshold (delta) spans.

use crate::number::Real;
use vstd::prelude::*;

verus! {

/// Verdict on practical significance of a speedup.
#[derive(Debug, Clone, Copy, PartialEq, Eq, Structural)]
pub enum Verdict {
    /// Command is faster than reference (interval entirely above the zone)
    Faster,
    /// Command is slower than reference (interval entirely below the zone)
    Slower,
    /// No practical difference (interval overlaps the zone)
    NoClearDifference,
}

/// The speedups that count as no practical difference: from one less delta to one plus delta.
#[derive(Debug, Clone, Copy, PartialEq, Eq, Structural)]
pub struct EquivalenceZone {
    /// One less delta
    pub lower: Real,
    /// One plus delta
    pub upper: Real,
}

/// Whether `f` may be called with every delta.
pub open spec fn takes_deltas<Z: Fn(Real) -> EquivalenceZone>(f: Z) -> bool {
    forall|delta: Real| #[trigger] call_requires(f, (delta,))
}

impl Verdict {
    /// The words for the verdict.
    pub open spec fn words(self) -> Seq<char> {
        match self {
            Verdict::Faster => "faster"@,
            Verdict::Slower => "slower"@,
            Verdict::NoClearDifference => "no clear difference"@,
        }
    }

    /// Returns a human-readable description of the verdict.
    pub fn description(&self) -> (text: &'static str)
        ensures
            text@ == self.words(),
    {
        match self {
            Verdict::Faster => "faster",
            Verdict::Slower => "slower",
            Verdict::NoClearDifference => "no clear difference",
        }
    }

    /// The verdict as it is displayed: its description.
    pub fn to_string(&self) -> (text: String)
        ensures
            text@ == self.words(),
    {
        self.description().to_owned()
    }
}

/// Whether `x` lies between the two bounds.
pub open spec fn within(x: Real, lower: Real, upper: Real) -> bool {
    lower.le(x) && x.le(upper)
}

/// Determines the practical significance verdict.
///
/// The verdict is determined by comparing the confidence interval against the practical equivalence
/// zone:
///
/// - "faster": entire interval is above the zone
/// - "slower": entire interval is below the zone
/// - "no clear difference": interval overlaps the zone
///
/// A bound that is NaN is neither above nor below the zone.
pub fn determine_verdict(ci_lower: Real, ci_upper: Real, zone: EquivalenceZone) -> (verdict: Verdict)
    ensures
        verdict == verdict_of(ci_lower, ci_upper, zone),
{
    if zone.upper.less_than(&ci_lower) {
        Verdict::Faster
    } else if ci_upper.less_than(&zone.lower) {
        Verdict::Slower
    } else {
        Verdict::NoClearDifference
    }
}

/// The verdict on the interval between the two bounds.
pub open spec fn verdict_of(ci_lower: Real, ci_upper: Real, zone: EquivalenceZone) -> Verdict {
    if zone.upper.lt(ci_lower) {
        Verdict::Faster
    } else if ci_upper.lt(zone.lower) {
        Verdict::Slower
    } else {
        Verdict::NoClearDifference
    }
}

/// Of an interval and a zone whose bounds are in order, the verdict says where they lie: the command
/// is faster just when the whole interval is above the zone, slower just when it is below, and there
/// is no clear difference just when they share a number.
pub proof fn verdict_tells_overlap(ci_lower: Real, ci_upper: Real, zone: EquivalenceZone)
    requires
        ci_lower.le(ci_upper),
        zone.lower.le(zone.upper),
    ensures
        verdict_of(ci_lower, ci_upper, zone) == Verdict::Faster <==> (forall|x: Real|
            #[trigger] within(x, ci_lower, ci_upper) ==> zone.upper.lt(x)),
        verdict_of(ci_lower, ci_upper, zone) == Verdict::Slower <==> (forall|x: Real|
            #[trigger] within(x, ci_lower, ci_upper) ==> x.lt(zone.lower)),
        verdict_of(ci_lower, ci_upper, zone) == Verdict::NoClearDifference <==> (exists|x: Real|
            #[trigger] within(x, ci_lower, ci_upper) && within(x, zone.lower, zone.upper)),
{
    assert(within(ci_lower, ci_lower, ci_upper));
    assert(within(ci_upper, ci_lower, ci_upper));
    if !zone.upper.lt(ci_lower) && !ci_upper.lt(zone.lower) {
        let shared = if ci_lower.lt(zone.lower) { zone.lower } else { ci_lower };
        assert(within(shared, ci_lower, ci_upper) && within(shared, zone.lower, zone.upper));
    }
}

/// The command is faster just when the zone ends below the lower bound, and else slower just when
/// the upper bound is below the zone. A NaN is on neither side.
pub proof fn verdict_tells_sides(ci_lower: Real, ci_upper: Real, zone: EquivalenceZone)
    ensures
        verdict_of(ci_lower, ci_upper, zone) == Verdict::Faster <==> zone.upper.lt(ci_lower),
        verdict_of(ci_lower, ci_upper, zone) == Verdict::Slower <==> (ci_upper.lt(zone.lower)
            && !zone.upper.lt(ci_lower)),
        ci_lower.nan() && ci_upper.nan() ==> verdict_of(ci_lower, ci_upper, zone)
            == Verdict::NoClearDifference,
{
}

/// A wider interval never makes up a difference: where a command is faster, or slower, by an
/// interval, it is so by every interval within it.
pub proof fn narrower_intervals_keep_a_difference(
    ci_lower: Real,
    ci_upper: Real,
    inner_lower: Real,
    inner_upper: Real,
    zone: EquivalenceZone,
)
    requires
        ci_lower.le(inner_lower),
        inner_lower.le(inner_upper),
        inner_upper.le(ci_upper),
        zone.lower.le(zone.upper),
        verdict_of(ci_lower, ci_upper, zone) != Verdict::NoClearDifference,
    ensures
        verdict_of(inner_lower, inner_upper, zone) == verdict_of(ci_lower, ci_upper, zone),
{
}

} // verus!
