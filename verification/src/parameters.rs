//! Fixed-point scales and limits of the memory kernel.

use vstd::prelude::*;

verus! {

/// Fixed-point denominator representing the unit value.
pub const SCALE: u32 = 1_000_000;

/// Fraction of relevance weight projected into a recall score.
pub const PROPAGATION_GAIN_PPM: u32 = 400_000;

/// Maximum cue-derived contribution to a recall score.
pub const STRUCTURAL_GAIN_PPM: u32 = 400_000;

/// Maximum magnitude of the learned contribution to a recall score.
pub const LEARNED_GAIN_PPM: u32 = 400_000;

/// Number of most recent samples that one feedback trace retains.
pub const FEEDBACK_HISTORY_CAPACITY: u8 = 16;

/// Weight of the neutral prior against which feedback samples are balanced.
pub const FEEDBACK_PRIOR_MASS: u8 = 7;

/// Preferred relevance change applied to each target in one feedback event.
pub const FEEDBACK_TARGET_STEP_PPM: u32 = 1_000;

/// Maximum aggregate direct target adjustment in one feedback event.
pub const FEEDBACK_MAX_EVENT_PPM: u32 = 10_000;

/// Maximum number of target entries accepted by one feedback event.
///
/// This equals [`FEEDBACK_MAX_EVENT_PPM`] so every accepted target can receive
/// at least one ppm before the remaining outgoing capacity is considered.
pub const MAX_FEEDBACK_TARGETS: usize = 10_000;

/// The gains and steps stay inside the fixed-point scale, and one event can
/// reach every accepted target.
pub proof fn law_parameters_are_coherent()
    ensures
        PROPAGATION_GAIN_PPM <= SCALE,
        STRUCTURAL_GAIN_PPM + PROPAGATION_GAIN_PPM <= SCALE,
        STRUCTURAL_GAIN_PPM + LEARNED_GAIN_PPM <= SCALE,
        FEEDBACK_TARGET_STEP_PPM <= FEEDBACK_MAX_EVENT_PPM,
        FEEDBACK_MAX_EVENT_PPM <= SCALE,
        MAX_FEEDBACK_TARGETS == FEEDBACK_MAX_EVENT_PPM,
{
}

} // verus!
