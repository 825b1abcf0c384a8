//! Supersampling factor of the pixels near the set's horizon.
use vstd::prelude::*;

verus! {

/// Each pixel near the horizon is sampled on an `n` by `n` grid of
/// sub-origins; `Single` turns the pass off.
#[derive(Clone, Copy, Debug, PartialEq, Eq, Structural)]
pub enum ResolutionMultiplier {
    Single,
    Square2,
    Square3,
    Square5,
    Square9,
    Square11,
}

pub open spec fn multiplier_spec(rm: ResolutionMultiplier) -> usize {
    match rm {
        ResolutionMultiplier::Single => 1,
        ResolutionMultiplier::Square2 => 2,
        ResolutionMultiplier::Square3 => 3,
        ResolutionMultiplier::Square5 => 5,
        ResolutionMultiplier::Square9 => 9,
        ResolutionMultiplier::Square11 => 11,
    }
}

/// Sub-origins per side of a pixel's cell.
pub fn multiplier(rm: ResolutionMultiplier) -> (r: usize)
    ensures
        r == multiplier_spec(rm),
{
    match rm {
        ResolutionMultiplier::Single => 1,
        ResolutionMultiplier::Square2 => 2,
        ResolutionMultiplier::Square3 => 3,
        ResolutionMultiplier::Square5 => 5,
        ResolutionMultiplier::Square9 => 9,
        ResolutionMultiplier::Square11 => 11,
    }
}

} // verus!
