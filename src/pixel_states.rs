//! The states a pixel of the field passes through during one calculation
//! generation.
use vstd::prelude::*;
use crate::fractal::{path_test, path_test_spec, OrbitType};

verus! {

/// State of one domain element (pixel) of the field.
///
/// `ActiveNew` is the only state a fresh pixel starts in; every other state is
/// terminal for the generation.
#[derive(Clone, Copy, Debug, PartialEq, Eq, Structural)]
pub enum DomainElementState {
    /// Success kept from an earlier generation.
    FinishedSuccessPast,
    /// The orbit of this pixel was good.
    FinishedSuccess,
    /// Eligible for calculation.
    ActiveNew,
    /// The orbit escaped, or was too short to be of use.
    FinishedTooShort,
    /// The orbit reached the iteration cap without being of use.
    FinishedTooLong,
    /// Deliberately skipped: every neighbour finished badly.
    HibernatedDeepBlack,
}

pub open spec fn is_active_new_spec(state: DomainElementState) -> bool {
    state == DomainElementState::ActiveNew
}

pub open spec fn is_finished_any_spec(state: DomainElementState) -> bool {
    !is_active_new_spec(state)
}

pub fn is_active_new(state: DomainElementState) -> (r: bool)
    ensures
        r == is_active_new_spec(state),
{
    matches!(state, DomainElementState::ActiveNew)
}

/// Whether `state` is terminal for the generation.
pub fn is_finished_any(state: DomainElementState) -> (r: bool)
    ensures
        r == is_finished_any_spec(state),
{
    !is_active_new(state)
}

/// Whether `state` is a success, of this or of an earlier generation.
pub fn is_finished_success_any(state: DomainElementState) -> (r: bool)
    ensures
        r == (state == DomainElementState::FinishedSuccess || state
            == DomainElementState::FinishedSuccessPast),
{
    matches!(state, DomainElementState::FinishedSuccess | DomainElementState::FinishedSuccessPast)
}

/// The state an orbit attempt leads to: success when the path is good under
/// the policy; otherwise too long when the orbit reached the cap, too short
/// when it stopped before.
pub open spec fn state_from_path_length_spec(
    orbits: OrbitType,
    iterator: u32,
    length: u32,
    min: u32,
    max: u32,
) -> DomainElementState {
    if path_test_spec(orbits, min, max, length, iterator) {
        DomainElementState::FinishedSuccess
    } else if iterator >= max {
        DomainElementState::FinishedTooLong
    } else {
        DomainElementState::FinishedTooShort
    }
}

/// The terminal state of a pixel after one orbit attempt.
pub fn state_from_path_length(orbits: OrbitType, iterator: u32, length: u32, min: u32, max: u32) -> (r:
    DomainElementState)
    ensures
        r == state_from_path_length_spec(orbits, iterator, length, min, max),
        is_finished_any_spec(r),
{
    if path_test(orbits, min, max, length, iterator) {
        DomainElementState::FinishedSuccess
    } else if iterator >= max {
        DomainElementState::FinishedTooLong
    } else {
        DomainElementState::FinishedTooShort
    }
}

/// Policy correctness: under the Infinite policy an orbit succeeds exactly
/// when it is longer than `min` inside the area and reached the cap; under
/// the Finite policy exactly when it is longer than `min` and stopped before
/// the cap. Any other orbit is too long when it reached the cap and too
/// short when it stopped before.
pub proof fn lemma_policy_correctness(orbits: OrbitType, iterator: u32, length: u32, min: u32, max: u32)
    requires
        iterator <= max,
    ensures
        orbits == OrbitType::Infinite ==> (state_from_path_length_spec(orbits, iterator, length, min, max)
            == DomainElementState::FinishedSuccess <==> (length > min && iterator == max)),
        orbits == OrbitType::Finite ==> (state_from_path_length_spec(orbits, iterator, length, min, max)
            == DomainElementState::FinishedSuccess <==> (length > min && iterator < max)),
        state_from_path_length_spec(orbits, iterator, length, min, max) != DomainElementState::FinishedSuccess
            ==> (state_from_path_length_spec(orbits, iterator, length, min, max)
            == DomainElementState::FinishedTooLong <==> iterator == max),
        state_from_path_length_spec(orbits, iterator, length, min, max) != DomainElementState::FinishedSuccess
            ==> (state_from_path_length_spec(orbits, iterator, length, min, max)
            == DomainElementState::FinishedTooShort <==> iterator < max),
{
}

} // verus!
