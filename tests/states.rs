use rusty_fractals::fractal::{path_test, OrbitType};
use rusty_fractals::pixel_states::{
    is_active_new, is_finished_any, is_finished_success_any, state_from_path_length, DomainElementState,
};

#[test]
fn path_test_infinite_policy() {
    assert!(path_test(OrbitType::Infinite, 3, 10, 4, 10));
    assert!(!path_test(OrbitType::Infinite, 3, 10, 3, 10));
    assert!(!path_test(OrbitType::Infinite, 3, 10, 4, 9));
}

#[test]
fn path_test_finite_policy() {
    assert!(path_test(OrbitType::Finite, 3, 10, 4, 9));
    assert!(!path_test(OrbitType::Finite, 3, 10, 4, 10));
    assert!(!path_test(OrbitType::Finite, 3, 10, 3, 9));
}

#[test]
fn state_transitions() {
    assert_eq!(state_from_path_length(OrbitType::Infinite, 10, 4, 3, 10), DomainElementState::FinishedSuccess);
    assert_eq!(state_from_path_length(OrbitType::Infinite, 10, 2, 3, 10), DomainElementState::FinishedTooLong);
    assert_eq!(state_from_path_length(OrbitType::Infinite, 7, 5, 3, 10), DomainElementState::FinishedTooShort);
    assert_eq!(state_from_path_length(OrbitType::Finite, 7, 5, 3, 10), DomainElementState::FinishedSuccess);
    assert_eq!(state_from_path_length(OrbitType::Finite, 10, 5, 3, 10), DomainElementState::FinishedTooLong);
    assert_eq!(state_from_path_length(OrbitType::Finite, 7, 2, 3, 10), DomainElementState::FinishedTooShort);
}

#[test]
fn state_predicates() {
    assert!(is_active_new(DomainElementState::ActiveNew));
    assert!(!is_finished_any(DomainElementState::ActiveNew));
    assert!(is_finished_any(DomainElementState::HibernatedDeepBlack));
    assert!(is_finished_success_any(DomainElementState::FinishedSuccessPast));
    assert!(!is_finished_success_any(DomainElementState::FinishedTooShort));
}
