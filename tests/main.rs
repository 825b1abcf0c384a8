use rusty_fractals::pixel_states::{is_active_new, DomainElementState};

#[test]
fn main_test_it() {
    assert!(is_active_new(DomainElementState::ActiveNew));
}
