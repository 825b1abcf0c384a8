use rusty_fractals::area;
use rusty_fractals::data_image;
use rusty_fractals::fractal::{calculate_mandelbrot_path, calculate_path, investigate_path, record_path, OrbitType};
use rusty_fractals::fractals::{self, Nebula};
use rusty_fractals::machine::{self, Machine};
use rusty_fractals::mem::{Mem, SCALE};
use rusty_fractals::pixel_states::DomainElementState;

#[test]
fn fractal_test_calculate_path() {
    let area = area::init_trivial();
    let mut data_image = data_image::init_trivial();
    let fractal = fractals::init_trivial();
    let (iterator, length) =
        calculate_path(&fractal, &area, 1, 5, OrbitType::Finite, 0, 0, &mut data_image);
    assert_eq!(iterator, 5);
    assert_eq!(length, 0);
}

#[test]
fn machine_test_calculate_path() {
    let area = area::init_trivial();
    let mut data_image = data_image::init_trivial();
    let fractal = fractals::init_trivial();
    let (iterator, length) =
        calculate_path(&fractal, &area, 1, 5, OrbitType::Infinite, 0, 0, &mut data_image);
    assert_eq!(iterator, 5);
    assert_eq!(length, 0);
    // the area is empty: nothing is deposited even under the Infinite policy
    assert!(data_image.pixels.iter().all(|p| p.value == 0));
}

#[test]
fn test_calculate_path_xy() {
    let fractal = fractals::init_trivial();
    let mut machine = machine::init_trivial();
    machine.calculate_path_xy(0, 0, &fractal);
    // the trivial area holds no point: the orbit is too short to be good,
    // and it never escapes, so it reaches the cap
    assert_eq!(machine.data_image.pixels[0].state, DomainElementState::FinishedTooLong);
    assert_eq!(machine.data_image.pixels[1].state, DomainElementState::ActiveNew);
}

#[test]
fn test_chunk_calculation_mandelbrot() {
    let mm: Machine = machine::init_trivial();
    let mut mm = mm;
    let fractal = fractals::init_trivial();
    mm.chunk_calculation_mandelbrot(&fractal, (0, 0));
    // on a 10 by 10 screen chunk (0, 0) is empty: nothing changes
    assert!(mm.data_image.pixels.iter().all(|p| p.state == DomainElementState::ActiveNew));
    // chunk (1, 1) is pixel (0, 0), whose origin 0 never escapes
    mm.chunk_calculation_mandelbrot(&fractal, (1, 1));
    assert_eq!(mm.data_image.pixels[0].value, 100);
    assert_eq!(mm.data_image.pixels[0].state, DomainElementState::FinishedTooLong);
    assert!(mm.data_image.pixels[1..].iter().all(|p| p.state == DomainElementState::ActiveNew));
}

#[test]
fn orbit_escapes_on_second_state() {
    let a = area::init(10, 10, 4 * SCALE, 0, 0);
    let nebula = Nebula {};
    // 1 -> 2, whose squared magnitude reaches the boundary
    let (iterator, length) = investigate_path(&nebula, &a, 20, SCALE, 0);
    assert_eq!(iterator, 1);
    assert_eq!(length, 0);
    let (iterator, quad) = calculate_mandelbrot_path(&nebula, 20, SCALE, 0);
    assert_eq!(iterator, 1);
    assert_eq!(quad, 4 * (SCALE as u128) * (SCALE as u128));
}

#[test]
fn origin_on_boundary_takes_no_step() {
    let a = area::init(10, 10, 4 * SCALE, 0, 0);
    let (iterator, length) = investigate_path(&Nebula {}, &a, 20, -2 * SCALE, 0);
    assert_eq!((iterator, length), (0, 0));
}

#[test]
fn orbit_determinism() {
    let a = area::init(10, 10, 4 * SCALE, 0, 0);
    let first = investigate_path(&Nebula {}, &a, 20, 3 * SCALE / 10, 0);
    let second = investigate_path(&Nebula {}, &a, 20, 3 * SCALE / 10, 0);
    assert_eq!(first, second);
    assert_eq!(first, (11, 10));
}

#[test]
fn divergence_bound_on_bounded_orbit() {
    let a = area::init(10, 10, 4 * SCALE, 0, 0);
    // -1 cycles between 0 and -1: the orbit reaches the cap
    let (iterator, length) = investigate_path(&Nebula {}, &a, 20, -SCALE, 0);
    assert_eq!(iterator, 20);
    assert_eq!(length, 20);
    let (iterator, quad) = calculate_mandelbrot_path(&Nebula {}, 20, -SCALE, 0);
    assert_eq!(iterator, 20);
    assert!(quad < 4 * (SCALE as u128) * (SCALE as u128));
}

#[test]
fn good_path_is_recorded_and_deposited() {
    let a = area::init(10, 10, 4 * SCALE, 0, 0);
    let nebula = Nebula {};
    let path = record_path(&nebula, &a, 20, 11, 3 * SCALE / 10, 0);
    assert_eq!(path.len(), 10);
    assert_eq!(path[0], Mem { re: 39_000_000, im: 0 });
    assert_eq!(path[9], Mem { re: 137_596_772, im: 0 });
    let mut grid = data_image::init(&a);
    let (iterator, length) = calculate_path(&nebula, &a, 1, 20, OrbitType::Finite, 3 * SCALE / 10, 0, &mut grid);
    assert_eq!((iterator, length), (11, 10));
    assert_eq!(grid.value_at(5, 5), 1);
    assert_eq!(grid.value_at(6, 5), 6);
    assert_eq!(grid.value_at(7, 5), 2);
    assert_eq!(grid.value_at(8, 5), 1);
    let total: u32 = grid.pixels.iter().map(|p| p.value).sum();
    assert_eq!(total, 10);
}

#[test]
fn bad_path_is_not_deposited() {
    let a = area::init(10, 10, 4 * SCALE, 0, 0);
    let mut grid = data_image::init(&a);
    // escapes before the cap: not good under the Infinite policy
    let (iterator, length) =
        calculate_path(&Nebula {}, &a, 1, 20, OrbitType::Infinite, 3 * SCALE / 10, 0, &mut grid);
    assert_eq!((iterator, length), (11, 10));
    assert!(grid.pixels.iter().all(|p| p.value == 0));
}
