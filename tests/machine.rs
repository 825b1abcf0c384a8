use rusty_fractals::fractal::{CalculationType, FractalConfig, FractalType, OrbitType};
use rusty_fractals::fractals::{Infinity, Nebula};
use rusty_fractals::machine::{self, shuffled_calculation_coordinates, ConfigError, Machine};
use rusty_fractals::mem::SCALE;
use rusty_fractals::pixel_states::DomainElementState;
use rusty_fractals::resolution_multiplier::{multiplier, ResolutionMultiplier};

fn config(width_x: usize, height_y: usize) -> FractalConfig {
    FractalConfig {
        iteration_min: 1,
        iteration_max: 20,
        fractal_type: FractalType::Nebula,
        resolution_multiplier: ResolutionMultiplier::Single,
        palette_size: 4,
        palette_zero_size: 2,
        width_x,
        height_y,
        width_re: 4 * SCALE,
        center_re: 0,
        center_im: 0,
        calc_type: CalculationType::StaticImage,
        orbits: OrbitType::Finite,
        update_max: 150,
        update_min: 0,
    }
}

fn machine_for(c: &FractalConfig) -> Machine {
    match machine::init(c) {
        Ok(m) => m,
        Err(e) => panic!("{:?}", e),
    }
}

#[test]
fn init_refuses_bad_iteration_bounds() {
    let mut c = config(20, 20);
    c.iteration_min = 0;
    assert!(matches!(machine::init(&c), Err(ConfigError::InvalidIterationBounds)));
    c.iteration_min = 20;
    assert!(matches!(machine::init(&c), Err(ConfigError::InvalidIterationBounds)));
}

#[test]
fn init_refuses_bad_area() {
    let mut c = config(20, 20);
    c.width_re = 0;
    assert!(matches!(machine::init(&c), Err(ConfigError::InvalidArea)));
    let mut c = config(0, 20);
    assert!(matches!(machine::init(&c), Err(ConfigError::InvalidArea)));
    c.width_x = 20;
    c.width_re = -SCALE;
    assert!(matches!(machine::init(&c), Err(ConfigError::InvalidArea)));
}

#[test]
fn init_refuses_empty_palette() {
    let mut c = config(20, 20);
    c.palette_size = 0;
    assert!(matches!(machine::init(&c), Err(ConfigError::EmptyPalette)));
    let mut c = config(20, 20);
    c.palette_zero_size = 0;
    assert!(matches!(machine::init(&c), Err(ConfigError::EmptyPalette)));
}

#[test]
fn init_builds_fresh_field() {
    let m = machine_for(&config(20, 20));
    assert_eq!((m.width, m.height), (20, 20));
    assert_eq!(m.area.plank, 2 * SCALE / 10);
    assert_eq!(m.data_image.pixels.len(), 400);
    assert!(m.data_image.pixels.iter().all(|p| p.state == DomainElementState::ActiveNew && p.colour.is_none()));
    assert_eq!(m.data_image.state_origin_at(10, 10), (DomainElementState::ActiveNew, 0, 0));
}

#[test]
fn chunk_boundaries_scale_with_screen() {
    let m = machine_for(&config(40, 60));
    assert_eq!(m.chunk_boundaries((0, 0)), (0, 2, 0, 3));
    assert_eq!(m.chunk_boundaries((19, 7)), (38, 40, 21, 24));
}

#[test]
fn chunks_partition_uneven_screen() {
    // 30 columns over 20 chunks: cuts at 0, 1, 3, 4, 6, ...
    let m = machine_for(&config(30, 7));
    assert_eq!(m.chunk_boundaries((0, 0)), (0, 1, 0, 0));
    assert_eq!(m.chunk_boundaries((1, 2)), (1, 3, 0, 1));
    assert_eq!(m.chunk_boundaries((16, 19)), (24, 25, 6, 7));
    assert_eq!(m.chunk_boundaries((17, 19)), (25, 27, 6, 7));
    assert_eq!(m.chunk_boundaries((19, 19)), (28, 30, 6, 7));
    let mut covered = vec![0; 30 * 7];
    for cx in 0..20 {
        for cy in 0..20 {
            let (x_from, x_to, y_from, y_to) = m.chunk_boundaries((cx, cy));
            for x in x_from..x_to {
                for y in y_from..y_to {
                    covered[y * 30 + x] += 1;
                }
            }
        }
    }
    assert!(covered.iter().all(|&c| c == 1));
}

#[test]
fn calculate_finishes_uneven_screen() {
    let mut m = machine_for(&config(30, 7));
    m.calculate(&Nebula {}, &shuffled_calculation_coordinates());
    assert!(m.data_image.pixels.iter().all(|p| p.state != DomainElementState::ActiveNew));
    let mut m = machine_for(&config(13, 11));
    m.calculate_mandelbrot(&Infinity {}, &shuffled_calculation_coordinates());
    assert!(m.data_image.pixels.iter().all(|p| p.state != DomainElementState::ActiveNew));
}

#[test]
fn shuffled_coordinates_cover_every_chunk() {
    let mut all = shuffled_calculation_coordinates();
    assert_eq!(all.len(), 400);
    let mut ordered = Vec::new();
    for x in 0..20 {
        for y in 0..20 {
            ordered.push((x, y));
        }
    }
    // the shuffle is random: over a few tries the order changes
    let mut changed = all != ordered;
    for _ in 0..5 {
        changed = changed || shuffled_calculation_coordinates() != ordered;
    }
    assert!(changed);
    all.sort();
    assert_eq!(all, ordered);
}

#[test]
fn chunk_calculation_finishes_its_pixels() {
    let mut m = machine_for(&config(40, 40));
    let nebula = Nebula {};
    m.chunk_calculation((10, 10), &nebula);
    // chunk (10, 10) is pixels 20..22 x 20..22
    for x in 0..40 {
        for y in 0..40 {
            let (state, _, _) = m.data_image.state_origin_at(x, y);
            let inside = (20..22).contains(&x) && (20..22).contains(&y);
            assert_eq!(state != DomainElementState::ActiveNew, inside);
        }
    }
    // origin 0 never escapes: too long under the Finite policy
    assert_eq!(m.data_image.state_origin_at(20, 20).0, DomainElementState::FinishedTooLong);
}

#[test]
fn calculate_pixel_outcomes_without_change() {
    let m = machine_for(&config(40, 40));
    let outcomes = m.calculate_chunk((10, 10), &Nebula {});
    assert_eq!(outcomes.len(), 4);
    assert!(m.data_image.pixels.iter().all(|p| p.state == DomainElementState::ActiveNew));
}

#[test]
fn calculate_colours_every_pixel() {
    let mut m = machine_for(&config(40, 40));
    let coordinates = shuffled_calculation_coordinates();
    m.calculate(&Nebula {}, &coordinates);
    assert!(m.data_image.pixels.iter().all(|p| p.state != DomainElementState::ActiveNew));
    assert!(m.data_image.pixels.iter().all(|p| matches!(p.colour, Some(c) if c < 4)));
    let visited: u32 = m.data_image.pixels.iter().map(|p| p.value).sum();
    assert!(visited > 0);
}

#[test]
fn calculate_with_wrap_adds_visits() {
    let mut plain = machine_for(&config(40, 40));
    let mut c = config(40, 40);
    c.resolution_multiplier = ResolutionMultiplier::Square3;
    let mut wrapped = machine_for(&c);
    let coordinates = shuffled_calculation_coordinates();
    plain.calculate(&Nebula {}, &coordinates);
    wrapped.calculate(&Nebula {}, &coordinates);
    let a: u64 = plain.data_image.pixels.iter().map(|p| p.value as u64).sum();
    let b: u64 = wrapped.data_image.pixels.iter().map(|p| p.value as u64).sum();
    assert!(b > a);
    assert_eq!(multiplier(ResolutionMultiplier::Square3), 3);
}

#[test]
fn calculate_mandelbrot_counts_iterations() {
    let mut m = machine_for(&config(40, 40));
    let coordinates = shuffled_calculation_coordinates();
    m.calculate_mandelbrot(&Infinity {}, &coordinates);
    // pixel (20, 20) is the origin 0, inside the set: it reaches the cap
    let p = m.data_image.pixels[20 * 40 + 20];
    assert_eq!(p.value, 20);
    assert_eq!(p.state, DomainElementState::FinishedTooLong);
    // pixel (0, 20) is -2, on the boundary: it takes no step
    let q = m.data_image.pixels[20 * 40];
    assert_eq!(q.value, 0);
    assert_eq!(q.state, DomainElementState::FinishedTooShort);
    assert!(m.data_image.pixels.iter().all(|p| p.colour.is_some()));
}

#[test]
fn migration_completeness() {
    let mut m = machine_for(&config(20, 20));
    let coordinates = shuffled_calculation_coordinates();
    m.calculate(&Nebula {}, &coordinates);
    let successes = m.data_image.pixels.iter().filter(|p| p.state == DomainElementState::FinishedSuccess).count();
    let (moved, created) = m.zoom_in_recalculate_pixel_positions(false);
    assert_eq!(moved + created, 400);
    assert_eq!((moved, created), (361, 39));
    let past = m.data_image.pixels.iter().filter(|p| p.state == DomainElementState::FinishedSuccessPast).count();
    assert!(past <= successes);
    assert!(m.data_image.pixels.iter().all(|p| p.colour.is_none()));
    let fresh = m
        .data_image
        .pixels
        .iter()
        .filter(|p| matches!(p.state, DomainElementState::ActiveNew | DomainElementState::HibernatedDeepBlack))
        .count();
    assert_eq!(fresh, 39);
}

#[test]
fn migration_after_pan_keeps_overlap() {
    let mut m = machine_for(&config(20, 20));
    m.move_target(15, 10);
    let (moved, created) = m.recalculate_pixels_positions_for_next_calculation(true);
    // a quarter of the screen to the right: 15 of the 20 columns stay
    assert_eq!((moved, created), (300, 100));
    let (state, re, im) = m.data_image.state_origin_at(0, 0);
    assert_eq!(state, DomainElementState::ActiveNew);
    assert_eq!((re, im), (-SCALE, -2 * SCALE));
}

#[test]
fn migration_hibernates_when_all_neighbours_too_short() {
    let mut m = machine_for(&config(20, 20));
    for p in m.data_image.pixels.iter_mut() {
        p.state = DomainElementState::FinishedTooShort;
    }
    let (_, created) = m.zoom_in_recalculate_pixel_positions(true);
    assert_eq!(created, 39);
    // every gap borders moved pixels only of state too short
    let hibernated =
        m.data_image.pixels.iter().filter(|p| p.state == DomainElementState::HibernatedDeepBlack).count();
    assert_eq!(hibernated, 39);
}

#[test]
fn migration_does_not_hibernate_next_to_success() {
    let mut m = machine_for(&config(20, 20));
    for p in m.data_image.pixels.iter_mut() {
        p.state = DomainElementState::FinishedSuccess;
    }
    m.zoom_in_recalculate_pixel_positions(false);
    let hibernated =
        m.data_image.pixels.iter().filter(|p| p.state == DomainElementState::HibernatedDeepBlack).count();
    assert_eq!(hibernated, 0);
    let past = m.data_image.pixels.iter().filter(|p| p.state == DomainElementState::FinishedSuccessPast).count();
    assert_eq!(past, 361);
}

#[test]
fn horizon_needs_both_neighbour_kinds() {
    let mut m = machine_for(&config(20, 20));
    assert!(!m.is_on_mandelbrot_horizon(5, 5));
    m.data_image.set_pixel_state(4, 4, DomainElementState::FinishedTooShort);
    assert!(!m.is_on_mandelbrot_horizon(5, 5));
    m.data_image.set_pixel_state(6, 6, DomainElementState::FinishedTooLong);
    assert!(m.is_on_mandelbrot_horizon(5, 5));
    assert!(!m.is_on_mandelbrot_horizon(8, 8));
}
