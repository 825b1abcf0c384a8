use rusty_fractals::area::{self, Area, ZOOM_DENOMINATOR, ZOOM_NUMERATOR};
use rusty_fractals::mem::SCALE;

fn four_by_four() -> Area {
    // 10 by 10 pixels over [-2, 2) x [-2, 2): 0.4 per pixel
    area::init(10, 10, 4 * SCALE, 0, 0)
}

#[test]
fn area_plank_and_edges() {
    let a = four_by_four();
    assert_eq!(a.plank, 4 * SCALE / 10);
    assert_eq!(a.pixel_to_domain(0, 0), (-2 * SCALE, -2 * SCALE));
    assert_eq!(a.pixel_to_domain(5, 5), (0, 0));
    assert_eq!(a.pixel_to_domain(9, 9), (2 * SCALE - 4 * SCALE / 10, 2 * SCALE - 4 * SCALE / 10));
}

#[test]
fn round_trip_mapping() {
    let a = four_by_four();
    for x in 0..10 {
        for y in 0..10 {
            let (re, im) = a.pixel_to_domain(x, y);
            assert!(a.contains(re, im));
            assert_eq!(a.point_to_pixel(re, im), (x, y));
        }
    }
}

#[test]
fn round_trip_mapping_uneven_grid() {
    let a = area::init(7, 3, 3 * SCALE, SCALE / 2, -SCALE / 3);
    for x in 0..7 {
        for y in 0..3 {
            let (re, im) = a.pixel_to_domain(x, y);
            assert_eq!(a.pixel_of(re, im), Some((x, y)));
        }
    }
}

#[test]
fn point_snaps_to_its_cell() {
    let a = four_by_four();
    assert_eq!(a.point_to_pixel(39_000_000, 0), (5, 5));
    assert_eq!(a.point_to_pixel(-1, -1), (4, 4));
    assert_eq!(a.pixel_of(2 * SCALE, 0), None);
    assert_eq!(a.pixel_of(-2 * SCALE, 0), Some((0, 5)));
}

#[test]
fn trivial_area_contains_nothing() {
    let a = area::init_trivial();
    assert!(!a.contains(0, 0));
    assert_eq!(a.pixel_of(0, 0), None);
}

#[test]
fn zoom_in_shrinks_width() {
    let mut a = four_by_four();
    a.zoom_in();
    assert_eq!(a.plank, 4 * SCALE / 10 * ZOOM_NUMERATOR / ZOOM_DENOMINATOR);
    assert_eq!((a.center_re, a.center_im), (0, 0));
}

#[test]
fn move_target_recentres() {
    let mut a = four_by_four();
    a.move_target(7, 2);
    assert_eq!((a.center_re, a.center_im), (8 * SCALE / 10, -12 * SCALE / 10));
    assert_eq!(a.plank, 4 * SCALE / 10);
}
