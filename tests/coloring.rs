use rusty_fractals::perfect_color_distribution::{
    ac_if_black_dot, assign_bands, color_values_with_threshold, fix_black_dots, perfectly_color_values,
    perfectly_color_values_euler, perfectly_color_values_mandelbrot,
};

#[test]
fn perfect_colors_by_rank() {
    // zero or noise (<= 3): pixels 1, 5, 3; five significant pixels on two
    // colours: two each, the remainder of one joins the darkest colour
    let values = vec![5, 0, 9, 3, 7, 1, 8, 4];
    let colors = perfectly_color_values(&values, 2);
    assert_eq!(colors, vec![0, 0, 1, 0, 0, 0, 1, 0]);
}

#[test]
fn coloring_fairness_on_skewed_values() {
    let values: Vec<u32> = (0..100).map(|i| if i == 99 { 1_000_000 } else { 10 + i }).collect();
    let colors = perfectly_color_values(&values, 10);
    for c in 1..10 {
        assert_eq!(colors.iter().filter(|&&k| k == c).count(), 10);
    }
    assert_eq!(colors.iter().filter(|&&k| k == 0).count(), 10);
    assert_eq!(colors[99], 9);
    assert_eq!(colors[0], 0);
    assert_eq!(colors[50], 5);
}

#[test]
fn equal_values_keep_pixel_order() {
    let colors = color_values_with_threshold(&vec![2, 2, 2, 2], 0, 2);
    assert_eq!(colors, vec![0, 0, 1, 1]);
}

#[test]
fn fewer_pixels_than_colours_are_all_dark() {
    let colors = perfectly_color_values(&vec![10, 20, 30], 5);
    assert_eq!(colors, vec![0, 0, 0]);
}

#[test]
fn empty_field_has_no_colours() {
    let colors = perfectly_color_values(&vec![], 3);
    assert!(colors.is_empty());
}

#[test]
fn euler_channels_are_independent() {
    let (r, g, b) = perfectly_color_values_euler(&vec![1, 5, 9, 7], &vec![9, 7, 5, 3], &vec![0, 0, 0, 0], 2);
    // red: noise is pixel 0; three significant pixels, one each, the
    // remainder dark
    assert_eq!(r, vec![0, 0, 1, 0]);
    assert_eq!(g, vec![1, 1, 0, 0]);
    assert_eq!(b, vec![0, 0, 0, 0]);
}

#[test]
fn assign_bands_leaves_other_pixels() {
    let mut colors = vec![7, 7, 7, 7];
    assign_bands(&mut colors, vec![(5, 0, 3), (1, 0, 1)], 0, 2);
    assert_eq!(colors, vec![7, 0, 7, 1]);
}

#[test]
fn black_dot_is_fixed() {
    let values = vec![10; 9];
    let colors = vec![20, 20, 20, 20, 0, 20, 20, 20, 20];
    assert_eq!(ac_if_black_dot(&values, &colors, 3, 3, 1, 1), Some(20));
    let fixed = fix_black_dots(&values, &colors, 3, 3);
    assert_eq!(fixed, vec![20; 9]);
}

#[test]
fn black_dot_needs_a_margin() {
    let values = vec![10; 9];
    let colors = vec![20, 20, 20, 20, 15, 20, 20, 20, 20];
    assert_eq!(ac_if_black_dot(&values, &colors, 3, 3, 1, 1), None);
}

#[test]
fn black_dot_needs_smooth_neighbours() {
    let mut values = vec![10; 9];
    values[0] = 13;
    let colors = vec![20, 20, 20, 20, 0, 20, 20, 20, 20];
    assert_eq!(ac_if_black_dot(&values, &colors, 3, 3, 1, 1), None);
    values[0] = 12;
    assert_eq!(ac_if_black_dot(&values, &colors, 3, 3, 1, 1), Some(20));
}

#[test]
fn black_dot_skips_edges() {
    let values = vec![10; 9];
    let colors = vec![0, 20, 20, 20, 20, 20, 20, 20, 20];
    assert_eq!(ac_if_black_dot(&values, &colors, 3, 3, 0, 0), None);
}

#[test]
fn mandelbrot_colors_with_zero_palette() {
    let values = vec![0, 3, 0, 5];
    let quads = vec![10, 0, 20, 0];
    let quids = vec![0, 0, 0, 0];
    let colors = perfectly_color_values_mandelbrot(&values, &quads, &quids, 2, 2, 2, 2);
    assert_eq!(colors, vec![0, 0, 1, 1]);
}

#[test]
fn mandelbrot_ties_broken_by_quid() {
    let values = vec![4, 4, 4, 4];
    let quads = vec![0, 0, 0, 0];
    let quids = vec![9, 1, 5, 3];
    let colors = perfectly_color_values_mandelbrot(&values, &quads, &quids, 2, 2, 4, 1);
    assert_eq!(colors, vec![3, 0, 2, 1]);
}

#[test]
fn mandelbrot_black_dot_fixed() {
    // 5 by 3; the centre pixel (2, 1) has the lowest value, its neighbours
    // the highest ranks
    let mut values = vec![12; 15];
    values[7] = 11;
    let quads = vec![0; 15];
    let quids = vec![0, 10, 11, 12, 1, 2, 13, 0, 14, 3, 4, 15, 16, 17, 5];
    let colors = perfectly_color_values_mandelbrot(&values, &quads, &quids, 5, 3, 15, 1);
    // by rank the centre takes 0; its neighbours average 84 / 8, so it is
    // repainted with 10
    assert_eq!(colors, vec![1, 7, 8, 9, 2, 3, 10, 10, 11, 4, 5, 12, 13, 14, 6]);
}
