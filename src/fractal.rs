//! The fractal object, its calculation policies, and the orbit calculator.
use vstd::prelude::*;
use crate::area::Area;
use crate::data_image::{add_visits, path_hits, same_but_value, DataImage};
use crate::resolution_multiplier::ResolutionMultiplier;
use crate::mem::{escaped, quad_spec, Mem, CALCULATION_BOUNDARY, ORIGIN_BOUND, SCALE};

verus! {

/// How a fractal turns calculations into a field.
#[derive(Clone, Copy, Debug, PartialEq, Eq, Structural)]
pub enum FractalType {
    /// For each domain element, count the calculation.
    Mandelbrot,
    /// For each calculation, count the domain elements its orbit visits.
    Nebula,
}

/// Which orbits count as good for a Nebula-like fractal.
#[derive(Clone, Copy, Debug, PartialEq, Eq, Structural)]
pub enum OrbitType {
    /// Only orbits that escape before the cap: the edges of the set.
    Finite,
    /// Only orbits that reach the cap: the set's volume is included.
    Infinite,
}

/// Whether a calculation renders one still image or a zoom video.
#[derive(Clone, Copy, Debug, PartialEq, Eq, Structural)]
pub enum CalculationType {
    StaticImage,
    InfiniteVideoZoom,
}

/// Configuration of a fractal: iteration bounds, policies, palette sizes
/// and the area, in fixed-point units.
#[derive(Clone, Copy, Debug, PartialEq, Eq, Structural)]
pub struct FractalConfig {
    pub iteration_min: u32,
    pub iteration_max: u32,
    pub fractal_type: FractalType,
    pub resolution_multiplier: ResolutionMultiplier,
    /// Colours of the palette.
    pub palette_size: usize,
    /// Colours of the palette for the inside of the set.
    pub palette_zero_size: usize,
    pub width_x: usize,
    pub height_y: usize,
    pub width_re: i64,
    pub center_re: i64,
    pub center_im: i64,
    pub calc_type: CalculationType,
    pub orbits: OrbitType,
    pub update_max: u32,
    pub update_min: u32,
}

/// Represents the actual mathematical object: its field.
pub struct Fractal {
    pub data_image: DataImage,
}

pub fn init(data_image: DataImage) -> (r: Fractal)
    ensures
        r.data_image == data_image,
{
    Fractal { data_image }
}

/// Whether an orbit of `iterator` steps, `length` of which lay inside the
/// area, is good under the policy `orbits`.
pub open spec fn path_test_spec(orbits: OrbitType, min: u32, max: u32, length: u32, iterator: u32) -> bool {
    match orbits {
        OrbitType::Finite => length > min && iterator < max,
        OrbitType::Infinite => length > min && iterator == max,
    }
}

/// Tests an orbit of `iterator` steps, `length` of them inside the area,
/// against the policy `orbits` and the iteration bounds `min` and `max`.
pub fn path_test(orbits: OrbitType, min: u32, max: u32, length: u32, iterator: u32) -> (r: bool)
    ensures
        r == path_test_spec(orbits, min, max, length, iterator),
{
    match orbits {
        // only the edges of the set
        OrbitType::Finite => length > min && iterator < max,
        // also the inside of the set
        OrbitType::Infinite => length > min && iterator == max,
    }
}

/// The defining recurrence of a fractal: one step of an orbit.
pub trait FractalMath {
    /// The state that one step leads to from `m`, for the orbit of origin
    /// `(origin_re, origin_im)`.
    spec fn math_spec(&self, m: Mem, origin_re: i64, origin_im: i64) -> Mem;

    /// Advances the orbit state `m` by one step.
    fn math(&self, m: &mut Mem, origin_re: i64, origin_im: i64)
        requires
            !escaped(*old(m)),
            -ORIGIN_BOUND <= origin_re <= ORIGIN_BOUND,
            -ORIGIN_BOUND <= origin_im <= ORIGIN_BOUND,
        ensures
            *final(m) == self.math_spec(*old(m), origin_re, origin_im),
    ;
}

/// Whether an origin keeps every step of every fractal free of overflow.
pub open spec fn origin_in_bounds(origin_re: i64, origin_im: i64) -> bool {
    -ORIGIN_BOUND <= origin_re <= ORIGIN_BOUND && -ORIGIN_BOUND <= origin_im <= ORIGIN_BOUND
}

/// State of the orbit of `(origin_re, origin_im)` after `k` steps; the orbit
/// starts at its origin.
pub open spec fn orbit<F: FractalMath>(fractal: &F, origin_re: i64, origin_im: i64, k: nat) -> Mem
    decreases k,
{
    if k == 0 {
        Mem { re: origin_re, im: origin_im }
    } else {
        fractal.math_spec(orbit(fractal, origin_re, origin_im, (k - 1) as nat), origin_re, origin_im)
    }
}

/// The step at which the orbit, looked at from step `k` on, stops: the first
/// step that has escaped, or `max`.
pub open spec fn stop_step<F: FractalMath>(fractal: &F, origin_re: i64, origin_im: i64, max: nat, k: nat) -> nat
    decreases max - k,
{
    if k >= max || escaped(orbit(fractal, origin_re, origin_im, k)) {
        k
    } else {
        stop_step(fractal, origin_re, origin_im, max, k + 1)
    }
}

/// Steps the orbit takes before it escapes or reaches `max`.
pub open spec fn iteration_count<F: FractalMath>(fractal: &F, origin_re: i64, origin_im: i64, max: nat) -> nat {
    stop_step(fractal, origin_re, origin_im, max, 0)
}

/// The states among steps `1..=k` of the orbit that lie inside `area`, in
/// order.
pub open spec fn in_area_path<F: FractalMath>(fractal: &F, area: Area, origin_re: i64, origin_im: i64, k: nat) -> Seq<Mem>
    decreases k,
{
    if k == 0 {
        Seq::empty()
    } else {
        let prev = in_area_path(fractal, area, origin_re, origin_im, (k - 1) as nat);
        let m = orbit(fractal, origin_re, origin_im, k);
        if area.contains_spec(m.re as int, m.im as int) {
            prev.push(m)
        } else {
            prev
        }
    }
}

proof fn lemma_stop_step<F: FractalMath>(fractal: &F, origin_re: i64, origin_im: i64, max: nat, k: nat)
    ensures
        k <= max ==> k <= stop_step(fractal, origin_re, origin_im, max, k) <= max,
        k > max ==> stop_step(fractal, origin_re, origin_im, max, k) == k,
        stop_step(fractal, origin_re, origin_im, max, k) < max ==> escaped(
            orbit(fractal, origin_re, origin_im, stop_step(fractal, origin_re, origin_im, max, k)),
        ),
        forall|j: nat|
            k <= j < stop_step(fractal, origin_re, origin_im, max, k) ==> !escaped(
                #[trigger] orbit(fractal, origin_re, origin_im, j),
            ),
    decreases max - k,
{
    if k < max && !escaped(orbit(fractal, origin_re, origin_im, k)) {
        lemma_stop_step(fractal, origin_re, origin_im, max, k + 1);
    }
}

/// Divergence bound: the orbit stops at or before `max`, and where it stops
/// before `max`, the state it stops at has reached the divergence boundary.
pub proof fn lemma_divergence_bound<F: FractalMath>(fractal: &F, origin_re: i64, origin_im: i64, max: nat)
    ensures
        iteration_count(fractal, origin_re, origin_im, max) <= max,
        iteration_count(fractal, origin_re, origin_im, max) < max ==> escaped(
            orbit(fractal, origin_re, origin_im, iteration_count(fractal, origin_re, origin_im, max)),
        ),
        forall|j: nat|
            j < iteration_count(fractal, origin_re, origin_im, max) ==> !escaped(
                #[trigger] orbit(fractal, origin_re, origin_im, j),
            ),
{
    lemma_stop_step(fractal, origin_re, origin_im, max, 0);
}

/// First pass over an orbit: the steps it takes before it escapes or reaches
/// `iteration_max`, and how many of the states it reaches lie inside `area`.
pub fn investigate_path<F: FractalMath>(
    fractal: &F,
    area: &Area,
    iteration_max: u32,
    origin_re: i64,
    origin_im: i64,
) -> (r: (u32, u32))
    requires
        area.wf(),
        origin_in_bounds(origin_re, origin_im),
    ensures
        r.0 == iteration_count(fractal, origin_re, origin_im, iteration_max as nat),
        r.1 == in_area_path(fractal, *area, origin_re, origin_im, r.0 as nat).len(),
        r.1 <= r.0 <= iteration_max,
{
    let mut m = Mem::new(origin_re, origin_im);
    let mut iterator: u32 = 0;
    let mut length: u32 = 0;
    while m.below_boundary() && iterator < iteration_max
        invariant
            area.wf(),
            origin_in_bounds(origin_re, origin_im),
            iterator <= iteration_max,
            length <= iterator,
            m == orbit(fractal, origin_re, origin_im, iterator as nat),
            length == in_area_path(fractal, *area, origin_re, origin_im, iterator as nat).len(),
            stop_step(fractal, origin_re, origin_im, iteration_max as nat, 0) == stop_step(
                fractal,
                origin_re,
                origin_im,
                iteration_max as nat,
                iterator as nat,
            ),
        decreases iteration_max - iterator,
    {
        fractal.math(&mut m, origin_re, origin_im);
        if area.contains(m.re, m.im) {
            length += 1;
        }
        iterator += 1;
    }
    (iterator, length)
}

/// Second pass over an orbit known to take `iterator` steps: the states
/// among them that lie inside `area`.
pub fn record_path<F: FractalMath>(
    fractal: &F,
    area: &Area,
    iteration_max: u32,
    iterator: u32,
    origin_re: i64,
    origin_im: i64,
) -> (path: Vec<Mem>)
    requires
        area.wf(),
        origin_in_bounds(origin_re, origin_im),
        iterator == iteration_count(fractal, origin_re, origin_im, iteration_max as nat),
    ensures
        path@ == in_area_path(fractal, *area, origin_re, origin_im, iterator as nat),
{
    proof {
        lemma_divergence_bound(fractal, origin_re, origin_im, iteration_max as nat);
    }
    let mut m = Mem::new(origin_re, origin_im);
    let mut path: Vec<Mem> = Vec::new();
    let mut i: u32 = 0;
    while i < iterator
        invariant
            area.wf(),
            origin_in_bounds(origin_re, origin_im),
            i <= iterator,
            iterator == iteration_count(fractal, origin_re, origin_im, iteration_max as nat),
            forall|j: nat| j < iterator ==> !escaped(#[trigger] orbit(fractal, origin_re, origin_im, j)),
            m == orbit(fractal, origin_re, origin_im, i as nat),
            path@ == in_area_path(fractal, *area, origin_re, origin_im, i as nat),
        decreases iterator - i,
    {
        assert(!escaped(orbit(fractal, origin_re, origin_im, i as nat)));
        fractal.math(&mut m, origin_re, origin_im);
        if area.contains(m.re, m.im) {
            path.push(m);
        }
        i += 1;
    }
    path
}

/// Calculates the orbit of `(origin_re, origin_im)`: counts its steps and its
/// states inside `area`, and where the path is good under `orbits`, adds a
/// visit to each pixel of `data_image` that one of those states falls on.
/// Returns the steps and the in-area count.
pub fn calculate_path<F: FractalMath>(
    fractal: &F,
    area: &Area,
    iteration_min: u32,
    iteration_max: u32,
    orbits: OrbitType,
    origin_re: i64,
    origin_im: i64,
    data_image: &mut DataImage,
) -> (r: (u32, u32))
    requires
        area.wf(),
        old(data_image).wf(),
        old(data_image).fits(*area),
        origin_in_bounds(origin_re, origin_im),
    ensures
        r.0 == iteration_count(fractal, origin_re, origin_im, iteration_max as nat),
        r.1 == in_area_path(fractal, *area, origin_re, origin_im, r.0 as nat).len(),
        r.0 <= iteration_max,
        r.0 < iteration_max ==> escaped(orbit(fractal, origin_re, origin_im, r.0 as nat)),
        final(data_image).wf(),
        final(data_image).width == old(data_image).width,
        final(data_image).height == old(data_image).height,
        forall|i: int|
            0 <= i < old(data_image).pixels@.len() ==> same_but_value(
                #[trigger] final(data_image).pixels@[i],
                old(data_image).pixels@[i],
            ),
        forall|i: int|
            0 <= i < old(data_image).pixels@.len() ==> (#[trigger] final(data_image).pixels@[i]).value
                == if path_test_spec(orbits, iteration_min, iteration_max, r.1, r.0) {
                add_visits(
                    old(data_image).pixels@[i].value as int,
                    path_hits(in_area_path(fractal, *area, origin_re, origin_im, r.0 as nat), *area, i)
                        as int,
                )
            } else {
                old(data_image).pixels@[i].value as int
            },
{
    let (iterator, length) = investigate_path(fractal, area, iteration_max, origin_re, origin_im);
    proof {
        lemma_divergence_bound(fractal, origin_re, origin_im, iteration_max as nat);
    }
    if path_test(orbits, iteration_min, iteration_max, length, iterator) {
        // This origin produced good data: calculate the orbit again, this
        // time recording it. Most origins fail the test, so no path is kept
        // for them.
        let path = record_path(fractal, area, iteration_max, iterator, origin_re, origin_im);
        data_image.translate_path_to_point_grid(&path, area);
    }
    (iterator, length)
}

/// Calculates the orbit of a Mandelbrot-like pixel: its steps before it
/// escapes or reaches `iteration_max`, and the squared magnitude of the
/// state it stops at.
pub fn calculate_mandelbrot_path<F: FractalMath>(
    fractal: &F,
    iteration_max: u32,
    origin_re: i64,
    origin_im: i64,
) -> (r: (u32, u128))
    requires
        origin_in_bounds(origin_re, origin_im),
    ensures
        r.0 == iteration_count(fractal, origin_re, origin_im, iteration_max as nat),
        r.1 == quad_spec(orbit(fractal, origin_re, origin_im, r.0 as nat)),
        r.0 <= iteration_max,
        r.0 < iteration_max ==> r.1 >= CALCULATION_BOUNDARY * SCALE * SCALE,
{
    proof {
        lemma_divergence_bound(fractal, origin_re, origin_im, iteration_max as nat);
    }
    let mut m = Mem::new(origin_re, origin_im);
    let mut iterator: u32 = 0;
    while m.below_boundary() && iterator < iteration_max
        invariant
            origin_in_bounds(origin_re, origin_im),
            iterator <= iteration_max,
            m == orbit(fractal, origin_re, origin_im, iterator as nat),
            stop_step(fractal, origin_re, origin_im, iteration_max as nat, 0) == stop_step(
                fractal,
                origin_re,
                origin_im,
                iteration_max as nat,
                iterator as nat,
            ),
        decreases iteration_max - iterator,
    {
        fractal.math(&mut m, origin_re, origin_im);
        iterator += 1;
    }
    (iterator, m.quad())
}

/// Orbit determinism: two calculations of the same orbit give the same
/// steps and the same in-area count.
pub proof fn lemma_orbit_determinism<F: FractalMath>(
    fractal: &F,
    area: Area,
    iteration_max: u32,
    origin_re: i64,
    origin_im: i64,
    r1: (u32, u32),
    r2: (u32, u32),
)
    requires
        r1.0 == iteration_count(fractal, origin_re, origin_im, iteration_max as nat),
        r1.1 == in_area_path(fractal, area, origin_re, origin_im, r1.0 as nat).len(),
        r2.0 == iteration_count(fractal, origin_re, origin_im, iteration_max as nat),
        r2.1 == in_area_path(fractal, area, origin_re, origin_im, r2.0 as nat).len(),
    ensures
        r1 == r2,
{
}

} // verus!
