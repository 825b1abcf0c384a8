//! The machine: owns the area and the field of one fractal, and runs its
//! calculation chunk by chunk.
use vstd::prelude::*;
use rand::seq::SliceRandom;
use crate::area::{self, lemma_area_bounds, Area, CENTER_BOUND, MAX_SIDE, MAX_WIDTH_RE};
use crate::data_image::{
    self, add_visits, lemma_add_visits_twice, lemma_grid_index, origin_ok, path_hits, quads_of, quids_of,
    same_but_value, values_of, DataImage, Pixel,
};
use crate::fractal::{
    calculate_mandelbrot_path, calculate_path, in_area_path, investigate_path, iteration_count, path_test,
    path_test_spec, record_path, FractalConfig, FractalMath, OrbitType,
};
use crate::mem::{quad_spec, Mem, SCALE};
use crate::pixel_states::{
    is_active_new, is_finished_any, state_from_path_length, state_from_path_length_spec, DomainElementState,
};
use crate::perfect_color_distribution::{
    fixed_color, mandelbrot_band_colors, perfectly_color_values, perfectly_color_values_mandelbrot,
    threshold_color, COLORING_THRESHOLD,
};
use crate::resolution_multiplier::{multiplier, multiplier_spec, ResolutionMultiplier};

verus! {

/// Chunks per side: the screen is calculated as 20 by 20 chunks.
pub const CHUNKS: usize = 20;

/// A configuration the machine refuses.
#[derive(Clone, Copy, Debug, PartialEq, Eq, Structural)]
pub enum ConfigError {
    /// `iteration_min` must be positive and below `iteration_max`.
    InvalidIterationBounds,
    /// The area must have a positive size, within the supported bounds.
    InvalidArea,
    /// Both palettes must hold at least one colour.
    EmptyPalette,
}

/// Owns all data of one fractal configuration.
pub struct Machine {
    pub area: Area,
    pub data_image: DataImage,
    pub width: usize,
    pub height: usize,
    pub min: u32,
    pub max: u32,
    pub orbits: OrbitType,
    pub palette_size: usize,
    pub palette_zero_size: usize,
    pub resolution_multiplier: ResolutionMultiplier,
}

pub open spec fn iteration_bounds_ok(config: FractalConfig) -> bool {
    0 < config.iteration_min < config.iteration_max
}

pub open spec fn area_ok(config: FractalConfig) -> bool {
    &&& 0 < config.width_x <= MAX_SIDE
    &&& 0 < config.height_y <= MAX_SIDE
    &&& 0 < config.width_re <= MAX_WIDTH_RE
    &&& (config.width_re as int) / (config.width_x as int) > 0
    &&& (config.width_re as int) / (config.width_x as int) * config.height_y <= MAX_WIDTH_RE
    &&& -CENTER_BOUND <= config.center_re <= CENTER_BOUND
    &&& -CENTER_BOUND <= config.center_im <= CENTER_BOUND
}

pub open spec fn palettes_ok(config: FractalConfig) -> bool {
    config.palette_size > 0 && config.palette_zero_size > 0
}

impl Machine {
    pub open spec fn wf(&self) -> bool {
        &&& self.area.wf()
        &&& self.data_image.wf()
        &&& self.data_image.fits(self.area)
        &&& self.width == self.area.width_x
        &&& self.height == self.area.height_y
        &&& self.palette_size > 0
        &&& self.palette_zero_size > 0
    }

    /// Pixel `(x, y)` of the field.
    pub open spec fn pixel(&self, x: int, y: int) -> Pixel {
        self.data_image.at(x, y)
    }
}

/// A machine as `config` describes it, its field fresh.
pub open spec fn fresh_machine(m: Machine, config: FractalConfig) -> bool {
    &&& m.wf()
    &&& m.area == (Area {
                width_x: config.width_x,
                height_y: config.height_y,
                plank: ((config.width_re as int) / (config.width_x as int)) as i64,
                center_re: config.center_re,
                center_im: config.center_im,
            })
            &&& m.min == config.iteration_min
            &&& m.max == config.iteration_max
            &&& m.orbits == config.orbits
            &&& m.palette_size == config.palette_size
            &&& m.palette_zero_size == config.palette_zero_size
            &&& m.resolution_multiplier == config.resolution_multiplier
            &&& forall|x: int, y: int|
                0 <= x < m.width && 0 <= y < m.height ==> #[trigger] m.pixel(x, y)
                    == data_image::active_new_spec(
                    m.area.pixel_to_domain_spec(x, y).0 as i64,
                    m.area.pixel_to_domain_spec(x, y).1 as i64,
                )
        }

/// A machine for `config`, its field fresh; or the first error the
/// configuration holds, checked in the order: iteration bounds, area,
/// palettes.
pub fn init(config: &FractalConfig) -> (r: Result<Machine, ConfigError>)
    ensures
        !iteration_bounds_ok(*config) ==> r == Err::<Machine, ConfigError>(ConfigError::InvalidIterationBounds),
        iteration_bounds_ok(*config) && !area_ok(*config) ==> r == Err::<Machine, ConfigError>(ConfigError::InvalidArea),
        iteration_bounds_ok(*config) && area_ok(*config) && !palettes_ok(*config) ==> r == Err::<
            Machine,
            ConfigError,
        >(ConfigError::EmptyPalette),
        iteration_bounds_ok(*config) && area_ok(*config) && palettes_ok(*config) ==> (r matches Ok(m)
            && fresh_machine(m, *config)),
{
    if !(0 < config.iteration_min && config.iteration_min < config.iteration_max) {
        return Err(ConfigError::InvalidIterationBounds);
    }
    if !(0 < config.width_x && config.width_x <= MAX_SIDE && 0 < config.height_y && config.height_y
        <= MAX_SIDE && 0 < config.width_re && config.width_re <= MAX_WIDTH_RE) {
        return Err(ConfigError::InvalidArea);
    }
    let plank = config.width_re / (config.width_x as i64);
    if !(plank > 0 && -CENTER_BOUND <= config.center_re && config.center_re <= CENTER_BOUND
        && -CENTER_BOUND <= config.center_im && config.center_im <= CENTER_BOUND) {
        return Err(ConfigError::InvalidArea);
    }
    assert(plank <= MAX_WIDTH_RE) by (nonlinear_arith)
        requires plank == (config.width_re as int) / (config.width_x as int), config.width_re <= MAX_WIDTH_RE,
            config.width_x >= 1, config.width_re > 0;
    if plank > MAX_WIDTH_RE / (config.height_y as i64) {
        assert(plank * config.height_y > MAX_WIDTH_RE) by (nonlinear_arith)
            requires plank > (MAX_WIDTH_RE as int) / (config.height_y as int), config.height_y > 0;
        return Err(ConfigError::InvalidArea);
    }
    assert(plank * config.height_y <= MAX_WIDTH_RE) by (nonlinear_arith)
        requires plank <= (MAX_WIDTH_RE as int) / (config.height_y as int), config.height_y > 0, plank >= 0;
    if config.palette_size == 0 || config.palette_zero_size == 0 {
        return Err(ConfigError::EmptyPalette);
    }
    let area = area::init(config.width_x, config.height_y, config.width_re, config.center_re, config.center_im);
    let data_image = data_image::init(&area);
    Ok(
        Machine {
            area,
            data_image,
            width: config.width_x,
            height: config.height_y,
            min: config.iteration_min,
            max: config.iteration_max,
            orbits: config.orbits,
            palette_size: config.palette_size,
            palette_zero_size: config.palette_zero_size,
            resolution_multiplier: config.resolution_multiplier,
        },
    )
}

/// A machine over the trivial area: 10 by 10 fresh pixels, iterations from
/// 0 to 100, a palette of one colour.
pub fn init_trivial() -> (r: Machine)
    ensures
        r.wf(),
        r.area == area::init_trivial_spec(),
        r.width == 10 && r.height == 10,
        r.min == 0 && r.max == 100,
        r.orbits == OrbitType::Finite,
        r.resolution_multiplier == ResolutionMultiplier::Single,
{
    let area = area::init_trivial();
    let data_image = data_image::init(&area);
    Machine {
        area,
        data_image,
        width: 10,
        height: 10,
        min: 0,
        max: 100,
        orbits: OrbitType::Finite,
        palette_size: 1,
        palette_zero_size: 1,
        resolution_multiplier: ResolutionMultiplier::Single,
    }
}

/// Pixel bounds of chunk `(cx, cy)` of a `width` by `height` screen:
/// `[x_from, x_to) x [y_from, y_to)`.
pub open spec fn chunk_boundaries_spec(width: int, height: int, cx: int, cy: int) -> (int, int, int, int) {
    (split(width, cx), split(width, cx + 1), split(height, cy), split(height, cy + 1))
}

/// The `c`-th of the 21 cuts that divide `0..n` into 20 near-equal parts.
pub open spec fn split(n: int, c: int) -> int {
    c * n / (CHUNKS as int)
}

proof fn lemma_split_monotone(n: int, c1: int, c2: int)
    requires
        0 <= c1 <= c2,
        n >= 0,
    ensures
        split(n, c1) <= split(n, c2),
{
    assert(c1 * n / 20 <= c2 * n / 20) by (nonlinear_arith)
        requires 0 <= c1 <= c2, n >= 0;
}

/// Each of `0..n` lies between exactly one pair of neighbouring cuts.
proof fn lemma_split_part(n: int, x: int)
    requires
        0 <= x < n,
    ensures
        0 <= (20 * x + 19) / n < CHUNKS,
        split(n, (20 * x + 19) / n) <= x < split(n, (20 * x + 19) / n + 1),
        forall|c: int| 0 <= c < CHUNKS && #[trigger] split(n, c) <= x < split(n, c + 1) ==> c == (20 * x + 19) / n,
{
    let c = (20 * x + 19) / n;
    assert(c * n <= 20 * x + 19 < (c + 1) * n && 0 <= c < 20) by (nonlinear_arith)
        requires 0 <= x < n, c == (20 * x + 19) / n;
    assert(c * n / 20 <= x) by (nonlinear_arith)
        requires c * n <= 20 * x + 19, c >= 0, n > 0;
    assert(x < (c + 1) * n / 20) by (nonlinear_arith)
        requires 20 * x + 19 < (c + 1) * n;
    assert forall|d: int| 0 <= d < CHUNKS && #[trigger] split(n, d) <= x < split(n, d + 1) implies d == c by {
        if d < c {
            lemma_split_monotone(n, d + 1, c);
        } else if d > c {
            lemma_split_monotone(n, c + 1, d);
        }
    }
}

/// The 20 by 20 chunks partition the screen: each pixel lies in exactly
/// one chunk.
pub proof fn lemma_chunks_partition(width: int, height: int, x: int, y: int)
    requires
        0 <= x < width,
        0 <= y < height,
    ensures
        exists|cx: int, cy: int|
            0 <= cx < CHUNKS && 0 <= cy < CHUNKS && in_rect(#[trigger] chunk_boundaries_spec(width, height, cx, cy), x, y),
        forall|cx1: int, cy1: int, cx2: int, cy2: int|
            0 <= cx1 < CHUNKS && 0 <= cy1 < CHUNKS && 0 <= cx2 < CHUNKS && 0 <= cy2 < CHUNKS && in_rect(
                #[trigger] chunk_boundaries_spec(width, height, cx1, cy1),
                x,
                y,
            ) && in_rect(#[trigger] chunk_boundaries_spec(width, height, cx2, cy2), x, y) ==> cx1 == cx2 && cy1
                == cy2,
{
    lemma_split_part(width, x);
    lemma_split_part(height, y);
    let cx = (20 * x + 19) / width;
    let cy = (20 * y + 19) / height;
    assert(in_rect(chunk_boundaries_spec(width, height, cx, cy), x, y));
}

/// All chunk coordinates, column by column.
pub open spec fn chunk_coordinates_spec() -> Seq<(usize, usize)> {
    Seq::new((CHUNKS * CHUNKS) as nat, |k: int| ((k / CHUNKS as int) as usize, (k % CHUNKS as int) as usize))
}

/// Relies on rand's `SliceRandom::shuffle` with the thread's generator: it
/// permutes the elements, by swaps only.
#[verifier::external_body]
fn shuffle_coordinates(v: &mut Vec<(usize, usize)>)
    ensures
        final(v)@.to_multiset() == old(v)@.to_multiset(),
{
    v.shuffle(&mut rand::thread_rng());
}

/// The coordinates of the 20 by 20 chunks, in random order: the order only
/// changes how the progress looks.
pub fn shuffled_calculation_coordinates() -> (r: Vec<(usize, usize)>)
    ensures
        r@.to_multiset() == chunk_coordinates_spec().to_multiset(),
{
    let mut coordinates_xy: Vec<(usize, usize)> = Vec::new();
    let mut x: usize = 0;
    while x < CHUNKS
        invariant
            x <= CHUNKS,
            coordinates_xy@ == chunk_coordinates_spec().subrange(0, (x * CHUNKS) as int),
        decreases CHUNKS - x,
    {
        let mut y: usize = 0;
        while y < CHUNKS
            invariant
                x < CHUNKS,
                y <= CHUNKS,
                coordinates_xy@ == chunk_coordinates_spec().subrange(0, (x * CHUNKS + y) as int),
            decreases CHUNKS - y,
        {
            coordinates_xy.push((x, y));
            proof {
                let k = (x * CHUNKS + y) as int;
                assert(k / 20 == x && k % 20 == y);
                assert(chunk_coordinates_spec().subrange(0, k + 1) == chunk_coordinates_spec().subrange(
                    0,
                    k,
                ).push((x, y)));
            }
            y += 1;
        }
        x += 1;
    }
    assert(chunk_coordinates_spec().subrange(0, 400) == chunk_coordinates_spec());
    shuffle_coordinates(&mut coordinates_xy);
    coordinates_xy
}

impl Machine {
    /// Pixel bounds of chunk `xy`: `(x_from, x_to, y_from, y_to)`.
    pub fn chunk_boundaries(&self, xy: (usize, usize)) -> (r: (usize, usize, usize, usize))
        requires
            self.wf(),
            xy.0 < CHUNKS,
            xy.1 < CHUNKS,
        ensures
            (r.0 as int, r.1 as int, r.2 as int, r.3 as int) == chunk_boundaries_spec(
                self.width as int,
                self.height as int,
                xy.0 as int,
                xy.1 as int,
            ),
            r.0 <= r.1 <= self.width,
            r.2 <= r.3 <= self.height,
    {
        let w = self.width;
        let h = self.height;
        proof {
            lemma_split_monotone(w as int, xy.0 as int, xy.0 + 1);
            lemma_split_monotone(w as int, xy.0 + 1, CHUNKS as int);
            lemma_split_monotone(h as int, xy.1 as int, xy.1 + 1);
            lemma_split_monotone(h as int, xy.1 + 1, CHUNKS as int);
            assert((xy.0 + 1) * w <= 20 * MAX_SIDE && (xy.1 + 1) * h <= 20 * MAX_SIDE) by (nonlinear_arith)
                requires xy.0 < 20, xy.1 < 20, w <= MAX_SIDE, h <= MAX_SIDE;
            assert(20 * w / 20 == w && 20 * h / 20 == h);
        }
        (xy.0 * w / CHUNKS, (xy.0 + 1) * w / CHUNKS, xy.1 * h / CHUNKS, (xy.1 + 1) * h / CHUNKS)
    }
}

/// What the calculation of one fresh pixel leads to: its new state and,
/// where its orbit is good, the in-area path to deposit.
pub struct PixelOutcome {
    pub x: usize,
    pub y: usize,
    pub state: DomainElementState,
    pub path: Vec<Mem>,
}

/// Steps of the orbit of pixel `(x, y)`.
pub open spec fn pixel_iterations<F: FractalMath>(m: &Machine, fractal: &F, x: int, y: int) -> nat {
    let p = m.pixel(x, y);
    iteration_count(fractal, p.origin_re, p.origin_im, m.max as nat)
}

/// In-area states of the orbit of pixel `(x, y)`.
pub open spec fn pixel_path<F: FractalMath>(m: &Machine, fractal: &F, x: int, y: int) -> Seq<Mem> {
    let p = m.pixel(x, y);
    in_area_path(fractal, m.area, p.origin_re, p.origin_im, pixel_iterations(m, fractal, x, y))
}

/// Whether the orbit of pixel `(x, y)` is good.
pub open spec fn pixel_good<F: FractalMath>(m: &Machine, fractal: &F, x: int, y: int) -> bool {
    path_test_spec(
        m.orbits,
        m.min,
        m.max,
        pixel_path(m, fractal, x, y).len() as u32,
        pixel_iterations(m, fractal, x, y) as u32,
    )
}

/// The state pixel `(x, y)` finishes in.
pub open spec fn pixel_final_state<F: FractalMath>(m: &Machine, fractal: &F, x: int, y: int) -> DomainElementState {
    state_from_path_length_spec(
        m.orbits,
        pixel_iterations(m, fractal, x, y) as u32,
        pixel_path(m, fractal, x, y).len() as u32,
        m.min,
        m.max,
    )
}

/// Whether `o` is the outcome of calculating its fresh pixel on `m`.
pub open spec fn outcome_ok<F: FractalMath>(m: &Machine, fractal: &F, o: PixelOutcome) -> bool {
    &&& o.x < m.width
    &&& o.y < m.height
    &&& m.pixel(o.x as int, o.y as int).state == DomainElementState::ActiveNew
    &&& o.state == pixel_final_state(m, fractal, o.x as int, o.y as int)
    &&& o.path@ == if pixel_good(m, fractal, o.x as int, o.y as int) {
        pixel_path(m, fractal, o.x as int, o.y as int)
    } else {
        Seq::empty()
    }
}

/// Whether `(x, y)` lies in the rectangle `c` = `(x_from, x_to, y_from, y_to)`.
pub open spec fn in_rect(c: (int, int, int, int), x: int, y: int) -> bool {
    c.0 <= x < c.1 && c.2 <= y < c.3
}

/// Whether `outs` are the outcomes of the fresh pixels of chunk `xy`, each
/// such pixel once.
pub open spec fn chunk_outcomes_ok<F: FractalMath>(
    m: &Machine,
    fractal: &F,
    xy: (usize, usize),
    outs: Seq<PixelOutcome>,
) -> bool {
    let c = chunk_boundaries_spec(m.width as int, m.height as int, xy.0 as int, xy.1 as int);
    &&& forall|k: int| 0 <= k < outs.len() ==> outcome_ok(m, fractal, #[trigger] outs[k])
    &&& forall|k: int| 0 <= k < outs.len() ==> in_rect(c, (#[trigger] outs[k]).x as int, outs[k].y as int)
    &&& forall|k: int, l: int|
        0 <= k < l < outs.len() ==> (#[trigger] outs[k].x, outs[k].y) != (#[trigger] outs[l].x, outs[l].y)
    &&& forall|x: int, y: int|
        in_rect(c, x, y) && m.pixel(x, y).state == DomainElementState::ActiveNew ==> exists|k: int|
            0 <= k < outs.len() && (#[trigger] outs[k]).x == x && outs[k].y == y
}

/// Visits that the paths of `outs` add to pixel `i`.
pub open spec fn outcomes_hits(outs: Seq<PixelOutcome>, area: Area, i: int) -> nat
    decreases outs.len(),
{
    if outs.len() == 0 {
        0
    } else {
        outcomes_hits(outs.drop_last(), area, i) + path_hits(outs.last().path@, area, i)
    }
}

/// State of pixel `i` once `outs` are applied to a pixel in state `s`.
pub open spec fn state_after(outs: Seq<PixelOutcome>, width: int, i: int, s: DomainElementState) -> DomainElementState
    decreases outs.len(),
{
    if outs.len() == 0 {
        s
    } else if outs.last().y * width + outs.last().x == i {
        outs.last().state
    } else {
        state_after(outs.drop_last(), width, i, s)
    }
}

impl Machine {
    /// Whether `other` has the same area, bounds and policies.
    pub open spec fn same_setup(&self, other: &Machine) -> bool {
        &&& self.area == other.area
        &&& self.width == other.width
        &&& self.height == other.height
        &&& self.min == other.min
        &&& self.max == other.max
        &&& self.orbits == other.orbits
        &&& self.palette_size == other.palette_size
        &&& self.palette_zero_size == other.palette_zero_size
        &&& self.resolution_multiplier == other.resolution_multiplier
        &&& self.data_image.width == other.data_image.width
        &&& self.data_image.height == other.data_image.height
    }

    /// The outcome of calculating pixel `(x, y)`, if it is fresh.
    pub fn pixel_outcome<F: FractalMath>(&self, x: usize, y: usize, fractal: &F) -> (r: Option<PixelOutcome>)
        requires
            self.wf(),
            x < self.width,
            y < self.height,
        ensures
            r is None <==> self.pixel(x as int, y as int).state != DomainElementState::ActiveNew,
            r matches Some(o) ==> outcome_ok(self, fractal, o) && o.x == x && o.y == y,
    {
        let (state, origin_re, origin_im) = self.data_image.state_origin_at(x, y);
        if !is_active_new(state) {
            return None;
        }
        proof {
            lemma_grid_index(self.width as int, self.height as int, x as int, y as int);
            assert(origin_ok(self.data_image.pixels@[y * self.width + x]));
        }
        let (iterator, length) = investigate_path(fractal, &self.area, self.max, origin_re, origin_im);
        let new_state = state_from_path_length(self.orbits, iterator, length, self.min, self.max);
        let path = if path_test(self.orbits, self.min, self.max, length, iterator) {
            record_path(fractal, &self.area, self.max, iterator, origin_re, origin_im)
        } else {
            Vec::new()
        };
        Some(PixelOutcome { x, y, state: new_state, path })
    }

    /// Calculates the fresh pixels of chunk `xy`, column by column, without
    /// changing the machine.
    pub fn calculate_chunk<F: FractalMath>(&self, xy: (usize, usize), fractal: &F) -> (r: Vec<PixelOutcome>)
        requires
            self.wf(),
            xy.0 < CHUNKS,
            xy.1 < CHUNKS,
        ensures
            chunk_outcomes_ok(self, fractal, xy, r@),
    {
        let (x_from, x_to, y_from, y_to) = self.chunk_boundaries(xy);
        let ghost c = (x_from as int, x_to as int, y_from as int, y_to as int);
        let mut outs: Vec<PixelOutcome> = Vec::new();
        let mut x = x_from;
        while x < x_to
            invariant
                self.wf(),
                c == chunk_boundaries_spec(self.width as int, self.height as int, xy.0 as int, xy.1 as int),
                c == (x_from as int, x_to as int, y_from as int, y_to as int),
                x_to <= self.width,
                y_from <= y_to <= self.height,
                x_from <= x <= x_to,
                forall|k: int| 0 <= k < outs@.len() ==> outcome_ok(self, fractal, #[trigger] outs@[k]),
                forall|k: int|
                    0 <= k < outs@.len() ==> in_rect(c, (#[trigger] outs@[k]).x as int, outs@[k].y as int)
                        && outs@[k].x < x,
                forall|k: int, l: int|
                    0 <= k < l < outs@.len() ==> (#[trigger] outs@[k].x, outs@[k].y) != (
                        #[trigger] outs@[l].x,
                        outs@[l].y,
                    ),
                forall|x2: int, y2: int|
                    in_rect(c, x2, y2) && x2 < x && self.pixel(x2, y2).state == DomainElementState::ActiveNew
                        ==> exists|k: int|
                        0 <= k < outs@.len() && (#[trigger] outs@[k]).x == x2 && outs@[k].y == y2,
            decreases x_to - x,
        {
            let mut y = y_from;
            let ghost col_start = outs@.len();
            while y < y_to
                invariant
                    self.wf(),
                    c == chunk_boundaries_spec(self.width as int, self.height as int, xy.0 as int, xy.1 as int),
                    c == (x_from as int, x_to as int, y_from as int, y_to as int),
                    x_to <= self.width,
                    y_to <= self.height,
                    x_from <= x < x_to,
                    y_from <= y <= y_to,
                    col_start <= outs@.len(),
                    forall|k: int| 0 <= k < outs@.len() ==> outcome_ok(self, fractal, #[trigger] outs@[k]),
                    forall|k: int|
                        0 <= k < outs@.len() ==> in_rect(c, (#[trigger] outs@[k]).x as int, outs@[k].y as int)
                            && (outs@[k].x < x || (k >= col_start && outs@[k].x == x && outs@[k].y < y)),
                    forall|k: int| 0 <= k < col_start ==> (#[trigger] outs@[k]).x < x,
                    forall|k: int, l: int|
                        0 <= k < l < outs@.len() ==> (#[trigger] outs@[k].x, outs@[k].y) != (
                            #[trigger] outs@[l].x,
                            outs@[l].y,
                        ),
                    forall|x2: int, y2: int|
                        in_rect(c, x2, y2) && (x2 < x || (x2 == x && y2 < y)) && self.pixel(x2, y2).state
                            == DomainElementState::ActiveNew ==> exists|k: int|
                            0 <= k < outs@.len() && (#[trigger] outs@[k]).x == x2 && outs@[k].y == y2,
                decreases y_to - y,
            {
                let ghost before = outs@;
                match self.pixel_outcome(x, y, fractal) {
                    Some(o) => {
                        outs.push(o);
                        proof {
                            assert forall|x2: int, y2: int|
                                in_rect(c, x2, y2) && (x2 < x || (x2 == x && y2 < y + 1)) && self.pixel(
                                    x2,
                                    y2,
                                ).state == DomainElementState::ActiveNew implies exists|k: int|
                                0 <= k < outs@.len() && (#[trigger] outs@[k]).x == x2 && outs@[k].y == y2 by {
                                if x2 == x && y2 == y {
                                    assert(outs@[before.len() as int].x == x2);
                                } else {
                                    let k = choose|k: int|
                                        0 <= k < before.len() && (#[trigger] before[k]).x == x2 && before[k].y == y2;
                                    assert(outs@[k] == before[k]);
                                }
                            }
                        }
                    },
                    None => {
                        proof {
                            assert forall|x2: int, y2: int|
                                in_rect(c, x2, y2) && (x2 < x || (x2 == x && y2 < y + 1)) && self.pixel(
                                    x2,
                                    y2,
                                ).state == DomainElementState::ActiveNew implies exists|k: int|
                                0 <= k < outs@.len() && (#[trigger] outs@[k]).x == x2 && outs@[k].y == y2 by {
                                if x2 == x && y2 == y {
                                } else {
                                }
                            }
                        }
                    },
                }
                y += 1;
            }
            x += 1;
        }
        outs
    }

    /// Applies the outcomes of one chunk: sets the state of each pixel
    /// calculated and deposits each good path.
    pub fn apply_chunk(&mut self, outs: Vec<PixelOutcome>)
        requires
            old(self).wf(),
            forall|k: int|
                0 <= k < outs@.len() ==> (#[trigger] outs@[k]).x < old(self).width && outs@[k].y
                    < old(self).height,
        ensures
            final(self).wf(),
            final(self).same_setup(old(self)),
            forall|i: int|
                0 <= i < old(self).data_image.pixels@.len() ==> applied(
                    #[trigger] final(self).data_image.pixels@[i],
                    old(self).data_image.pixels@[i],
                    outs@,
                    old(self).width as int,
                    old(self).area,
                    i,
                ),
    {
        let ghost start = self.data_image.pixels@;
        let ghost w = self.width as int;
        let mut k: usize = 0;
        while k < outs.len()
            invariant
                self.wf(),
                self.same_setup(old(self)),
                start == old(self).data_image.pixels@,
                w == self.width,
                k <= outs@.len(),
                self.data_image.pixels@.len() == start.len(),
                forall|j: int|
                    0 <= j < outs@.len() ==> (#[trigger] outs@[j]).x < self.width && outs@[j].y < self.height,
                forall|i: int|
                    0 <= i < start.len() ==> applied(
                        #[trigger] self.data_image.pixels@[i],
                        start[i],
                        outs@.subrange(0, k as int),
                        w,
                        self.area,
                        i,
                    ),
            decreases outs@.len() - k,
        {
            let o = &outs[k];
            let ghost mid = self.data_image.pixels@;
            self.data_image.set_pixel_state(o.x, o.y, o.state);
            let ghost mid2 = self.data_image.pixels@;
            self.data_image.translate_path_to_point_grid(&o.path, &self.area);
            proof {
                let pre = outs@.subrange(0, k as int);
                let post = outs@.subrange(0, k + 1);
                assert(post.drop_last() == pre);
                assert(post.last() == outs@[k as int]);
                let idx = o.y * w + o.x;
                lemma_grid_index(w, self.height as int, o.x as int, o.y as int);
                assert forall|i: int| 0 <= i < start.len() implies applied(
                    #[trigger] self.data_image.pixels@[i],
                    start[i],
                    post,
                    w,
                    self.area,
                    i,
                ) by {
                    assert(applied(mid[i], start[i], pre, w, self.area, i));
                    assert(same_but_value(self.data_image.pixels@[i], mid2[i]));
                    if i == idx {
                        assert(mid2[i].state == o.state);
                    } else {
                        assert(mid2[i] == mid[i]);
                    }
                    lemma_add_visits_twice(
                        start[i].value as int,
                        outcomes_hits(pre, self.area, i) as int,
                        path_hits(o.path@, self.area, i) as int,
                    );
                }
            }
            k += 1;
        }
        assert(outs@.subrange(0, outs@.len() as int) == outs@);
    }
}

/// `quad` as a `u64`, saturating.
pub open spec fn clamp_quad(quad: int) -> u64 {
    if quad > u64::MAX {
        u64::MAX
    } else {
        quad as u64
    }
}

impl Machine {
    /// Calculates the fresh pixels of chunk `xy` and applies the outcomes.
    pub fn chunk_calculation<F: FractalMath>(&mut self, xy: (usize, usize), fractal: &F)
        requires
            old(self).wf(),
            xy.0 < CHUNKS,
            xy.1 < CHUNKS,
        ensures
            final(self).wf(),
            final(self).same_setup(old(self)),
            exists|outs: Seq<PixelOutcome>|
                chunk_outcomes_ok(old(self), fractal, xy, outs) && forall|i: int|
                    0 <= i < old(self).data_image.pixels@.len() ==> applied(
                        #[trigger] final(self).data_image.pixels@[i],
                        old(self).data_image.pixels@[i],
                        outs,
                        old(self).width as int,
                        old(self).area,
                        i,
                    ),
            forall|x: int, y: int|
                cell_in(old(self), x, y) ==> chunk_pixel_after(
                    old(self),
                    fractal,
                    xy,
                    #[trigger] final(self).pixel(x, y),
                    x,
                    y,
                ),
    {
        let outs = self.calculate_chunk(xy, fractal);
        let ghost o = outs@;
        self.apply_chunk(outs);
        assert(chunk_outcomes_ok(old(self), fractal, xy, o));
        proof {
            let m = old(self);
            let w = m.width as int;
            assert forall|x: int, y: int| cell_in(m, x, y) implies chunk_pixel_after(
                m,
                fractal,
                xy,
                #[trigger] self.pixel(x, y),
                x,
                y,
            ) by {
                let i = y * w + x;
                lemma_grid_index(w, m.height as int, x, y);
                assert(applied(self.data_image.pixels@[i], m.data_image.pixels@[i], o, w, m.area, i));
                lemma_state_after(o, w, i, m.data_image.pixels@[i].state);
                if exists|j: int| 0 <= j < o.len() && o[j].y * w + o[j].x == i {
                    let j = choose|j: int| 0 <= j < o.len() && o[j].y * w + o[j].x == i && state_after(o, w, i, m.data_image.pixels@[i].state) == o[j].state;
                    assert(outcome_ok(m, fractal, o[j]));
                    lemma_index_eq(w, m.height as int, o[j].x as int, o[j].y as int, x, y);
                }
                if in_rect(chunk_boundaries_spec(w, m.height as int, xy.0 as int, xy.1 as int), x, y)
                    && m.pixel(x, y).state == DomainElementState::ActiveNew {
                    let k = choose|k: int| 0 <= k < o.len() && (#[trigger] o[k]).x == x && o[k].y == y;
                    assert(o[k].y * w + o[k].x == i);
                }
            }
        }
    }

    /// Calculates pixel `(x, y)`, if it is fresh: sets its state and
    /// deposits its path where the path is good.
    pub fn calculate_path_xy<F: FractalMath>(&mut self, x: usize, y: usize, fractal: &F)
        requires
            old(self).wf(),
            x < old(self).width,
            y < old(self).height,
        ensures
            final(self).wf(),
            final(self).same_setup(old(self)),
            old(self).pixel(x as int, y as int).state != DomainElementState::ActiveNew ==> final(self).data_image.pixels@
                == old(self).data_image.pixels@,
            old(self).pixel(x as int, y as int).state == DomainElementState::ActiveNew ==> final(self).pixel(
                x as int,
                y as int,
            ).state == pixel_final_state(old(self), fractal, x as int, y as int),
            forall|i: int|
                0 <= i < old(self).data_image.pixels@.len() && i != old(self).data_image.index(x as int, y as int)
                    ==> (#[trigger] final(self).data_image.pixels@[i]).state == old(self).data_image.pixels@[i].state,
            forall|i: int|
                0 <= i < old(self).data_image.pixels@.len() ==> (#[trigger] final(self).data_image.pixels@[i]).value
                    == if old(self).pixel(x as int, y as int).state == DomainElementState::ActiveNew && pixel_good(
                    old(self),
                    fractal,
                    x as int,
                    y as int,
                ) {
                    add_visits(
                        old(self).data_image.pixels@[i].value as int,
                        path_hits(pixel_path(old(self), fractal, x as int, y as int), old(self).area, i) as int,
                    )
                } else {
                    old(self).data_image.pixels@[i].value as int
                },
    {
        let (state, origin_re, origin_im) = self.data_image.state_origin_at(x, y);
        if is_active_new(state) {
            proof {
                lemma_grid_index(self.width as int, self.height as int, x as int, y as int);
                assert(origin_ok(self.data_image.pixels@[y * self.width + x]));
            }
            let (iterator, path_length) = calculate_path(
                fractal,
                &self.area,
                self.min,
                self.max,
                self.orbits,
                origin_re,
                origin_im,
                &mut self.data_image,
            );
            let new_state = state_from_path_length(self.orbits, iterator, path_length, self.min, self.max);
            self.data_image.set_pixel_state(x, y, new_state);
        }
    }

    /// Calculates the fresh pixels of chunk `xy` as a Mandelbrot-like
    /// fractal: each takes the steps of its own orbit as value, the final
    /// squared magnitude as quad, and escaping before the cap as success.
    pub fn chunk_calculation_mandelbrot<F: FractalMath>(&mut self, fractal: &F, xy: (usize, usize))
        requires
            old(self).wf(),
            xy.0 < CHUNKS,
            xy.1 < CHUNKS,
        ensures
            final(self).wf(),
            final(self).same_setup(old(self)),
            forall|x: int, y: int|
                0 <= x < old(self).width && 0 <= y < old(self).height ==> {
                    let c = chunk_boundaries_spec(old(self).width as int, old(self).height as int, xy.0 as int, xy.1 as int);
                    let q = old(self).pixel(x, y);
                    let p = #[trigger] final(self).pixel(x, y);
                    if in_rect(c, x, y) && q.state == DomainElementState::ActiveNew {
                        let it = iteration_count(fractal, q.origin_re, q.origin_im, old(self).max as nat);
                        p == Pixel {
                            value: it as u32,
                            quad: clamp_quad(quad_spec(crate::fractal::orbit(fractal, q.origin_re, q.origin_im, it))),
                            state: state_from_path_length_spec(OrbitType::Finite, it as u32, it as u32, 0, old(self).max),
                            ..q
                        }
                    } else {
                        p == q
                    }
                },
    {
        let (x_from, x_to, y_from, y_to) = self.chunk_boundaries(xy);
        let ghost c = (x_from as int, x_to as int, y_from as int, y_to as int);
        let ghost start = self.data_image.pixels@;
        let mut x = x_from;
        while x < x_to
            invariant
                self.wf(),
                self.same_setup(old(self)),
                start == old(self).data_image.pixels@,
                c == chunk_boundaries_spec(self.width as int, self.height as int, xy.0 as int, xy.1 as int),
                c == (x_from as int, x_to as int, y_from as int, y_to as int),
                x_to <= self.width,
                y_from <= y_to <= self.height,
                x_from <= x <= x_to,
                forall|x2: int, y2: int|
                    0 <= x2 < self.width && 0 <= y2 < self.height ==> {
                        let q = old(self).pixel(x2, y2);
                        let p = #[trigger] self.pixel(x2, y2);
                        if in_rect(c, x2, y2) && x2 < x && q.state == DomainElementState::ActiveNew {
                            let it = iteration_count(fractal, q.origin_re, q.origin_im, self.max as nat);
                            p == Pixel {
                                value: it as u32,
                                quad: clamp_quad(quad_spec(crate::fractal::orbit(fractal, q.origin_re, q.origin_im, it))),
                                state: state_from_path_length_spec(OrbitType::Finite, it as u32, it as u32, 0, self.max),
                                ..q
                            }
                        } else {
                            p == q
                        }
                    },
            decreases x_to - x,
        {
            let mut y = y_from;
            while y < y_to
                invariant
                    self.wf(),
                    self.same_setup(old(self)),
                    start == old(self).data_image.pixels@,
                    c == (x_from as int, x_to as int, y_from as int, y_to as int),
                    x_to <= self.width,
                    y_to <= self.height,
                    x_from <= x < x_to,
                    y_from <= y <= y_to,
                    forall|x2: int, y2: int|
                        0 <= x2 < self.width && 0 <= y2 < self.height ==> {
                            let q = old(self).pixel(x2, y2);
                            let p = #[trigger] self.pixel(x2, y2);
                            if in_rect(c, x2, y2) && (x2 < x || (x2 == x && y2 < y)) && q.state
                                == DomainElementState::ActiveNew {
                                let it = iteration_count(fractal, q.origin_re, q.origin_im, self.max as nat);
                                p == Pixel {
                                    value: it as u32,
                                    quad: clamp_quad(
                                        quad_spec(crate::fractal::orbit(fractal, q.origin_re, q.origin_im, it)),
                                    ),
                                    state: state_from_path_length_spec(
                                        OrbitType::Finite,
                                        it as u32,
                                        it as u32,
                                        0,
                                        self.max,
                                    ),
                                    ..q
                                }
                            } else {
                                p == q
                            }
                        },
                decreases y_to - y,
            {
                let (state, origin_re, origin_im) = self.data_image.state_origin_at(x, y);
                let ghost before = self.data_image.pixels@;
                if !is_finished_any(state) {
                    proof {
                        lemma_grid_index(self.width as int, self.height as int, x as int, y as int);
                        assert(origin_ok(self.data_image.pixels@[y * self.width + x]));
                    }
                    let (iterator, quad) = calculate_mandelbrot_path(fractal, self.max, origin_re, origin_im);
                    let new_state = state_from_path_length(OrbitType::Finite, iterator, iterator, 0, self.max);
                    let q = if quad > u64::MAX as u128 {
                        u64::MAX
                    } else {
                        quad as u64
                    };
                    self.data_image.set_pixel_mandelbrot(x, y, iterator, q, new_state);
                    proof {
                        let w = self.width as int;
                        assert forall|x2: int, y2: int|
                            0 <= x2 < self.width && 0 <= y2 < self.height && (x2 != x || y2 != y) implies #[trigger] self.pixel(
                                x2,
                                y2,
                            ) == before[y2 * w + x2] by {
                            lemma_grid_index(w, self.height as int, x2, y2);
                            assert(y2 * w + x2 != y * w + x) by (nonlinear_arith)
                                requires 0 <= x2 < w, 0 <= x < w, x2 != x || y2 != y;
                        }
                    }
                }
                y += 1;
            }
            x += 1;
        }
    }
}

/// State of the `k`-th cell of the 3x3 block centred on `(x, y)`, if it is
/// a neighbour inside the grid.
pub open spec fn neighbor_state(m: &Machine, x: int, y: int, k: int) -> Option<DomainElementState> {
    let nx = x + k % 3 - 1;
    let ny = y + k / 3 - 1;
    if k != 4 && 0 <= nx < m.width && 0 <= ny < m.height {
        Some(m.pixel(nx, ny).state)
    } else {
        None
    }
}

/// A pixel on the set's horizon: among its neighbours one escaped too soon
/// and one reached the cap.
pub open spec fn on_horizon(m: &Machine, x: int, y: int) -> bool {
    &&& exists|k: int| 0 <= k < 9 && #[trigger] neighbor_state(m, x, y, k) == Some(DomainElementState::FinishedTooShort)
    &&& exists|k: int| 0 <= k < 9 && #[trigger] neighbor_state(m, x, y, k) == Some(DomainElementState::FinishedTooLong)
}

/// `add_visits` with a count of visits.
pub open spec fn add_visits_nat(v: int, n: nat) -> int {
    add_visits(v, n as int)
}

/// Distance between neighbouring sub-origins of a pixel in the wrap pass.
pub open spec fn sub_step(m: &Machine) -> int {
    (m.area.plank as int) / (multiplier_spec(m.resolution_multiplier) as int)
}

/// Visits that the orbit of `(re, im)` adds to pixel `k`: those of its
/// in-area path, where the path is good.
pub open spec fn origin_hits<F: FractalMath>(m: &Machine, fractal: &F, re: i64, im: i64, k: int) -> nat {
    let it = iteration_count(fractal, re, im, m.max as nat);
    let path = in_area_path(fractal, m.area, re, im, it);
    if path_test_spec(m.orbits, m.min, m.max, path.len() as u32, it as u32) {
        path_hits(path, m.area, k)
    } else {
        0
    }
}

/// Visits that sub-origin `(i, j)` of pixel `(x, y)` adds to pixel `k`; the
/// pixel's own origin adds none.
pub open spec fn sub_origin_hits<F: FractalMath>(m: &Machine, fractal: &F, x: int, y: int, i: int, j: int, k: int) -> nat {
    if i == 0 && j == 0 {
        0
    } else {
        let p = m.pixel(x, y);
        origin_hits(
            m,
            fractal,
            (p.origin_re + i * sub_step(m)) as i64,
            (p.origin_im + j * sub_step(m)) as i64,
            k,
        )
    }
}

/// Visits of sub-origins `(i, 0..jn)` of pixel `(x, y)` to pixel `k`.
pub open spec fn row_of_subs_hits<F: FractalMath>(m: &Machine, fractal: &F, x: int, y: int, i: int, jn: nat, k: int) -> nat
    decreases jn,
{
    if jn == 0 {
        0
    } else {
        row_of_subs_hits(m, fractal, x, y, i, (jn - 1) as nat, k) + sub_origin_hits(m, fractal, x, y, i, jn - 1, k)
    }
}

/// Visits of sub-origins `(0..i_n, 0..n)` of pixel `(x, y)` to pixel `k`.
pub open spec fn pixel_wrap_hits<F: FractalMath>(m: &Machine, fractal: &F, x: int, y: int, i_n: nat, k: int) -> nat
    decreases i_n,
{
    if i_n == 0 {
        0
    } else {
        pixel_wrap_hits(m, fractal, x, y, (i_n - 1) as nat, k) + row_of_subs_hits(
            m,
            fractal,
            x,
            y,
            i_n - 1,
            multiplier_spec(m.resolution_multiplier) as nat,
            k,
        )
    }
}

/// Visits that the horizon pixels `(x, y_from..y_end)` add to pixel `k`.
pub open spec fn column_wrap_hits<F: FractalMath>(m: &Machine, fractal: &F, x: int, y_from: int, y_end: int, k: int) -> nat
    decreases y_end - y_from,
{
    if y_end <= y_from {
        0
    } else {
        column_wrap_hits(m, fractal, x, y_from, y_end - 1, k) + if on_horizon(m, x, y_end - 1) {
            pixel_wrap_hits(m, fractal, x, y_end - 1, multiplier_spec(m.resolution_multiplier) as nat, k)
        } else {
            0
        }
    }
}

/// Visits that the horizon pixels of columns `c.0..x_end` of the rectangle
/// `c` add to pixel `k`.
pub open spec fn chunk_wrap_hits<F: FractalMath>(m: &Machine, fractal: &F, c: (int, int, int, int), x_end: int, k: int) -> nat
    decreases x_end - c.0,
{
    if x_end <= c.0 {
        0
    } else {
        chunk_wrap_hits(m, fractal, c, x_end - 1, k) + column_wrap_hits(m, fractal, x_end - 1, c.2, c.3, k)
    }
}

proof fn lemma_same_states_horizon(m1: &Machine, m2: &Machine, x: int, y: int, start: Seq<Pixel>)
    requires
        m1.wf(),
        m1.same_setup(m2),
        start == m2.data_image.pixels@,
        start.len() == m1.data_image.pixels@.len(),
        forall|k: int| 0 <= k < start.len() ==> same_origin_state(#[trigger] m1.data_image.pixels@[k], start[k]),
    ensures
        on_horizon(m1, x, y) == on_horizon(m2, x, y),
{
    assert forall|k: int| 0 <= k < 9 implies #[trigger] neighbor_state(m1, x, y, k) == neighbor_state(m2, x, y, k) by {
        let nx = x + k % 3 - 1;
        let ny = y + k / 3 - 1;
        if k != 4 && 0 <= nx < m1.width && 0 <= ny < m1.height {
            lemma_grid_index(m1.width as int, m1.height as int, nx, ny);
            assert(same_origin_state(m1.data_image.pixels@[ny * m1.width + nx], start[ny * m1.width + nx]));
        }
    }
    let short = Some(DomainElementState::FinishedTooShort);
    let long = Some(DomainElementState::FinishedTooLong);
    if exists|k: int| 0 <= k < 9 && #[trigger] neighbor_state(m1, x, y, k) == short {
        let k = choose|k: int| 0 <= k < 9 && #[trigger] neighbor_state(m1, x, y, k) == short;
        assert(neighbor_state(m2, x, y, k) == short);
    }
    if exists|k: int| 0 <= k < 9 && #[trigger] neighbor_state(m2, x, y, k) == short {
        let k = choose|k: int| 0 <= k < 9 && #[trigger] neighbor_state(m2, x, y, k) == short;
        assert(neighbor_state(m1, x, y, k) == short);
    }
    if exists|k: int| 0 <= k < 9 && #[trigger] neighbor_state(m1, x, y, k) == long {
        let k = choose|k: int| 0 <= k < 9 && #[trigger] neighbor_state(m1, x, y, k) == long;
        assert(neighbor_state(m2, x, y, k) == long);
    }
    if exists|k: int| 0 <= k < 9 && #[trigger] neighbor_state(m2, x, y, k) == long {
        let k = choose|k: int| 0 <= k < 9 && #[trigger] neighbor_state(m2, x, y, k) == long;
        assert(neighbor_state(m1, x, y, k) == long);
    }
}

/// The machine's colours of a Nebula-like field.
pub open spec fn nebula_colors_ok(m: &Machine) -> bool {
    let values = values_of(m.data_image.pixels@);
    forall|i: int|
        0 <= i < m.data_image.pixels@.len() ==> (#[trigger] m.data_image.pixels@[i]).colour == Some(
            threshold_color(values, COLORING_THRESHOLD, m.palette_size as int, i) as usize,
        )
}

/// The machine's colours of a Mandelbrot-like field.
pub open spec fn mandelbrot_colors_ok(m: &Machine) -> bool {
    let px = m.data_image.pixels@;
    let banded = mandelbrot_band_colors(
        values_of(px),
        quads_of(px),
        quids_of(px),
        m.palette_size as int,
        m.palette_zero_size as int,
    );
    forall|x: int, y: int|
        0 <= x < m.width && 0 <= y < m.height ==> (#[trigger] m.pixel(x, y)).colour == Some(
            fixed_color(values_of(px), banded, m.width as int, m.height as int, x, y) as usize,
        )
}

impl Machine {
    /// Whether pixel `(x, y)` lies on the set's horizon.
    pub fn is_on_mandelbrot_horizon(&self, x: usize, y: usize) -> (r: bool)
        requires
            self.wf(),
            x < self.width,
            y < self.height,
        ensures
            r == on_horizon(self, x as int, y as int),
    {
        let mut short = false;
        let mut long = false;
        let mut k: usize = 0;
        while k < 9
            invariant
                self.wf(),
                x < self.width,
                y < self.height,
                k <= 9,
                short == exists|j: int|
                    0 <= j < k && #[trigger] neighbor_state(self, x as int, y as int, j) == Some(
                        DomainElementState::FinishedTooShort,
                    ),
                long == exists|j: int|
                    0 <= j < k && #[trigger] neighbor_state(self, x as int, y as int, j) == Some(
                        DomainElementState::FinishedTooLong,
                    ),
            decreases 9 - k,
        {
            if k != 4 && x + k % 3 >= 1 && x + k % 3 - 1 < self.width && y + k / 3 >= 1 && y + k / 3 - 1
                < self.height {
                let (state, _, _) = self.data_image.state_origin_at(x + k % 3 - 1, y + k / 3 - 1);
                assert(neighbor_state(self, x as int, y as int, k as int) == Some(state));
                if matches!(state, DomainElementState::FinishedTooShort) {
                    short = true;
                }
                if matches!(state, DomainElementState::FinishedTooLong) {
                    long = true;
                }
            } else {
                assert(neighbor_state(self, x as int, y as int, k as int) is None);
            }
            k += 1;
        }
        short && long
    }

    /// Supersamples the pixels of chunk `xy` that lie on the horizon: the
    /// cell of each is subdivided into `n * n` sub-origins, `n` the
    /// resolution multiplier, and each sub-origin but the pixel's own is
    /// calculated. The sub-origins stay within the originating pixel's cell,
    /// and the pass changes no pixel's state: a good path refines the value
    /// distribution only, its visits deposited on the pixels it passes as in
    /// the primary pass.
    pub fn chunk_calculation_with_wrap<F: FractalMath>(&mut self, xy: (usize, usize), fractal: &F)
        requires
            old(self).wf(),
            old(self).resolution_multiplier != ResolutionMultiplier::Single,
            xy.0 < CHUNKS,
            xy.1 < CHUNKS,
        ensures
            final(self).wf(),
            final(self).same_setup(old(self)),
            forall|k: int|
                0 <= k < old(self).data_image.pixels@.len() ==> same_but_value(
                    #[trigger] final(self).data_image.pixels@[k],
                    old(self).data_image.pixels@[k],
                ) && final(self).data_image.pixels@[k].value == add_visits(
                    old(self).data_image.pixels@[k].value as int,
                    chunk_wrap_hits(
                        old(self),
                        fractal,
                        chunk_boundaries_spec(old(self).width as int, old(self).height as int, xy.0 as int, xy.1 as int),
                        chunk_boundaries_spec(old(self).width as int, old(self).height as int, xy.0 as int, xy.1 as int).1,
                        k,
                    ) as int,
                ),
    {
        let (x_from, x_to, y_from, y_to) = self.chunk_boundaries(xy);
        let ghost c = (x_from as int, x_to as int, y_from as int, y_to as int);
        let n = multiplier(self.resolution_multiplier);
        let plank = self.area.plank;
        proof {
            lemma_area_bounds(self.area);
            assert(plank <= MAX_WIDTH_RE) by (nonlinear_arith)
                requires plank * self.width <= MAX_WIDTH_RE, self.width >= 1, plank >= 0;
        }
        let step = plank / (n as i64);
        assert(0 <= step <= plank) by (nonlinear_arith)
            requires step == (plank as int) / (n as int), n >= 1, plank >= 0;
        let ghost m0 = *old(self);
        let ghost start = self.data_image.pixels@;
        let mut x = x_from;
        while x < x_to
            invariant
                self.wf(),
                self.same_setup(&m0),
                m0 == *old(self),
                m0.wf(),
                c == chunk_boundaries_spec(m0.width as int, m0.height as int, xy.0 as int, xy.1 as int),
                start == m0.data_image.pixels@,
                start.len() == self.data_image.pixels@.len(),
                c == (x_from as int, x_to as int, y_from as int, y_to as int),
                x_from <= x <= x_to <= self.width,
                y_from <= y_to <= self.height,
                n == multiplier_spec(self.resolution_multiplier),
                plank == self.area.plank,
                0 <= plank <= MAX_WIDTH_RE,
                step == sub_step(&m0),
                0 <= step <= plank,
                forall|k: int|
                    0 <= k < start.len() ==> same_but_value(#[trigger] self.data_image.pixels@[k], start[k])
                        && self.data_image.pixels@[k].value == add_visits_nat(
                        start[k].value as int,
                        chunk_wrap_hits(&m0, fractal, c, x as int, k),
                    ),
            decreases x_to - x,
        {
            let mut y = y_from;
            while y < y_to
                invariant
                    self.wf(),
                    self.same_setup(&m0),
                    m0.wf(),
                    start == m0.data_image.pixels@,
                    start.len() == self.data_image.pixels@.len(),
                    c == (x_from as int, x_to as int, y_from as int, y_to as int),
                    x_from <= x < x_to <= self.width,
                    y_from <= y <= y_to <= self.height,
                    n == multiplier_spec(self.resolution_multiplier),
                    plank == self.area.plank,
                    0 <= plank <= MAX_WIDTH_RE,
                    step == sub_step(&m0),
                    0 <= step <= plank,
                    forall|k: int|
                        0 <= k < start.len() ==> same_but_value(#[trigger] self.data_image.pixels@[k], start[k])
                            && self.data_image.pixels@[k].value == add_visits_nat(
                            start[k].value as int,
                            chunk_wrap_hits(&m0, fractal, c, x as int, k) + column_wrap_hits(
                                &m0,
                                fractal,
                                x as int,
                                y_from as int,
                                y as int,
                                k,
                            ),
                        ),
                decreases y_to - y,
            {
                proof {
                    assert forall|k: int| 0 <= k < start.len() implies same_origin_state(
                        #[trigger] self.data_image.pixels@[k],
                        start[k],
                    ) by {
                        assert(same_but_value(self.data_image.pixels@[k], start[k]));
                    }
                    lemma_same_states_horizon(self, &m0, x as int, y as int, start);
                }
                if self.is_on_mandelbrot_horizon(x, y) {
                    let (_, origin_re, origin_im) = self.data_image.state_origin_at(x, y);
                    proof {
                        lemma_grid_index(self.width as int, self.height as int, x as int, y as int);
                        assert(origin_ok(self.data_image.pixels@[y * self.width + x]));
                        assert(origin_re == m0.pixel(x as int, y as int).origin_re);
                        assert(origin_im == m0.pixel(x as int, y as int).origin_im);
                    }
                    let mut i: usize = 0;
                    while i < n
                        invariant
                            self.wf(),
                            self.same_setup(&m0),
                            m0.wf(),
                            start == m0.data_image.pixels@,
                            start.len() == self.data_image.pixels@.len(),
                            x_from <= x < x_to <= self.width,
                            y_from <= y < y_to <= self.height,
                            on_horizon(&m0, x as int, y as int),
                            n == multiplier_spec(m0.resolution_multiplier),
                            n <= 11,
                            i <= n,
                            plank == self.area.plank,
                            0 <= plank <= MAX_WIDTH_RE,
                            step == sub_step(&m0),
                            0 <= step <= plank,
                            origin_re == m0.pixel(x as int, y as int).origin_re,
                            origin_im == m0.pixel(x as int, y as int).origin_im,
                            -48 * SCALE <= origin_re <= 48 * SCALE,
                            -48 * SCALE <= origin_im <= 48 * SCALE,
                            forall|k: int|
                                0 <= k < start.len() ==> same_but_value(#[trigger] self.data_image.pixels@[k], start[k])
                                    && self.data_image.pixels@[k].value == add_visits_nat(
                                    start[k].value as int,
                                    chunk_wrap_hits(&m0, fractal, c, x as int, k) + column_wrap_hits(
                                        &m0,
                                        fractal,
                                        x as int,
                                        y_from as int,
                                        y as int,
                                        k,
                                    ) + pixel_wrap_hits(&m0, fractal, x as int, y as int, i as nat, k),
                                ),
                        decreases n - i,
                    {
                        let mut j: usize = 0;
                        while j < n
                            invariant
                                self.wf(),
                                self.same_setup(&m0),
                                m0.wf(),
                                start == m0.data_image.pixels@,
                                start.len() == self.data_image.pixels@.len(),
                                n == multiplier_spec(m0.resolution_multiplier),
                                n <= 11,
                                i < n,
                                j <= n,
                                plank == self.area.plank,
                                0 <= plank <= MAX_WIDTH_RE,
                                step == sub_step(&m0),
                                0 <= step <= plank,
                                origin_re == m0.pixel(x as int, y as int).origin_re,
                                origin_im == m0.pixel(x as int, y as int).origin_im,
                                -48 * SCALE <= origin_re <= 48 * SCALE,
                                -48 * SCALE <= origin_im <= 48 * SCALE,
                                forall|k: int|
                                    0 <= k < start.len() ==> same_but_value(
                                        #[trigger] self.data_image.pixels@[k],
                                        start[k],
                                    ) && self.data_image.pixels@[k].value == add_visits_nat(
                                        start[k].value as int,
                                        chunk_wrap_hits(&m0, fractal, c, x as int, k) + column_wrap_hits(
                                            &m0,
                                            fractal,
                                            x as int,
                                            y_from as int,
                                            y as int,
                                            k,
                                        ) + pixel_wrap_hits(&m0, fractal, x as int, y as int, i as nat, k)
                                            + row_of_subs_hits(&m0, fractal, x as int, y as int, i as int, j as nat, k),
                                    ),
                            decreases n - j,
                        {
                            if i != 0 || j != 0 {
                                assert(0 <= (i as i64) * step <= plank) by (nonlinear_arith)
                                    requires 0 <= i < n, step == (plank as int) / (n as int), n >= 1, plank >= 0;
                                assert(0 <= (j as i64) * step <= plank) by (nonlinear_arith)
                                    requires 0 <= j < n, step == (plank as int) / (n as int), n >= 1, plank >= 0;
                                let re = origin_re + (i as i64) * step;
                                let im = origin_im + (j as i64) * step;
                                let ghost before = self.data_image.pixels@;
                                // within the same pixel
                                calculate_path(
                                    fractal,
                                    &self.area,
                                    self.min,
                                    self.max,
                                    self.orbits,
                                    re,
                                    im,
                                    &mut self.data_image,
                                );
                                proof {
                                    assert(before.len() == start.len());
                                    assert forall|k: int| 0 <= k < start.len() implies same_but_value(
                                        #[trigger] self.data_image.pixels@[k],
                                        start[k],
                                    ) && self.data_image.pixels@[k].value == add_visits_nat(
                                        start[k].value as int,
                                        chunk_wrap_hits(&m0, fractal, c, x as int, k) + column_wrap_hits(
                                            &m0,
                                            fractal,
                                            x as int,
                                            y_from as int,
                                            y as int,
                                            k,
                                        ) + pixel_wrap_hits(&m0, fractal, x as int, y as int, i as nat, k)
                                            + row_of_subs_hits(
                                            &m0,
                                            fractal,
                                            x as int,
                                            y as int,
                                            i as int,
                                            (j + 1) as nat,
                                            k,
                                        ),
                                    ) by {
                                        let h = chunk_wrap_hits(&m0, fractal, c, x as int, k) + column_wrap_hits(
                                            &m0,
                                            fractal,
                                            x as int,
                                            y_from as int,
                                            y as int,
                                            k,
                                        ) + pixel_wrap_hits(&m0, fractal, x as int, y as int, i as nat, k)
                                            + row_of_subs_hits(&m0, fractal, x as int, y as int, i as int, j as nat, k);
                                        assert(same_but_value(before[k], start[k]));
                                        lemma_add_visits_twice(
                                            start[k].value as int,
                                            h as int,
                                            origin_hits(&m0, fractal, re, im, k) as int,
                                        );
                                    }
                                }
                            }
                            j += 1;
                        }
                        i += 1;
                    }
                } else {
                    assert(!on_horizon(&m0, x as int, y as int));
                }
                y += 1;
            }
            x += 1;
        }
    }

    /// Colours the field by the perfect colour distribution of its values.
    pub fn perfectly_colour_nebula_values(&mut self)
        requires
            old(self).wf(),
        ensures
            final(self).wf(),
            final(self).same_setup(old(self)),
            forall|i: int|
                0 <= i < old(self).data_image.pixels@.len() ==> #[trigger] final(self).data_image.pixels@[i]
                    == (Pixel { colour: final(self).data_image.pixels@[i].colour, ..old(self).data_image.pixels@[i] }),
            nebula_colors_ok(final(self)),
    {
        let values = self.data_image.values();
        let colours = perfectly_color_values(&values, self.palette_size);
        self.data_image.set_colours(&colours);
        proof {
            let px = self.data_image.pixels@;
            let old_px = old(self).data_image.pixels@;
            assert(values_of(px) =~= values_of(old_px)) by {
                assert forall|i: int| 0 <= i < px.len() implies values_of(px)[i] == values_of(old_px)[i] by {
                    assert(px[i] == (Pixel { colour: Some(colours@[i]), ..old_px[i] }));
                }
            }
        }
    }

    /// Colours the field by the perfect colour distribution of a
    /// Mandelbrot-like field.
    pub fn perfectly_colour_mandelbrot_values(&mut self)
        requires
            old(self).wf(),
        ensures
            final(self).wf(),
            final(self).same_setup(old(self)),
            forall|i: int|
                0 <= i < old(self).data_image.pixels@.len() ==> #[trigger] final(self).data_image.pixels@[i]
                    == (Pixel { colour: final(self).data_image.pixels@[i].colour, ..old(self).data_image.pixels@[i] }),
            mandelbrot_colors_ok(final(self)),
    {
        let values = self.data_image.values();
        let (quads, quids) = self.data_image.quads_quids();
        let colours = perfectly_color_values_mandelbrot(
            &values,
            &quads,
            &quids,
            self.width,
            self.height,
            self.palette_size,
            self.palette_zero_size,
        );
        self.data_image.set_colours(&colours);
        proof {
            let px = self.data_image.pixels@;
            let old_px = old(self).data_image.pixels@;
            assert forall|i: int| 0 <= i < px.len() implies px[i] == (Pixel { colour: Some(colours@[i]), ..old_px[i] }) by {}
            assert(values_of(px) =~= values_of(old_px));
            assert(quads_of(px) =~= quads_of(old_px));
            assert(quids_of(px) =~= quids_of(old_px));
            assert forall|x: int, y: int| 0 <= x < self.width && 0 <= y < self.height implies (#[trigger] self.pixel(x, y)).colour
                == Some(
                fixed_color(
                    values_of(px),
                    mandelbrot_band_colors(
                        values_of(px),
                        quads_of(px),
                        quids_of(px),
                        self.palette_size as int,
                        self.palette_zero_size as int,
                    ),
                    self.width as int,
                    self.height as int,
                    x,
                    y,
                ) as usize,
            ) by {
                lemma_grid_index(self.width as int, self.height as int, x, y);
            }
        }
    }

    /// One calculation generation of a Nebula-like fractal: every chunk of
    /// `coordinates`, in order; then, where the resolution multiplier is not
    /// `Single`, the wrap pass over the same chunks; then the colouring.
    pub fn calculate<F: FractalMath>(&mut self, fractal: &F, coordinates: &Vec<(usize, usize)>)
        requires
            old(self).wf(),
            forall|k: int| 0 <= k < coordinates@.len() ==> (#[trigger] coordinates@[k]).0 < CHUNKS && coordinates@[k].1 < CHUNKS,
        ensures
            final(self).wf(),
            final(self).same_setup(old(self)),
            forall|x: int, y: int|
                cell_in(old(self), x, y) ==> generation_pixel(
                    old(self),
                    fractal,
                    coordinates@,
                    coordinates@.len() as int,
                    #[trigger] final(self).pixel(x, y),
                    x,
                    y,
                ),
            all_chunks(coordinates@) ==> forall|x: int, y: int|
                cell_in(old(self), x, y) ==> (#[trigger] final(self).pixel(x, y)).state
                    != DomainElementState::ActiveNew,
            exists|outs: Seq<PixelOutcome>|
                pass_outcomes_ok(old(self), fractal, coordinates@, coordinates@.len() as int, outs) && forall|i: int|
                    0 <= i < old(self).data_image.pixels@.len() ==> (#[trigger] final(self).data_image.pixels@[i]).value
                        == add_visits_nat(
                        old(self).data_image.pixels@[i].value as int,
                        outcomes_hits(outs, old(self).area, i) + if old(self).resolution_multiplier
                            != ResolutionMultiplier::Single {
                            wrap_pass_hits(final(self), fractal, coordinates@, coordinates@.len() as int, i)
                        } else {
                            0
                        },
                    ),
            nebula_colors_ok(final(self)),
    {
        let ghost m0 = *old(self);
        let ghost mut acc: Seq<PixelOutcome> = Seq::empty();
        let mut k: usize = 0;
        while k < coordinates.len()
            invariant
                self.wf(),
                self.same_setup(old(self)),
                m0 == *old(self),
                k <= coordinates@.len(),
                forall|x: int, y: int|
                    cell_in(&m0, x, y) ==> generation_pixel(
                        &m0,
                        fractal,
                        coordinates@,
                        k as int,
                        #[trigger] self.pixel(x, y),
                        x,
                        y,
                    ),
                pass_outcomes_ok(&m0, fractal, coordinates@, k as int, acc),
                self.data_image.pixels@.len() == m0.data_image.pixels@.len(),
                forall|i: int|
                    0 <= i < m0.data_image.pixels@.len() ==> (#[trigger] self.data_image.pixels@[i]).value
                        == add_visits_nat(m0.data_image.pixels@[i].value as int, outcomes_hits(acc, m0.area, i)),
                forall|k: int| 0 <= k < coordinates@.len() ==> (#[trigger] coordinates@[k]).0 < CHUNKS && coordinates@[k].1 < CHUNKS,
            decreases coordinates@.len() - k,
        {
            let ghost before = *self;
            self.chunk_calculation(coordinates[k], fractal);
            proof {
                let cs = coordinates@;
                let w = m0.width as int;
                let xy = cs[k as int];
                let o2 = choose|outs: Seq<PixelOutcome>|
                    chunk_outcomes_ok(&before, fractal, xy, outs) && forall|i: int|
                        0 <= i < before.data_image.pixels@.len() ==> applied(
                            #[trigger] self.data_image.pixels@[i],
                            before.data_image.pixels@[i],
                            outs,
                            before.width as int,
                            before.area,
                            i,
                        );
                let rect = chunk_boundaries_spec(m0.width as int, m0.height as int, xy.0 as int, xy.1 as int);
                assert forall|x: int, y: int| cell_in(&m0, x, y) implies generation_pixel(
                    &m0,
                    fractal,
                    cs,
                    k + 1,
                    #[trigger] self.pixel(x, y),
                    x,
                    y,
                ) by {
                    assert(generation_pixel(&m0, fractal, cs, k as int, before.pixel(x, y), x, y));
                    assert(chunk_pixel_after(&before, fractal, xy, self.pixel(x, y), x, y));
                    if in_rect(rect, x, y) {
                        assert(in_chunks(&m0, cs, k + 1, x, y));
                    } else {
                        if in_chunks(&m0, cs, k + 1, x, y) {
                            let j = choose|j: int| 0 <= j < k + 1 && in_rect(
                                #[trigger] chunk_boundaries_spec(m0.width as int, m0.height as int, cs[j].0 as int, cs[j].1 as int),
                                x,
                                y,
                            );
                            assert(j != k);
                            assert(in_chunks(&m0, cs, k as int, x, y));
                        }
                        if in_chunks(&m0, cs, k as int, x, y) {
                            let j = choose|j: int| 0 <= j < k && in_rect(
                                #[trigger] chunk_boundaries_spec(m0.width as int, m0.height as int, cs[j].0 as int, cs[j].1 as int),
                                x,
                                y,
                            );
                            assert(in_chunks(&m0, cs, k + 1, x, y));
                        }
                    }
                }
                let na = acc + o2;
                // outcomes of this chunk are outcomes on the machine of the generation's start
                assert forall|l: int| 0 <= l < o2.len() implies outcome_ok(&m0, fractal, #[trigger] o2[l]) && in_chunks(
                    &m0,
                    cs,
                    k + 1,
                    o2[l].x as int,
                    o2[l].y as int,
                ) by {
                    let o = o2[l];
                    assert(outcome_ok(&before, fractal, o));
                    assert(in_rect(rect, o.x as int, o.y as int));
                    assert(generation_pixel(&m0, fractal, cs, k as int, before.pixel(o.x as int, o.y as int), o.x as int, o.y as int));
                    assert(in_rect(chunk_boundaries_spec(m0.width as int, m0.height as int, cs[k as int].0 as int, cs[k as int].1 as int), o.x as int, o.y as int));
                }
                assert forall|j: int| 0 <= j < na.len() implies outcome_ok(&m0, fractal, #[trigger] na[j]) && in_chunks(
                    &m0,
                    cs,
                    k + 1,
                    na[j].x as int,
                    na[j].y as int,
                ) by {
                    if j < acc.len() {
                        assert(na[j] == acc[j]);
                        assert(outcome_ok(&m0, fractal, acc[j]) && in_chunks(&m0, cs, k as int, acc[j].x as int, acc[j].y as int));
                        let jj = choose|jj: int| 0 <= jj < k && in_rect(
                            #[trigger] chunk_boundaries_spec(m0.width as int, m0.height as int, cs[jj].0 as int, cs[jj].1 as int),
                            acc[j].x as int,
                            acc[j].y as int,
                        );
                    } else {
                        assert(na[j] == o2[j - acc.len()]);
                    }
                }
                assert forall|j: int, l: int| 0 <= j < l < na.len() implies (#[trigger] na[j].x, na[j].y) != (
                    #[trigger] na[l].x,
                    na[l].y,
                ) by {
                    if l < acc.len() {
                        assert(na[j] == acc[j] && na[l] == acc[l]);
                    } else if j >= acc.len() {
                        assert(na[j] == o2[j - acc.len()] && na[l] == o2[l - acc.len()]);
                    } else {
                        let a = acc[j];
                        let o = o2[l - acc.len()];
                        assert(na[j] == a && na[l] == o);
                        assert(outcome_ok(&m0, fractal, a) && in_chunks(&m0, cs, k as int, a.x as int, a.y as int));
                        assert(outcome_ok(&before, fractal, o));
                        assert(generation_pixel(&m0, fractal, cs, k as int, before.pixel(a.x as int, a.y as int), a.x as int, a.y as int));
                    }
                }
                assert forall|x: int, y: int|
                    cell_in(&m0, x, y) && m0.pixel(x, y).state == DomainElementState::ActiveNew && in_chunks(
                        &m0,
                        cs,
                        k + 1,
                        x,
                        y,
                    ) implies exists|j: int| 0 <= j < na.len() && (#[trigger] na[j]).x == x && na[j].y == y by {
                    if in_chunks(&m0, cs, k as int, x, y) {
                        let j = choose|j: int| 0 <= j < acc.len() && (#[trigger] acc[j]).x == x && acc[j].y == y;
                        assert(na[j] == acc[j]);
                    } else {
                        let jj = choose|jj: int| 0 <= jj < k + 1 && in_rect(
                            #[trigger] chunk_boundaries_spec(m0.width as int, m0.height as int, cs[jj].0 as int, cs[jj].1 as int),
                            x,
                            y,
                        );
                        if jj < k {
                            assert(in_chunks(&m0, cs, k as int, x, y));
                        }
                        assert(generation_pixel(&m0, fractal, cs, k as int, before.pixel(x, y), x, y));
                        assert(before.pixel(x, y).state == DomainElementState::ActiveNew);
                        let l = choose|l: int| 0 <= l < o2.len() && (#[trigger] o2[l]).x == x && o2[l].y == y;
                        assert(na[acc.len() + l] == o2[l]);
                    }
                }
                assert forall|i: int| 0 <= i < m0.data_image.pixels@.len() implies (#[trigger] self.data_image.pixels@[i]).value
                    == add_visits_nat(m0.data_image.pixels@[i].value as int, outcomes_hits(na, m0.area, i)) by {
                    assert(applied(self.data_image.pixels@[i], before.data_image.pixels@[i], o2, before.width as int, before.area, i));
                    lemma_outcomes_hits_concat(acc, o2, m0.area, i);
                    lemma_add_visits_twice(
                        m0.data_image.pixels@[i].value as int,
                        outcomes_hits(acc, m0.area, i) as int,
                        outcomes_hits(o2, m0.area, i) as int,
                    );
                }
                acc = na;
            }
            k += 1;
        }
        let ghost mid = *self;
        if !matches!(self.resolution_multiplier, ResolutionMultiplier::Single) {
            // previous calculation completed, calculate more elements
            let mut k: usize = 0;
            while k < coordinates.len()
                invariant
                    self.wf(),
                    self.same_setup(old(self)),
                    m0 == *old(self),
                    mid.wf(),
                    same_but_values(self, &mid),
                    self.resolution_multiplier != ResolutionMultiplier::Single,
                    k <= coordinates@.len(),
                    forall|x: int, y: int|
                        cell_in(&m0, x, y) ==> generation_pixel(
                            &m0,
                            fractal,
                            coordinates@,
                            coordinates@.len() as int,
                            #[trigger] self.pixel(x, y),
                            x,
                            y,
                        ),
                    forall|i: int|
                        0 <= i < mid.data_image.pixels@.len() ==> (#[trigger] self.data_image.pixels@[i]).value
                            == add_visits_nat(
                            mid.data_image.pixels@[i].value as int,
                            wrap_pass_hits(&mid, fractal, coordinates@, k as int, i),
                        ),
                    forall|k: int| 0 <= k < coordinates@.len() ==> (#[trigger] coordinates@[k]).0 < CHUNKS && coordinates@[k].1 < CHUNKS,
                decreases coordinates@.len() - k,
            {
                let ghost before = *self;
                self.chunk_calculation_with_wrap(coordinates[k], fractal);
                proof {
                    let xy = coordinates@[k as int];
                    let c = chunk_boundaries_spec(before.width as int, before.height as int, xy.0 as int, xy.1 as int);
                    lemma_split_monotone(before.width as int, xy.0 + 1, CHUNKS as int);
                    lemma_split_monotone(before.height as int, xy.1 + 1, CHUNKS as int);
                    lemma_split_monotone(before.width as int, 0, xy.0 as int);
                    lemma_split_monotone(before.height as int, 0, xy.1 as int);
                    assert(20 * before.width / 20 == before.width && 20 * before.height / 20 == before.height);
                    assert forall|i: int| 0 <= i < mid.data_image.pixels@.len() implies (
                    #[trigger] self.data_image.pixels@[i]).value == add_visits_nat(
                        mid.data_image.pixels@[i].value as int,
                        wrap_pass_hits(&mid, fractal, coordinates@, k + 1, i),
                    ) by {
                        lemma_frame_chunk(&before, &mid, fractal, c, c.1, i);
                        assert(same_but_value(self.data_image.pixels@[i], before.data_image.pixels@[i]));
                        lemma_add_visits_twice(
                            mid.data_image.pixels@[i].value as int,
                            wrap_pass_hits(&mid, fractal, coordinates@, k as int, i) as int,
                            chunk_wrap_hits(&mid, fractal, c, c.1, i) as int,
                        );
                    }
                    assert forall|i: int| 0 <= i < self.data_image.pixels@.len() implies same_origin_state(
                        #[trigger] self.data_image.pixels@[i],
                        mid.data_image.pixels@[i],
                    ) by {
                        assert(same_but_value(self.data_image.pixels@[i], before.data_image.pixels@[i]));
                        assert(same_origin_state(before.data_image.pixels@[i], mid.data_image.pixels@[i]));
                    }
                    assert forall|x: int, y: int| cell_in(&m0, x, y) implies generation_pixel(
                        &m0,
                        fractal,
                        coordinates@,
                        coordinates@.len() as int,
                        #[trigger] self.pixel(x, y),
                        x,
                        y,
                    ) by {
                        let i = y * self.width + x;
                        lemma_grid_index(self.width as int, self.height as int, x, y);
                        assert(same_but_value(self.data_image.pixels@[i], before.data_image.pixels@[i]));
                        assert(generation_pixel(&m0, fractal, coordinates@, coordinates@.len() as int, before.pixel(x, y), x, y));
                    }
                }
                k += 1;
            }
        }
        let ghost before = *self;
        self.perfectly_colour_nebula_values();
        proof {
            assert forall|i: int| 0 <= i < self.data_image.pixels@.len() implies same_origin_state(
                #[trigger] self.data_image.pixels@[i],
                mid.data_image.pixels@[i],
            ) by {
                assert(self.data_image.pixels@[i] == (Pixel { colour: self.data_image.pixels@[i].colour, ..before.data_image.pixels@[i] }));
                if self.resolution_multiplier == ResolutionMultiplier::Single {
                    assert(before == mid);
                } else {
                    assert(same_origin_state(before.data_image.pixels@[i], mid.data_image.pixels@[i]));
                }
            }
            assert forall|x: int, y: int| cell_in(&m0, x, y) implies generation_pixel(
                &m0,
                fractal,
                coordinates@,
                coordinates@.len() as int,
                #[trigger] self.pixel(x, y),
                x,
                y,
            ) by {
                let i = y * self.width + x;
                lemma_grid_index(self.width as int, self.height as int, x, y);
                assert(self.data_image.pixels@[i] == (Pixel { colour: self.data_image.pixels@[i].colour, ..before.data_image.pixels@[i] }));
                assert(generation_pixel(&m0, fractal, coordinates@, coordinates@.len() as int, before.pixel(x, y), x, y));
            }
            if all_chunks(coordinates@) {
                lemma_all_chunks_finish(&m0, fractal, coordinates@, *self);
            }
            let n = coordinates@.len() as int;
            assert forall|i: int| 0 <= i < m0.data_image.pixels@.len() implies (#[trigger] self.data_image.pixels@[i]).value
                == add_visits_nat(
                m0.data_image.pixels@[i].value as int,
                outcomes_hits(acc, m0.area, i) + if m0.resolution_multiplier != ResolutionMultiplier::Single {
                    wrap_pass_hits(self, fractal, coordinates@, n, i)
                } else {
                    0
                },
            ) by {
                assert(self.data_image.pixels@[i] == (Pixel { colour: self.data_image.pixels@[i].colour, ..before.data_image.pixels@[i] }));
                if m0.resolution_multiplier != ResolutionMultiplier::Single {
                    lemma_frame_wrap_pass(self, &mid, fractal, coordinates@, n, i);
                    lemma_add_visits_twice(
                        m0.data_image.pixels@[i].value as int,
                        outcomes_hits(acc, m0.area, i) as int,
                        wrap_pass_hits(&mid, fractal, coordinates@, n, i) as int,
                    );
                } else {
                    assert(before == mid);
                }
            }
        }
    }

    /// One calculation generation of a Mandelbrot-like fractal: every chunk
    /// of `coordinates`, in order; then the colouring.
    pub fn calculate_mandelbrot<F: FractalMath>(&mut self, fractal: &F, coordinates: &Vec<(usize, usize)>)
        requires
            old(self).wf(),
            forall|k: int| 0 <= k < coordinates@.len() ==> (#[trigger] coordinates@[k]).0 < CHUNKS && coordinates@[k].1 < CHUNKS,
        ensures
            final(self).wf(),
            final(self).same_setup(old(self)),
            forall|x: int, y: int|
                cell_in(old(self), x, y) ==> #[trigger] final(self).pixel(x, y) == (Pixel {
                    colour: final(self).pixel(x, y).colour,
                    ..mandelbrot_generation_pixel(old(self), fractal, coordinates@, coordinates@.len() as int, x, y)
                }),
            all_chunks(coordinates@) ==> forall|x: int, y: int|
                cell_in(old(self), x, y) ==> (#[trigger] final(self).pixel(x, y)).state
                    != DomainElementState::ActiveNew,
            mandelbrot_colors_ok(final(self)),
    {
        let ghost m0 = *old(self);
        let mut k: usize = 0;
        while k < coordinates.len()
            invariant
                self.wf(),
                self.same_setup(old(self)),
                m0 == *old(self),
                k <= coordinates@.len(),
                forall|x: int, y: int|
                    cell_in(&m0, x, y) ==> #[trigger] self.pixel(x, y) == mandelbrot_generation_pixel(
                        &m0,
                        fractal,
                        coordinates@,
                        k as int,
                        x,
                        y,
                    ),
                forall|k: int| 0 <= k < coordinates@.len() ==> (#[trigger] coordinates@[k]).0 < CHUNKS && coordinates@[k].1 < CHUNKS,
            decreases coordinates@.len() - k,
        {
            let ghost before = *self;
            self.chunk_calculation_mandelbrot(fractal, coordinates[k]);
            proof {
                let cs = coordinates@;
                assert forall|x: int, y: int| cell_in(&m0, x, y) implies #[trigger] self.pixel(x, y)
                    == mandelbrot_generation_pixel(&m0, fractal, cs, k + 1, x, y) by {
                    assert(before.pixel(x, y) == mandelbrot_generation_pixel(&m0, fractal, cs, k as int, x, y));
                    let r = chunk_boundaries_spec(m0.width as int, m0.height as int, cs[k as int].0 as int, cs[k as int].1 as int);
                    if in_rect(r, x, y) {
                        assert(in_chunks(&m0, cs, k + 1, x, y));
                    } else {
                        if in_chunks(&m0, cs, k + 1, x, y) {
                            let j = choose|j: int| 0 <= j < k + 1 && in_rect(
                                #[trigger] chunk_boundaries_spec(m0.width as int, m0.height as int, cs[j].0 as int, cs[j].1 as int),
                                x,
                                y,
                            );
                            assert(j != k);
                            assert(in_chunks(&m0, cs, k as int, x, y));
                        }
                        if in_chunks(&m0, cs, k as int, x, y) {
                            let j = choose|j: int| 0 <= j < k && in_rect(
                                #[trigger] chunk_boundaries_spec(m0.width as int, m0.height as int, cs[j].0 as int, cs[j].1 as int),
                                x,
                                y,
                            );
                            assert(in_chunks(&m0, cs, k + 1, x, y));
                        }
                    }
                }
            }
            k += 1;
        }
        let ghost before = *self;
        self.perfectly_colour_mandelbrot_values();
        proof {
            assert forall|x: int, y: int| cell_in(&m0, x, y) implies #[trigger] self.pixel(x, y) == (Pixel {
                colour: self.pixel(x, y).colour,
                ..mandelbrot_generation_pixel(&m0, fractal, coordinates@, coordinates@.len() as int, x, y)
            }) by {
                let i = y * self.width + x;
                lemma_grid_index(self.width as int, self.height as int, x, y);
                assert(self.data_image.pixels@[i] == (Pixel { colour: self.data_image.pixels@[i].colour, ..before.data_image.pixels@[i] }));
                assert(before.pixel(x, y) == mandelbrot_generation_pixel(&m0, fractal, coordinates@, coordinates@.len() as int, x, y));
            }
            if all_chunks(coordinates@) {
                assert forall|x: int, y: int| cell_in(&m0, x, y) implies (#[trigger] self.pixel(x, y)).state
                    != DomainElementState::ActiveNew by {
                    lemma_chunks_partition(m0.width as int, m0.height as int, x, y);
                    let (cx, cy) = choose|cx: int, cy: int|
                        0 <= cx < CHUNKS && 0 <= cy < CHUNKS && in_rect(
                            #[trigger] chunk_boundaries_spec(m0.width as int, m0.height as int, cx, cy),
                            x,
                            y,
                        );
                    assert(coordinates@.contains((cx as usize, cy as usize)));
                    let j = choose|j: int| 0 <= j < coordinates@.len() && coordinates@[j] == (cx as usize, cy as usize);
                    assert(in_chunks(&m0, coordinates@, coordinates@.len() as int, x, y));
                }
            }
        }
    }
}

/// Pixel `p` is pixel `(x, y)` of `m` after chunk `xy` is calculated: its
/// origin stays; inside the chunk a fresh pixel takes its final state and
/// any other keeps its state; outside the chunk the state stays.
pub open spec fn chunk_pixel_after<F: FractalMath>(
    m: &Machine,
    fractal: &F,
    xy: (usize, usize),
    p: Pixel,
    x: int,
    y: int,
) -> bool {
    let q = m.pixel(x, y);
    &&& p.origin_re == q.origin_re
    &&& p.origin_im == q.origin_im
    &&& p.state == if in_rect(
        chunk_boundaries_spec(m.width as int, m.height as int, xy.0 as int, xy.1 as int),
        x,
        y,
    ) && q.state == DomainElementState::ActiveNew {
        pixel_final_state(m, fractal, x, y)
    } else {
        q.state
    }
}

/// Whether `(x, y)` lies in one of the chunks `coordinates[0..k]`.
pub open spec fn in_chunks(m: &Machine, coordinates: Seq<(usize, usize)>, k: int, x: int, y: int) -> bool {
    exists|j: int|
        0 <= j < k && in_rect(
            #[trigger] chunk_boundaries_spec(m.width as int, m.height as int, coordinates[j].0 as int, coordinates[j].1 as int),
            x,
            y,
        )
}

/// Pixel `p` is pixel `(x, y)` of `m` after the chunks `coordinates[0..k]`
/// are calculated: its origin stays; a fresh pixel inside one of them takes
/// its final state; any other pixel keeps its state.
pub open spec fn generation_pixel<F: FractalMath>(
    m: &Machine,
    fractal: &F,
    coordinates: Seq<(usize, usize)>,
    k: int,
    p: Pixel,
    x: int,
    y: int,
) -> bool {
    let q = m.pixel(x, y);
    &&& p.origin_re == q.origin_re
    &&& p.origin_im == q.origin_im
    &&& p.state == if q.state == DomainElementState::ActiveNew && in_chunks(m, coordinates, k, x, y) {
        pixel_final_state(m, fractal, x, y)
    } else {
        q.state
    }
}

/// Pixel `q` after its own Mandelbrot calculation: its steps as value, the
/// final squared magnitude as quad, and escaping before the cap as success.
pub open spec fn mandelbrot_result<F: FractalMath>(m: &Machine, fractal: &F, q: Pixel) -> Pixel {
    let it = iteration_count(fractal, q.origin_re, q.origin_im, m.max as nat);
    Pixel {
        value: it as u32,
        quad: clamp_quad(quad_spec(crate::fractal::orbit(fractal, q.origin_re, q.origin_im, it))),
        state: state_from_path_length_spec(OrbitType::Finite, it as u32, it as u32, 0, m.max),
        ..q
    }
}

/// Pixel `(x, y)` of `m` after the Mandelbrot chunks `coordinates[0..k]`.
pub open spec fn mandelbrot_generation_pixel<F: FractalMath>(
    m: &Machine,
    fractal: &F,
    coordinates: Seq<(usize, usize)>,
    k: int,
    x: int,
    y: int,
) -> Pixel {
    let q = m.pixel(x, y);
    if q.state == DomainElementState::ActiveNew && in_chunks(m, coordinates, k, x, y) {
        mandelbrot_result(m, fractal, q)
    } else {
        q
    }
}

/// Whether `coordinates` lists every one of the 20 by 20 chunks.
pub open spec fn all_chunks(coordinates: Seq<(usize, usize)>) -> bool {
    forall|cx: usize, cy: usize| cx < CHUNKS && cy < CHUNKS ==> #[trigger] coordinates.contains((cx, cy))
}

proof fn lemma_all_chunks_finish<F: FractalMath>(m: &Machine, fractal: &F, coordinates: Seq<(usize, usize)>, f: Machine)
    requires
        all_chunks(coordinates),
        forall|x: int, y: int|
            cell_in(m, x, y) ==> generation_pixel(
                m,
                fractal,
                coordinates,
                coordinates.len() as int,
                #[trigger] f.pixel(x, y),
                x,
                y,
            ),
    ensures
        forall|x: int, y: int| cell_in(m, x, y) ==> (#[trigger] f.pixel(x, y)).state != DomainElementState::ActiveNew,
{
    assert forall|x: int, y: int| cell_in(m, x, y) implies (#[trigger] f.pixel(x, y)).state
        != DomainElementState::ActiveNew by {
        assert(generation_pixel(m, fractal, coordinates, coordinates.len() as int, f.pixel(x, y), x, y));
        lemma_chunks_partition(m.width as int, m.height as int, x, y);
        let (cx, cy) = choose|cx: int, cy: int|
            0 <= cx < CHUNKS && 0 <= cy < CHUNKS && in_rect(
                #[trigger] chunk_boundaries_spec(m.width as int, m.height as int, cx, cy),
                x,
                y,
            );
        assert(coordinates.contains((cx as usize, cy as usize)));
        let j = choose|j: int| 0 <= j < coordinates.len() && coordinates[j] == (cx as usize, cy as usize);
        assert(in_chunks(m, coordinates, coordinates.len() as int, x, y));
    }
}

/// Whether two pixels have the same origin and state.
pub open spec fn same_origin_state(a: Pixel, b: Pixel) -> bool {
    a.origin_re == b.origin_re && a.origin_im == b.origin_im && a.state == b.state
}

/// Whether `m1` and `m2` have the same setup, and pixels of the same
/// origins and states.
pub open spec fn same_but_values(m1: &Machine, m2: &Machine) -> bool {
    &&& m1.same_setup(m2)
    &&& m1.data_image.pixels@.len() == m2.data_image.pixels@.len()
    &&& forall|i: int|
        0 <= i < m1.data_image.pixels@.len() ==> same_origin_state(
            #[trigger] m1.data_image.pixels@[i],
            m2.data_image.pixels@[i],
        )
}

proof fn lemma_frame_pixel(m1: &Machine, m2: &Machine, x: int, y: int)
    requires
        m1.wf(),
        same_but_values(m1, m2),
        cell_in(m1, x, y),
    ensures
        same_origin_state(m1.pixel(x, y), m2.pixel(x, y)),
{
    lemma_grid_index(m1.width as int, m1.height as int, x, y);
    assert(same_origin_state(m1.data_image.pixels@[y * m1.width + x], m2.data_image.pixels@[y * m1.width + x]));
}

proof fn lemma_frame_row<F: FractalMath>(m1: &Machine, m2: &Machine, fractal: &F, x: int, y: int, i: int, jn: nat, k: int)
    requires
        m1.wf(),
        same_but_values(m1, m2),
        cell_in(m1, x, y),
    ensures
        row_of_subs_hits(m1, fractal, x, y, i, jn, k) == row_of_subs_hits(m2, fractal, x, y, i, jn, k),
    decreases jn,
{
    lemma_frame_pixel(m1, m2, x, y);
    if jn > 0 {
        lemma_frame_row(m1, m2, fractal, x, y, i, (jn - 1) as nat, k);
    }
}

proof fn lemma_frame_pixel_hits<F: FractalMath>(m1: &Machine, m2: &Machine, fractal: &F, x: int, y: int, i_n: nat, k: int)
    requires
        m1.wf(),
        same_but_values(m1, m2),
        cell_in(m1, x, y),
    ensures
        pixel_wrap_hits(m1, fractal, x, y, i_n, k) == pixel_wrap_hits(m2, fractal, x, y, i_n, k),
    decreases i_n,
{
    if i_n > 0 {
        lemma_frame_pixel_hits(m1, m2, fractal, x, y, (i_n - 1) as nat, k);
        lemma_frame_row(
            m1,
            m2,
            fractal,
            x,
            y,
            i_n - 1,
            multiplier_spec(m1.resolution_multiplier) as nat,
            k,
        );
    }
}

proof fn lemma_frame_column<F: FractalMath>(m1: &Machine, m2: &Machine, fractal: &F, x: int, y_from: int, y_end: int, k: int)
    requires
        m1.wf(),
        same_but_values(m1, m2),
        0 <= x < m1.width,
        0 <= y_from,
        y_end <= m1.height,
    ensures
        column_wrap_hits(m1, fractal, x, y_from, y_end, k) == column_wrap_hits(m2, fractal, x, y_from, y_end, k),
    decreases y_end - y_from,
{
    if y_end > y_from {
        lemma_frame_column(m1, m2, fractal, x, y_from, y_end - 1, k);
        lemma_frame_pixel_hits(
            m1,
            m2,
            fractal,
            x,
            y_end - 1,
            multiplier_spec(m1.resolution_multiplier) as nat,
            k,
        );
        lemma_same_states_horizon(m1, m2, x, y_end - 1, m2.data_image.pixels@);
    }
}

/// The visits of the wrap pass do not depend on the values of the field.
proof fn lemma_frame_chunk<F: FractalMath>(m1: &Machine, m2: &Machine, fractal: &F, c: (int, int, int, int), x_end: int, k: int)
    requires
        m1.wf(),
        same_but_values(m1, m2),
        0 <= c.0,
        x_end <= m1.width,
        0 <= c.2,
        c.3 <= m1.height,
    ensures
        chunk_wrap_hits(m1, fractal, c, x_end, k) == chunk_wrap_hits(m2, fractal, c, x_end, k),
    decreases x_end - c.0,
{
    if x_end > c.0 {
        lemma_frame_chunk(m1, m2, fractal, c, x_end - 1, k);
        lemma_frame_column(m1, m2, fractal, x_end - 1, c.2, c.3, k);
    }
}

/// Visits that the wrap pass over the chunks `coordinates[0..n]` adds to
/// pixel `k`.
pub open spec fn wrap_pass_hits<F: FractalMath>(m: &Machine, fractal: &F, coordinates: Seq<(usize, usize)>, n: int, k: int) -> nat
    decreases n,
{
    if n <= 0 {
        0
    } else {
        let c = chunk_boundaries_spec(m.width as int, m.height as int, coordinates[n - 1].0 as int, coordinates[n - 1].1 as int);
        wrap_pass_hits(m, fractal, coordinates, n - 1, k) + chunk_wrap_hits(m, fractal, c, c.1, k)
    }
}

proof fn lemma_frame_wrap_pass<F: FractalMath>(
    m1: &Machine,
    m2: &Machine,
    fractal: &F,
    coordinates: Seq<(usize, usize)>,
    n: int,
    k: int,
)
    requires
        m1.wf(),
        same_but_values(m1, m2),
        n <= coordinates.len(),
        forall|j: int| 0 <= j < coordinates.len() ==> (#[trigger] coordinates[j]).0 < CHUNKS && coordinates[j].1 < CHUNKS,
    ensures
        wrap_pass_hits(m1, fractal, coordinates, n, k) == wrap_pass_hits(m2, fractal, coordinates, n, k),
    decreases n,
{
    if n > 0 {
        lemma_frame_wrap_pass(m1, m2, fractal, coordinates, n - 1, k);
        let xy = coordinates[n - 1];
        let c = chunk_boundaries_spec(m1.width as int, m1.height as int, xy.0 as int, xy.1 as int);
        lemma_split_monotone(m1.width as int, xy.0 + 1, CHUNKS as int);
        lemma_split_monotone(m1.height as int, xy.1 + 1, CHUNKS as int);
        lemma_split_monotone(m1.width as int, 0, xy.0 as int);
        lemma_split_monotone(m1.height as int, 0, xy.1 as int);
        assert(20 * m1.width / 20 == m1.width && 20 * m1.height / 20 == m1.height);
        lemma_frame_chunk(m1, m2, fractal, c, c.1, k);
    }
}

proof fn lemma_outcomes_hits_concat(a: Seq<PixelOutcome>, b: Seq<PixelOutcome>, area: Area, i: int)
    ensures
        outcomes_hits(a + b, area, i) == outcomes_hits(a, area, i) + outcomes_hits(b, area, i),
    decreases b.len(),
{
    if b.len() > 0 {
        lemma_outcomes_hits_concat(a, b.drop_last(), area, i);
        assert((a + b).drop_last() == a + b.drop_last());
        assert((a + b).last() == b.last());
    } else {
        assert(a + b == a);
    }
}

/// Whether `outs` are the outcomes of the fresh pixels of `m` in the chunks
/// `coordinates[0..k]`, each such pixel once.
pub open spec fn pass_outcomes_ok<F: FractalMath>(
    m: &Machine,
    fractal: &F,
    coordinates: Seq<(usize, usize)>,
    k: int,
    outs: Seq<PixelOutcome>,
) -> bool {
    &&& forall|j: int|
        0 <= j < outs.len() ==> outcome_ok(m, fractal, #[trigger] outs[j]) && in_chunks(
            m,
            coordinates,
            k,
            outs[j].x as int,
            outs[j].y as int,
        )
    &&& forall|j: int, l: int|
        0 <= j < l < outs.len() ==> (#[trigger] outs[j].x, outs[j].y) != (#[trigger] outs[l].x, outs[l].y)
    &&& forall|x: int, y: int|
        cell_in(m, x, y) && m.pixel(x, y).state == DomainElementState::ActiveNew && in_chunks(
            m,
            coordinates,
            k,
            x,
            y,
        ) ==> exists|j: int| 0 <= j < outs.len() && (#[trigger] outs[j]).x == x && outs[j].y == y
}

/// Whether `(x, y)` is a pixel of `m`.
pub open spec fn cell_in(m: &Machine, x: int, y: int) -> bool {
    0 <= x < m.width && 0 <= y < m.height
}

proof fn lemma_index_eq(w: int, h: int, x1: int, y1: int, x2: int, y2: int)
    requires
        0 <= x1 < w,
        0 <= x2 < w,
        0 <= y1,
        0 <= y2,
        y1 * w + x1 == y2 * w + x2,
    ensures
        x1 == x2 && y1 == y2,
{
    assert(x1 == x2 && y1 == y2) by (nonlinear_arith)
        requires 0 <= x1 < w, 0 <= x2 < w, 0 <= y1, 0 <= y2, y1 * w + x1 == y2 * w + x2;
}

/// After `outs`, a pixel keeps its state where no outcome names it, and
/// takes the state of one of the outcomes that name it otherwise.
proof fn lemma_state_after(outs: Seq<PixelOutcome>, width: int, i: int, s: DomainElementState)
    ensures
        (forall|j: int| 0 <= j < outs.len() ==> outs[j].y * width + outs[j].x != i) ==> state_after(
            outs,
            width,
            i,
            s,
        ) == s,
        (exists|j: int| 0 <= j < outs.len() && outs[j].y * width + outs[j].x == i) ==> exists|j: int|
            0 <= j < outs.len() && outs[j].y * width + outs[j].x == i && state_after(outs, width, i, s)
                == outs[j].state,
    decreases outs.len(),
{
    if outs.len() > 0 {
        let pre = outs.drop_last();
        lemma_state_after(pre, width, i, s);
        let last = outs.len() - 1;
        if outs[last].y * width + outs[last].x == i {
        } else {
            if exists|j: int| 0 <= j < outs.len() && outs[j].y * width + outs[j].x == i {
                let j = choose|j: int| 0 <= j < outs.len() && outs[j].y * width + outs[j].x == i;
                assert(pre[j] == outs[j]);
                let j2 = choose|j2: int| 0 <= j2 < pre.len() && pre[j2].y * width + pre[j2].x == i && state_after(pre, width, i, s) == pre[j2].state;
                assert(outs[j2] == pre[j2]);
            }
            assert forall|j: int| 0 <= j < pre.len() implies pre[j] == outs[j] by {}
        }
    }
}

/// Pixel `p` is pixel `q` (index `i`) once `outs` are applied.
pub open spec fn applied(p: Pixel, q: Pixel, outs: Seq<PixelOutcome>, width: int, area: Area, i: int) -> bool {
    &&& p.origin_re == q.origin_re
    &&& p.origin_im == q.origin_im
    &&& p.quad == q.quad
    &&& p.colour == q.colour
    &&& p.state == state_after(outs, width, i, q.state)
    &&& p.value == add_visits(q.value as int, outcomes_hits(outs, area, i) as int)
}

} // verus!
