//! The pixel grid: one domain element per pixel, row by row.
use vstd::prelude::*;
use crate::area::{self, Area, MAX_SIDE};
use crate::mem::{Mem, SCALE};
use crate::pixel_states::DomainElementState;

verus! {

/// One domain element of the field.
#[derive(Clone, Copy, Debug, PartialEq, Eq, Structural)]
pub struct Pixel {
    /// The domain point this pixel stands for, fixed at creation.
    pub origin_re: i64,
    pub origin_im: i64,
    pub state: DomainElementState,
    /// Visits of good orbits (Nebula), or iterations (Mandelbrot).
    pub value: u32,
    /// Final squared magnitude of the pixel's own orbit (Mandelbrot).
    pub quad: u64,
    /// Colour index, once the field has been coloured.
    pub colour: Option<usize>,
}

/// A fresh pixel at `(re, im)`, eligible for calculation.
pub open spec fn active_new_spec(re: i64, im: i64) -> Pixel {
    Pixel { origin_re: re, origin_im: im, state: DomainElementState::ActiveNew, value: 0, quad: 0, colour: None }
}

/// A fresh pixel at `(re, im)` whose calculation is skipped.
pub open spec fn hibernated_deep_black_spec(re: i64, im: i64) -> Pixel {
    Pixel {
        origin_re: re,
        origin_im: im,
        state: DomainElementState::HibernatedDeepBlack,
        value: 0,
        quad: 0,
        colour: None,
    }
}

pub fn active_new(re: i64, im: i64) -> (r: Pixel)
    ensures
        r == active_new_spec(re, im),
{
    Pixel { origin_re: re, origin_im: im, state: DomainElementState::ActiveNew, value: 0, quad: 0, colour: None }
}

pub fn hibernated_deep_black(re: i64, im: i64) -> (r: Pixel)
    ensures
        r == hibernated_deep_black_spec(re, im),
{
    Pixel {
        origin_re: re,
        origin_im: im,
        state: DomainElementState::HibernatedDeepBlack,
        value: 0,
        quad: 0,
        colour: None,
    }
}

/// Bound on the coordinates of every origin of a grid.
pub open spec fn origin_ok(p: Pixel) -> bool {
    -48 * SCALE <= p.origin_re <= 48 * SCALE && -48 * SCALE <= p.origin_im <= 48 * SCALE
}

/// The field: `width * height` pixels, row by row.
pub struct DataImage {
    pub width: usize,
    pub height: usize,
    pub pixels: Vec<Pixel>,
}

/// Value after `n` more visits, saturating at `u32::MAX`.
pub open spec fn add_visits(v: int, n: int) -> int {
    if v + n > u32::MAX {
        u32::MAX as int
    } else {
        v + n
    }
}

/// Number of points of `path` that fall on pixel `i` of `area`.
pub open spec fn path_hits(path: Seq<Mem>, area: Area, i: int) -> nat
    decreases path.len(),
{
    if path.len() == 0 {
        0
    } else {
        let p = path.last();
        let here = area.contains_spec(p.re as int, p.im as int) && {
            let px = area.point_to_pixel_spec(p.re as int, p.im as int);
            px.1 * area.width_x + px.0 == i
        };
        path_hits(path.drop_last(), area, i) + if here {
            1nat
        } else {
            0nat
        }
    }
}

/// `n` more visits after `a` more visits are `a + n` more visits.
pub proof fn lemma_add_visits_twice(v: int, a: int, b: int)
    requires
        0 <= v <= u32::MAX,
        0 <= a,
        0 <= b,
    ensures
        add_visits(add_visits(v, a), b) == add_visits(v, a + b),
{
}

/// Whether two pixels differ at most in value.
pub open spec fn same_but_value(a: Pixel, b: Pixel) -> bool {
    a.origin_re == b.origin_re && a.origin_im == b.origin_im && a.state == b.state && a.quad == b.quad
        && a.colour == b.colour
}

/// The values of the pixels.
pub open spec fn values_of(pixels: Seq<Pixel>) -> Seq<u32> {
    pixels.map_values(|p: Pixel| p.value)
}

impl DataImage {
    pub open spec fn wf(&self) -> bool {
        &&& 0 < self.width <= MAX_SIDE
        &&& 0 < self.height <= MAX_SIDE
        &&& self.pixels@.len() == self.width * self.height
        &&& forall|i: int| 0 <= i < self.pixels@.len() ==> origin_ok(#[trigger] self.pixels@[i])
    }

    /// Whether the grid has the dimensions of `area`.
    pub open spec fn fits(&self, area: Area) -> bool {
        self.width == area.width_x && self.height == area.height_y
    }

    pub open spec fn index(&self, x: int, y: int) -> int {
        y * self.width + x
    }

    pub open spec fn at(&self, x: int, y: int) -> Pixel {
        self.pixels@[self.index(x, y)]
    }
}

pub proof fn lemma_grid_index(width: int, height: int, x: int, y: int)
    requires
        0 <= x < width,
        0 <= y < height,
    ensures
        0 <= y * width + x < width * height,
{
    assert(0 <= y * width + x < width * height) by (nonlinear_arith)
        requires 0 <= x < width, 0 <= y < height;
}

/// A grid over `area`: every pixel fresh, at the corner of its cell.
pub fn init(area: &Area) -> (r: DataImage)
    requires
        area.wf(),
    ensures
        r.wf(),
        r.fits(*area),
        forall|x: int, y: int|
            0 <= x < area.width_x && 0 <= y < area.height_y ==> #[trigger] r.at(x, y) == active_new_spec(
                area.pixel_to_domain_spec(x, y).0 as i64,
                area.pixel_to_domain_spec(x, y).1 as i64,
            ),
{
    let width = area.width_x;
    let height = area.height_y;
    let mut pixels: Vec<Pixel> = Vec::new();
    let mut y: usize = 0;
    while y < height
        invariant
            area.wf(),
            width == area.width_x,
            height == area.height_y,
            y <= height,
            pixels@.len() == y * width,
            forall|i: int| 0 <= i < pixels@.len() ==> origin_ok(#[trigger] pixels@[i]),
            forall|x2: int, y2: int|
                0 <= x2 < width && 0 <= y2 < y ==> #[trigger] pixels@[y2 * width + x2] == active_new_spec(
                    area.pixel_to_domain_spec(x2, y2).0 as i64,
                    area.pixel_to_domain_spec(x2, y2).1 as i64,
                ),
        decreases height - y,
    {
        let mut x: usize = 0;
        while x < width
            invariant
                area.wf(),
                width == area.width_x,
                height == area.height_y,
                y < height,
                x <= width,
                pixels@.len() == y * width + x,
                forall|i: int| 0 <= i < pixels@.len() ==> origin_ok(#[trigger] pixels@[i]),
                forall|x2: int, y2: int|
                    0 <= x2 < width && 0 <= y2 && (y2 < y || (y2 == y && x2 < x)) ==> #[trigger] pixels@[y2
                        * width + x2] == active_new_spec(
                        area.pixel_to_domain_spec(x2, y2).0 as i64,
                        area.pixel_to_domain_spec(x2, y2).1 as i64,
                    ),
            decreases width - x,
        {
            let (re, im) = area.pixel_to_domain(x, y);
            let ghost before = pixels@;
            pixels.push(active_new(re, im));
            proof {
                assert forall|x2: int, y2: int|
                    0 <= x2 < width && 0 <= y2 && (y2 < y || (y2 == y && x2 < x + 1)) implies #[trigger] pixels@[y2
                    * width + x2] == active_new_spec(
                    area.pixel_to_domain_spec(x2, y2).0 as i64,
                    area.pixel_to_domain_spec(x2, y2).1 as i64,
                ) by {
                    if y2 < y || x2 < x {
                        assert(0 <= y2 * width + x2 < y * width + x) by (nonlinear_arith)
                            requires 0 <= x < width, 0 <= x2 < width, 0 <= y2, y2 < y || (y2 == y && x2 < x);
                        assert(pixels@[y2 * width + x2] == before[y2 * width + x2]);
                    }
                }
            }
            x += 1;
        }
        assert(pixels@.len() == (y + 1) * width) by (nonlinear_arith)
            requires pixels@.len() == y * width + width;
        y += 1;
    }
    assert(pixels@.len() == width * height) by (nonlinear_arith)
        requires pixels@.len() == y * width, y == height;
    DataImage { width, height, pixels }
}

/// A grid over the trivial area: 10 by 10 fresh pixels.
pub fn init_trivial() -> (r: DataImage)
    ensures
        r.wf(),
        r.width == 10 && r.height == 10,
        forall|i: int| 0 <= i < 100 ==> #[trigger] r.pixels@[i] == active_new_spec(0, 0),
{
    let a = area::init_trivial();
    let r = init(&a);
    proof {
        assert forall|i: int| 0 <= i < 100 implies #[trigger] r.pixels@[i] == active_new_spec(0, 0) by {
            assert((i / 10) * 10 + i % 10 == i && 0 <= i % 10 < 10 && 0 <= i / 10 < 10);
            assert(r.at(i % 10, i / 10) == r.pixels@[i]);
            assert(a.plank == 0);
            assert(a.pixel_to_domain_spec(i % 10, i / 10) == (0int, 0int));
        }
    }
    r
}

impl DataImage {
    /// State and origin of pixel `(x, y)`.
    pub fn state_origin_at(&self, x: usize, y: usize) -> (r: (DomainElementState, i64, i64))
        requires
            self.wf(),
            x < self.width,
            y < self.height,
        ensures
            r == (self.at(x as int, y as int).state, self.at(x as int, y as int).origin_re, self.at(
                x as int,
                y as int,
            ).origin_im),
    {
        let n = self.pixels.len();
        proof {
            lemma_grid_index(self.width as int, self.height as int, x as int, y as int);
        }
        let p = self.pixels[y * self.width + x];
        (p.state, p.origin_re, p.origin_im)
    }

    /// Value of pixel `(x, y)`.
    pub fn value_at(&self, x: usize, y: usize) -> (r: u32)
        requires
            self.wf(),
            x < self.width,
            y < self.height,
        ensures
            r == self.at(x as int, y as int).value,
    {
        let n = self.pixels.len();
        proof {
            lemma_grid_index(self.width as int, self.height as int, x as int, y as int);
        }
        self.pixels[y * self.width + x].value
    }

    /// Sets the state of pixel `(x, y)`; nothing else changes.
    pub fn set_pixel_state(&mut self, x: usize, y: usize, state: DomainElementState)
        requires
            old(self).wf(),
            x < old(self).width,
            y < old(self).height,
        ensures
            final(self).wf(),
            final(self).width == old(self).width,
            final(self).height == old(self).height,
            final(self).pixels@ == old(self).pixels@.update(
                old(self).index(x as int, y as int),
                Pixel { state, ..old(self).at(x as int, y as int) },
            ),
    {
        let n = self.pixels.len();
        proof {
            lemma_grid_index(self.width as int, self.height as int, x as int, y as int);
        }
        let i = y * self.width + x;
        let mut p = self.pixels[i];
        p.state = state;
        self.pixels.set(i, p);
    }

    /// Records the outcome of the Mandelbrot calculation of pixel `(x, y)`:
    /// its iterations, final squared magnitude and state.
    pub fn set_pixel_mandelbrot(&mut self, x: usize, y: usize, iterator: u32, quad: u64, state: DomainElementState)
        requires
            old(self).wf(),
            x < old(self).width,
            y < old(self).height,
        ensures
            final(self).wf(),
            final(self).width == old(self).width,
            final(self).height == old(self).height,
            final(self).pixels@ == old(self).pixels@.update(
                old(self).index(x as int, y as int),
                Pixel { state, value: iterator, quad, ..old(self).at(x as int, y as int) },
            ),
    {
        let n = self.pixels.len();
        proof {
            lemma_grid_index(self.width as int, self.height as int, x as int, y as int);
        }
        let i = y * self.width + x;
        let mut p = self.pixels[i];
        p.state = state;
        p.value = iterator;
        p.quad = quad;
        self.pixels.set(i, p);
    }

    /// Adds one visit to each pixel that a point of `path` falls on.
    pub fn translate_path_to_point_grid(&mut self, path: &Vec<Mem>, area: &Area)
        requires
            old(self).wf(),
            old(self).fits(*area),
            area.wf(),
        ensures
            final(self).wf(),
            final(self).width == old(self).width,
            final(self).height == old(self).height,
            forall|i: int|
                0 <= i < old(self).pixels@.len() ==> (#[trigger] final(self).pixels@[i]).value == add_visits(
                    old(self).pixels@[i].value as int,
                    path_hits(path@, *area, i) as int,
                ),
            forall|i: int|
                0 <= i < old(self).pixels@.len() ==> same_but_value(
                    #[trigger] final(self).pixels@[i],
                    old(self).pixels@[i],
                ),
    {
        let ghost start = self.pixels@;
        let mut k: usize = 0;
        while k < path.len()
            invariant
                self.wf(),
                self.fits(*area),
                area.wf(),
                self.pixels@.len() == start.len(),
                k <= path@.len(),
                forall|i: int|
                    0 <= i < start.len() ==> (#[trigger] self.pixels@[i]).value == add_visits(
                        start[i].value as int,
                        path_hits(path@.subrange(0, k as int), *area, i) as int,
                    ),
                forall|i: int|
                    0 <= i < start.len() ==> same_but_value(#[trigger] self.pixels@[i], start[i]),
            decreases path@.len() - k,
        {
            let p = path[k];
            let ghost before = self.pixels@;
            assert(path@.subrange(0, k + 1).drop_last() == path@.subrange(0, k as int));
            assert(path@.subrange(0, k + 1).last() == p);
            match area.pixel_of(p.re, p.im) {
                Some((px, py)) => {
                    let n = self.pixels.len();
                    proof {
                        lemma_grid_index(self.width as int, self.height as int, px as int, py as int);
                    }
                    let i = py * self.width + px;
                    let mut q = self.pixels[i];
                    if q.value < u32::MAX {
                        q.value = q.value + 1;
                    }
                    self.pixels.set(i, q);
                },
                None => {},
            }
            k += 1;
        }
        assert(path@.subrange(0, path@.len() as int) == path@);
    }

    /// The values of all pixels, row by row.
    pub fn values(&self) -> (r: Vec<u32>)
        ensures
            r@ == values_of(self.pixels@),
    {
        let mut r: Vec<u32> = Vec::new();
        let mut i: usize = 0;
        while i < self.pixels.len()
            invariant
                i <= self.pixels@.len(),
                r@ == values_of(self.pixels@.subrange(0, i as int)),
            decreases self.pixels@.len() - i,
        {
            r.push(self.pixels[i].value);
            assert(values_of(self.pixels@.subrange(0, i + 1)) == values_of(self.pixels@.subrange(0, i as int)).push(
                self.pixels@[i as int].value,
            ));
            i += 1;
        }
        assert(self.pixels@.subrange(0, i as int) == self.pixels@);
        r
    }
}

/// The quads of the pixels.
pub open spec fn quads_of(pixels: Seq<Pixel>) -> Seq<u64> {
    pixels.map_values(|p: Pixel| p.quad)
}

/// The quids of the pixels: `u64::MAX - quad`, which orders as the inverse
/// of the quad does.
pub open spec fn quids_of(pixels: Seq<Pixel>) -> Seq<u64> {
    pixels.map_values(|p: Pixel| (u64::MAX - p.quad) as u64)
}

impl DataImage {
    /// The quads and the quids of all pixels, row by row.
    pub fn quads_quids(&self) -> (r: (Vec<u64>, Vec<u64>))
        ensures
            r.0@ == quads_of(self.pixels@),
            r.1@ == quids_of(self.pixels@),
    {
        let mut quads: Vec<u64> = Vec::new();
        let mut quids: Vec<u64> = Vec::new();
        let mut i: usize = 0;
        while i < self.pixels.len()
            invariant
                i <= self.pixels@.len(),
                quads@ == quads_of(self.pixels@.subrange(0, i as int)),
                quids@ == quids_of(self.pixels@.subrange(0, i as int)),
            decreases self.pixels@.len() - i,
        {
            let q = self.pixels[i].quad;
            quads.push(q);
            quids.push(u64::MAX - q);
            assert(quads_of(self.pixels@.subrange(0, i + 1)) == quads_of(self.pixels@.subrange(0, i as int)).push(q));
            assert(quids_of(self.pixels@.subrange(0, i + 1)) == quids_of(self.pixels@.subrange(0, i as int)).push(
                (u64::MAX - q) as u64,
            ));
            i += 1;
        }
        assert(self.pixels@.subrange(0, i as int) == self.pixels@);
        (quads, quids)
    }

    /// Gives pixel `i` the colour `colours[i]`; nothing else changes.
    pub fn set_colours(&mut self, colours: &Vec<usize>)
        requires
            old(self).wf(),
            colours@.len() == old(self).pixels@.len(),
        ensures
            final(self).wf(),
            final(self).width == old(self).width,
            final(self).height == old(self).height,
            final(self).pixels@.len() == old(self).pixels@.len(),
            forall|i: int|
                0 <= i < old(self).pixels@.len() ==> #[trigger] final(self).pixels@[i] == (Pixel {
                    colour: Some(colours@[i]),
                    ..old(self).pixels@[i]
                }),
    {
        let ghost start = self.pixels@;
        let mut i: usize = 0;
        while i < self.pixels.len()
            invariant
                self.wf(),
                self.width == old(self).width,
                self.height == old(self).height,
                start == old(self).pixels@,
                self.pixels@.len() == start.len(),
                colours@.len() == start.len(),
                i <= start.len(),
                forall|j: int|
                    0 <= j < start.len() ==> #[trigger] self.pixels@[j] == if j < i {
                        Pixel { colour: Some(colours@[j]), ..start[j] }
                    } else {
                        start[j]
                    },
            decreases start.len() - i,
        {
            let mut p = self.pixels[i];
            p.colour = Some(colours[i]);
            self.pixels.set(i, p);
            i += 1;
        }
    }
}

} // verus!
