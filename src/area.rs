//! The window of the complex plane that the pixel grid shows.
use vstd::prelude::*;
use crate::mem::SCALE;

verus! {

/// Largest number of pixels along one side.
pub const MAX_SIDE: usize = 100_000;

/// Bound on the width and height of the window, in fixed-point units.
pub const MAX_WIDTH_RE: i64 = 16 * SCALE;

/// Bound on the coordinates of the window's centre.
pub const CENTER_BOUND: i64 = 32 * SCALE;

/// Each zoom-in multiplies the domain width by `ZOOM_NUMERATOR / ZOOM_DENOMINATOR`.
pub const ZOOM_NUMERATOR: i64 = 49;

pub const ZOOM_DENOMINATOR: i64 = 50;

/// A rectangle of the complex plane mapped onto a `width_x` by `height_y`
/// pixel grid, `plank` fixed-point units per pixel in both directions.
#[derive(Clone, Copy, Debug, PartialEq, Eq, Structural)]
pub struct Area {
    pub width_x: usize,
    pub height_y: usize,
    pub plank: i64,
    pub center_re: i64,
    pub center_im: i64,
}

impl Area {
    pub open spec fn wf(&self) -> bool {
        &&& 0 < self.width_x <= MAX_SIDE
        &&& 0 < self.height_y <= MAX_SIDE
        &&& 0 <= self.plank
        &&& self.plank * self.width_x <= MAX_WIDTH_RE
        &&& self.plank * self.height_y <= MAX_WIDTH_RE
        &&& -CENTER_BOUND <= self.center_re <= CENTER_BOUND
        &&& -CENTER_BOUND <= self.center_im <= CENTER_BOUND
    }

    /// Real part of the left edge.
    pub open spec fn left(&self) -> int {
        self.center_re - self.plank * (self.width_x / 2)
    }

    /// Imaginary part of the top edge.
    pub open spec fn top(&self) -> int {
        self.center_im - self.plank * (self.height_y / 2)
    }

    /// Domain point of the corner of pixel `(x, y)`.
    pub open spec fn pixel_to_domain_spec(&self, x: int, y: int) -> (int, int) {
        (self.left() + x * self.plank, self.top() + y * self.plank)
    }

    pub open spec fn contains_spec(&self, re: int, im: int) -> bool {
        &&& self.left() <= re < self.left() + self.plank * self.width_x
        &&& self.top() <= im < self.top() + self.plank * self.height_y
    }

    /// Pixel whose cell holds the domain point `(re, im)`.
    pub open spec fn point_to_pixel_spec(&self, re: int, im: int) -> (int, int) {
        ((re - self.left()) / (self.plank as int), (im - self.top()) / (self.plank as int))
    }
}

/// Facts on the edges of a well-formed area.
pub proof fn lemma_area_bounds(a: Area)
    requires
        a.wf(),
    ensures
        -48 * SCALE <= a.left(),
        a.left() + a.plank * a.width_x <= 48 * SCALE,
        -48 * SCALE <= a.top(),
        a.top() + a.plank * a.height_y <= 48 * SCALE,
        0 <= a.plank * (a.width_x / 2) <= a.plank * a.width_x,
        0 <= a.plank * (a.height_y / 2) <= a.plank * a.height_y,
{
    let p = a.plank as int;
    let w = a.width_x as int;
    let h = a.height_y as int;
    assert(0 <= p * (w / 2) <= p * w) by (nonlinear_arith)
        requires p >= 0, w > 0;
    assert(0 <= p * (h / 2) <= p * h) by (nonlinear_arith)
        requires p >= 0, h > 0;
}

/// An area centred on `(center_re, center_im)`, `width_re` fixed-point
/// units wide; the plank is `width_re / width_x`.
pub fn init(width_x: usize, height_y: usize, width_re: i64, center_re: i64, center_im: i64) -> (r: Area)
    requires
        0 < width_x <= MAX_SIDE,
        0 < height_y <= MAX_SIDE,
        0 <= width_re <= MAX_WIDTH_RE,
        (width_re as int) / (width_x as int) * height_y <= MAX_WIDTH_RE,
        -CENTER_BOUND <= center_re <= CENTER_BOUND,
        -CENTER_BOUND <= center_im <= CENTER_BOUND,
    ensures
        r.wf(),
        r == (Area {
            width_x,
            height_y,
            plank: ((width_re as int) / (width_x as int)) as i64,
            center_re,
            center_im,
        }),
{
    let plank = width_re / (width_x as i64);
    assert(plank * width_x <= width_re) by (nonlinear_arith)
        requires plank == (width_re as int) / (width_x as int), width_re >= 0, width_x > 0;
    Area { width_x, height_y, plank, center_re, center_im }
}

pub open spec fn init_trivial_spec() -> Area {
    Area { width_x: 10, height_y: 10, plank: 0, center_re: 0, center_im: 0 }
}

/// An area of 10 by 10 pixels whose domain is empty: it contains no point.
pub fn init_trivial() -> (r: Area)
    ensures
        r.wf(),
        r == init_trivial_spec(),
        forall|re: int, im: int| !r.contains_spec(re, im),
{
    Area { width_x: 10, height_y: 10, plank: 0, center_re: 0, center_im: 0 }
}

impl Area {
    /// Whether the domain point `(re, im)` lies inside the area.
    pub fn contains(&self, re: i64, im: i64) -> (r: bool)
        requires
            self.wf(),
        ensures
            r == self.contains_spec(re as int, im as int),
    {
        proof {
            lemma_area_bounds(*self);
        }
        let left = self.center_re - self.plank * ((self.width_x / 2) as i64);
        let top = self.center_im - self.plank * ((self.height_y / 2) as i64);
        left <= re && re < left + self.plank * (self.width_x as i64) && top <= im && im < top
            + self.plank * (self.height_y as i64)
    }

    /// Domain point of the corner of pixel `(x, y)`.
    pub fn pixel_to_domain(&self, x: usize, y: usize) -> (r: (i64, i64))
        requires
            self.wf(),
            x < self.width_x,
            y < self.height_y,
        ensures
            (r.0 as int, r.1 as int) == self.pixel_to_domain_spec(x as int, y as int),
            self.plank > 0 ==> self.contains_spec(r.0 as int, r.1 as int),
            -48 * SCALE <= r.0 <= 48 * SCALE,
            -48 * SCALE <= r.1 <= 48 * SCALE,
    {
        proof {
            lemma_area_bounds(*self);
            let p = self.plank as int;
            assert(0 <= x * p <= p * self.width_x) by (nonlinear_arith)
                requires 0 <= x < self.width_x, p >= 0;
            assert(0 <= y * p <= p * self.height_y) by (nonlinear_arith)
                requires 0 <= y < self.height_y, p >= 0;
            assert(p > 0 ==> x * p < p * self.width_x) by (nonlinear_arith)
                requires 0 <= x < self.width_x, p >= 0;
            assert(p > 0 ==> y * p < p * self.height_y) by (nonlinear_arith)
                requires 0 <= y < self.height_y, p >= 0;
        }
        let left = self.center_re - self.plank * ((self.width_x / 2) as i64);
        let top = self.center_im - self.plank * ((self.height_y / 2) as i64);
        (left + (x as i64) * self.plank, top + (y as i64) * self.plank)
    }

    /// Pixel whose cell holds the domain point `(re, im)`, which lies inside
    /// the area.
    pub fn point_to_pixel(&self, re: i64, im: i64) -> (r: (usize, usize))
        requires
            self.wf(),
            self.contains_spec(re as int, im as int),
        ensures
            (r.0 as int, r.1 as int) == self.point_to_pixel_spec(re as int, im as int),
            r.0 < self.width_x,
            r.1 < self.height_y,
    {
        proof {
            lemma_area_bounds(*self);
        }
        let left = self.center_re - self.plank * ((self.width_x / 2) as i64);
        let top = self.center_im - self.plank * ((self.height_y / 2) as i64);
        let dx = re - left;
        let dy = im - top;
        proof {
            let p = self.plank as int;
            let dx = dx as int;
            let dy = dy as int;
            assert(p > 0) by (nonlinear_arith)
                requires 0 < p * self.width_x, self.width_x > 0, p >= 0;
            assert(dx / p < self.width_x) by (nonlinear_arith)
                requires 0 <= dx < p * self.width_x, p > 0;
            assert(dy / p < self.height_y) by (nonlinear_arith)
                requires 0 <= dy < p * self.height_y, p > 0;
            assert(dx / p >= 0 && dy / p >= 0) by (nonlinear_arith)
                requires 0 <= dx, 0 <= dy, p > 0;
        }
        ((dx / self.plank) as usize, (dy / self.plank) as usize)
    }

    /// Pixel whose cell holds the domain point `(re, im)`, if the area
    /// contains it.
    pub fn pixel_of(&self, re: i64, im: i64) -> (r: Option<(usize, usize)>)
        requires
            self.wf(),
        ensures
            r is None <==> !self.contains_spec(re as int, im as int),
            r matches Some(p) ==> (p.0 as int, p.1 as int) == self.point_to_pixel_spec(re as int, im as int)
                && p.0 < self.width_x && p.1 < self.height_y,
    {
        if self.contains(re, im) {
            Some(self.point_to_pixel(re, im))
        } else {
            None
        }
    }

    /// Shrinks the domain width by the zoom factor; the centre stays.
    pub fn zoom_in(&mut self)
        requires
            old(self).wf(),
        ensures
            final(self).wf(),
            final(self).plank == (old(self).plank as int) * (ZOOM_NUMERATOR as int) / (ZOOM_DENOMINATOR as int),
            final(self).center_re == old(self).center_re,
            final(self).center_im == old(self).center_im,
            final(self).width_x == old(self).width_x,
            final(self).height_y == old(self).height_y,
    {
        let p = self.plank;
        assert(p <= MAX_WIDTH_RE) by (nonlinear_arith)
            requires p * self.width_x <= MAX_WIDTH_RE, self.width_x >= 1, p >= 0;
        let np = p * ZOOM_NUMERATOR / ZOOM_DENOMINATOR;
        assert(0 <= np <= p) by (nonlinear_arith)
            requires p >= 0, np == p * 49 / 50;
        assert(np * self.width_x <= p * self.width_x && np * self.height_y <= p * self.height_y)
            by (nonlinear_arith)
            requires 0 <= np <= p, self.width_x >= 0, self.height_y >= 0;
        self.plank = np;
    }

    /// Moves the centre to the corner of pixel `(x, y)`, kept within
    /// `CENTER_BOUND`.
    pub fn move_target(&mut self, x: usize, y: usize)
        requires
            old(self).wf(),
            x < old(self).width_x,
            y < old(self).height_y,
        ensures
            final(self).wf(),
            final(self).plank == old(self).plank,
            final(self).width_x == old(self).width_x,
            final(self).height_y == old(self).height_y,
            final(self).center_re == clamp_center(old(self).pixel_to_domain_spec(x as int, y as int).0),
            final(self).center_im == clamp_center(old(self).pixel_to_domain_spec(x as int, y as int).1),
    {
        let (re, im) = self.pixel_to_domain(x, y);
        self.center_re = clamp_center_exec(re);
        self.center_im = clamp_center_exec(im);
    }
}

pub open spec fn clamp_center(v: int) -> int {
    if v < -CENTER_BOUND {
        -CENTER_BOUND as int
    } else if v > CENTER_BOUND {
        CENTER_BOUND as int
    } else {
        v
    }
}

fn clamp_center_exec(v: i64) -> (r: i64)
    ensures
        r == clamp_center(v as int),
{
    if v < -CENTER_BOUND {
        -CENTER_BOUND
    } else if v > CENTER_BOUND {
        CENTER_BOUND
    } else {
        v
    }
}

/// Mapping a pixel to its domain point and back gives the same pixel.
pub proof fn lemma_round_trip(a: Area, x: int, y: int)
    requires
        a.wf(),
        a.plank > 0,
        0 <= x < a.width_x,
        0 <= y < a.height_y,
    ensures
        a.contains_spec(a.pixel_to_domain_spec(x, y).0, a.pixel_to_domain_spec(x, y).1),
        a.point_to_pixel_spec(a.pixel_to_domain_spec(x, y).0, a.pixel_to_domain_spec(x, y).1) == (x, y),
{
    let p = a.plank as int;
    assert((x * p) / p == x) by (nonlinear_arith)
        requires p > 0;
    assert((y * p) / p == y) by (nonlinear_arith)
        requires p > 0;
    assert(0 <= x * p < p * a.width_x) by (nonlinear_arith)
        requires 0 <= x < a.width_x, p > 0;
    assert(0 <= y * p < p * a.height_y) by (nonlinear_arith)
        requires 0 <= y < a.height_y, p > 0;
    let d = a.pixel_to_domain_spec(x, y);
    assert(d.0 - a.left() == x * p);
    assert(d.1 - a.top() == y * p);
}

/// A domain point inside the area lies in the cell of the pixel it maps to:
/// at most one plank past that pixel's corner.
pub proof fn lemma_point_in_cell(a: Area, re: int, im: int)
    requires
        a.wf(),
        a.contains_spec(re, im),
    ensures
        ({
            let px = a.point_to_pixel_spec(re, im);
            let d = a.pixel_to_domain_spec(px.0, px.1);
            &&& 0 <= px.0 < a.width_x
            &&& 0 <= px.1 < a.height_y
            &&& d.0 <= re < d.0 + a.plank
            &&& d.1 <= im < d.1 + a.plank
        }),
{
    let p = a.plank as int;
    let dx = re - a.left();
    let dy = im - a.top();
    assert(p > 0) by (nonlinear_arith)
        requires 0 < p * a.width_x, a.width_x > 0, p >= 0;
    assert((dx / p) * p <= dx < (dx / p) * p + p) by (nonlinear_arith)
        requires p > 0;
    assert((dy / p) * p <= dy < (dy / p) * p + p) by (nonlinear_arith)
        requires p > 0;
    assert(0 <= dx / p < a.width_x) by (nonlinear_arith)
        requires 0 <= dx < p * a.width_x, p > 0;
    assert(0 <= dy / p < a.height_y) by (nonlinear_arith)
        requires 0 <= dy < p * a.height_y, p > 0;
}

} // verus!
