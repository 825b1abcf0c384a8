//! Fixed-point complex numbers: the state of an orbit.
use vstd::prelude::*;

verus! {

/// Fixed-point unit: a coordinate `v` stands for `v / SCALE`.
pub const SCALE: i64 = 100_000_000;

/// Divergence boundary on the squared magnitude, in units of `SCALE * SCALE`.
pub const CALCULATION_BOUNDARY: i64 = 4;

/// Bound on the coordinates of an origin, which keeps every step of every
/// fractal free of overflow.
pub const ORIGIN_BOUND: i64 = 64 * SCALE;

/// Bound on the coordinates that `square` takes.
pub const SQUARE_BOUND: i64 = 100_000 * SCALE;

/// A complex number in fixed point: `re / SCALE + i * im / SCALE`.
#[derive(Clone, Copy, Debug, PartialEq, Eq, Structural)]
pub struct Mem {
    pub re: i64,
    pub im: i64,
}

/// Division by `SCALE`, rounded toward zero.
pub open spec fn descale(a: int) -> int {
    if a >= 0 {
        a / (SCALE as int)
    } else {
        -((-a) / (SCALE as int))
    }
}

pub open spec fn square_spec(m: Mem) -> Mem {
    Mem {
        re: descale(m.re * m.re - m.im * m.im) as i64,
        im: descale(2 * m.re * m.im) as i64,
    }
}

pub open spec fn plus_spec(m: Mem, re: i64, im: i64) -> Mem {
    Mem { re: (m.re + re) as i64, im: (m.im + im) as i64 }
}

pub open spec fn conjugation_spec(m: Mem) -> Mem {
    Mem { re: m.re, im: -m.im as i64 }
}

/// Squared magnitude, in units of `SCALE * SCALE`.
pub open spec fn quad_spec(m: Mem) -> int {
    m.re * m.re + m.im * m.im
}

/// Whether the squared magnitude has reached the divergence boundary.
pub open spec fn escaped(m: Mem) -> bool {
    quad_spec(m) >= CALCULATION_BOUNDARY * SCALE * SCALE
}

pub open spec fn within(m: Mem, bound: int) -> bool {
    -bound <= m.re <= bound && -bound <= m.im <= bound
}

/// A state short of the divergence boundary lies within twice the unit.
pub proof fn lemma_not_escaped_within(m: Mem)
    requires
        !escaped(m),
    ensures
        within(m, 2 * SCALE),
{
    let re = m.re as int;
    let im = m.im as int;
    let s = SCALE as int;
    assert(-2 * s < re < 2 * s) by (nonlinear_arith)
        requires re * re + im * im < 4 * s * s, s > 0;
    assert(-2 * s < im < 2 * s) by (nonlinear_arith)
        requires re * re + im * im < 4 * s * s, s > 0;
}

/// Squaring a state within `b` gives a state within `2 * b * b / SCALE`.
pub proof fn lemma_square_within(m: Mem, b: int)
    requires
        within(m, b),
        0 < b <= SQUARE_BOUND,
    ensures
        within(square_spec(m), 2 * b * b / (SCALE as int)),
{
    let s = SCALE as int;
    let re = m.re as int;
    let im = m.im as int;
    let x = re * re - im * im;
    let y = 2 * re * im;
    let c = 2 * b * b;
    assert(-c <= x <= c && -c <= y <= c) by (nonlinear_arith)
        requires -b <= re <= b, -b <= im <= b, b > 0, x == re * re - im * im, y == 2 * re * im, c == 2 * b * b;
    assert(c / s <= 2 * (SQUARE_BOUND as int) * (SQUARE_BOUND as int) / s) by (nonlinear_arith)
        requires 0 < b <= SQUARE_BOUND, c == 2 * b * b, s > 0;
    assert(-c / s <= descale(x) <= c / s) by {
        if x >= 0 {
            assert(x / s <= c / s) by (nonlinear_arith)
                requires 0 <= x <= c, s > 0;
        } else {
            assert((-x) / s <= c / s) by (nonlinear_arith)
                requires 0 <= -x <= c, s > 0;
        }
    }
    assert(-c / s <= descale(y) <= c / s) by {
        if y >= 0 {
            assert(y / s <= c / s) by (nonlinear_arith)
                requires 0 <= y <= c, s > 0;
        } else {
            assert((-y) / s <= c / s) by (nonlinear_arith)
                requires 0 <= -y <= c, s > 0;
        }
    }
}

fn descale_exec(a: i128) -> (r: i128)
    requires
        a > i128::MIN,
    ensures
        r == descale(a as int),
{
    if a >= 0 {
        a / (SCALE as i128)
    } else {
        -((-a) / (SCALE as i128))
    }
}

impl Mem {
    pub fn new(re: i64, im: i64) -> (r: Mem)
        ensures
            r == (Mem { re, im }),
    {
        Mem { re, im }
    }

    pub fn re(&self) -> (r: i64)
        ensures
            r == self.re,
    {
        self.re
    }

    pub fn im(&self) -> (r: i64)
        ensures
            r == self.im,
    {
        self.im
    }

    /// Squared magnitude, in units of `SCALE * SCALE`.
    pub fn quad(&self) -> (r: u128)
        ensures
            r == quad_spec(*self),
    {
        let re = self.re as i128;
        let im = self.im as i128;
        assert(0 <= re * re <= 0x4000_0000_0000_0000_0000_0000_0000_0000) by (nonlinear_arith)
            requires -0x8000_0000_0000_0000 <= re <= 0x7fff_ffff_ffff_ffff;
        assert(0 <= im * im <= 0x4000_0000_0000_0000_0000_0000_0000_0000) by (nonlinear_arith)
            requires -0x8000_0000_0000_0000 <= im <= 0x7fff_ffff_ffff_ffff;
        let r2 = (re * re) as u128;
        let i2 = (im * im) as u128;
        r2 + i2
    }

    /// Whether the squared magnitude is below the divergence boundary.
    pub fn below_boundary(&self) -> (r: bool)
        ensures
            r == !escaped(*self),
    {
        let s = SCALE as u128;
        self.quad() < (CALCULATION_BOUNDARY as u128) * s * s
    }

    /// `self = self * self`.
    pub fn square(&mut self)
        requires
            within(*old(self), SQUARE_BOUND as int),
        ensures
            *final(self) == square_spec(*old(self)),
    {
        let re = self.re as i128;
        let im = self.im as i128;
        let ghost b = SQUARE_BOUND as int;
        assert(0 <= re * re <= b * b && 0 <= im * im <= b * b) by (nonlinear_arith)
            requires -b <= re <= b, -b <= im <= b, b > 0;
        assert(-b * b <= re * re - im * im <= b * b) by (nonlinear_arith)
            requires -b <= re <= b, -b <= im <= b, b > 0;
        assert(-2 * b * b <= 2 * re * im <= 2 * b * b) by (nonlinear_arith)
            requires -b <= re <= b, -b <= im <= b, b > 0;
        let r = descale_exec(re * re - im * im);
        let i = descale_exec(2 * re * im);
        proof {
            let s = SCALE as int;
            let x = re * re - im * im;
            let y = 2 * re * im;
            assert(-(2 * b * b) / s <= descale(x) <= (2 * b * b) / s) by {
                if x >= 0 {
                    assert(x / s <= (2 * b * b) / s) by (nonlinear_arith)
                        requires 0 <= x <= 2 * b * b, s > 0;
                } else {
                    assert((-x) / s <= (2 * b * b) / s) by (nonlinear_arith)
                        requires 0 <= -x <= 2 * b * b, s > 0;
                }
            }
            assert(-(2 * b * b) / s <= descale(y) <= (2 * b * b) / s) by {
                if y >= 0 {
                    assert(y / s <= (2 * b * b) / s) by (nonlinear_arith)
                        requires 0 <= y <= 2 * b * b, s > 0;
                } else {
                    assert((-y) / s <= (2 * b * b) / s) by (nonlinear_arith)
                        requires 0 <= -y <= 2 * b * b, s > 0;
                }
            }
        }
        self.re = r as i64;
        self.im = i as i64;
    }

    /// `self = self + (re, im)`.
    pub fn plus(&mut self, re: i64, im: i64)
        requires
            i64::MIN <= old(self).re + re <= i64::MAX,
            i64::MIN <= old(self).im + im <= i64::MAX,
        ensures
            *final(self) == plus_spec(*old(self), re, im),
    {
        self.re = self.re + re;
        self.im = self.im + im;
    }

    /// `self = self - (re, im)`.
    pub fn minus(&mut self, re: i64, im: i64)
        requires
            i64::MIN <= old(self).re - re <= i64::MAX,
            i64::MIN <= old(self).im - im <= i64::MAX,
        ensures
            final(self).re == old(self).re - re,
            final(self).im == old(self).im - im,
    {
        self.re = self.re - re;
        self.im = self.im - im;
    }

    /// Complex conjugate.
    pub fn conjugation(&mut self)
        requires
            old(self).im > i64::MIN,
        ensures
            *final(self) == conjugation_spec(*old(self)),
    {
        self.im = -self.im;
    }
}

} // verus!
