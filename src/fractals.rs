//! The fractals: each one a recurrence on the complex plane.
use vstd::prelude::*;
use crate::fractal::FractalMath;
use crate::mem::{
    conjugation_spec, escaped, lemma_not_escaped_within, lemma_square_within, plus_spec, square_spec, within, Mem,
    ORIGIN_BOUND, SCALE,
};

verus! {

/// A fractal for test purposes: z = z * z + c.
pub struct TrivialFractal {}

pub fn init_trivial() -> (r: TrivialFractal)
    ensures
        r == (TrivialFractal {}),
{
    TrivialFractal {}
}

impl FractalMath for TrivialFractal {
    open spec fn math_spec(&self, m: Mem, origin_re: i64, origin_im: i64) -> Mem {
        plus_spec(square_spec(m), origin_re, origin_im)
    }

    fn math(&self, m: &mut Mem, origin_re: i64, origin_im: i64) {
        proof {
            lemma_not_escaped_within(*m);
            lemma_square_within(*m, 2 * SCALE as int);
        }
        m.square();
        m.plus(origin_re, origin_im);
    }
}

/// z = z * z + c, on infinite orbits.
pub struct Infinity {}

impl FractalMath for Infinity {
    open spec fn math_spec(&self, m: Mem, origin_re: i64, origin_im: i64) -> Mem {
        plus_spec(square_spec(m), origin_re, origin_im)
    }

    fn math(&self, m: &mut Mem, origin_re: i64, origin_im: i64) {
        proof {
            lemma_not_escaped_within(*m);
            lemma_square_within(*m, 2 * SCALE as int);
        }
        m.square();
        m.plus(origin_re, origin_im);
    }
}

/// z = z * z + c, on finite orbits.
pub struct Nebula {}

impl FractalMath for Nebula {
    open spec fn math_spec(&self, m: Mem, origin_re: i64, origin_im: i64) -> Mem {
        plus_spec(square_spec(m), origin_re, origin_im)
    }

    fn math(&self, m: &mut Mem, origin_re: i64, origin_im: i64) {
        proof {
            lemma_not_escaped_within(*m);
            lemma_square_within(*m, 2 * SCALE as int);
        }
        m.square();
        m.plus(origin_re, origin_im);
    }
}

/// z = conj(z * z) squared, plus c.
pub struct FatStar {}

impl FractalMath for FatStar {
    open spec fn math_spec(&self, m: Mem, origin_re: i64, origin_im: i64) -> Mem {
        plus_spec(square_spec(conjugation_spec(square_spec(m))), origin_re, origin_im)
    }

    fn math(&self, m: &mut Mem, origin_re: i64, origin_im: i64) {
        proof {
            lemma_not_escaped_within(*m);
            lemma_square_within(*m, 2 * SCALE as int);
            let c = conjugation_spec(square_spec(*m));
            assert(within(c, 8 * SCALE as int));
            lemma_square_within(c, 8 * SCALE as int);
        }
        m.square();
        m.conjugation();
        m.square();
        m.plus(origin_re, origin_im);
    }
}

/// z = conj(z) squared, plus c.
pub struct Lotus {}

impl FractalMath for Lotus {
    open spec fn math_spec(&self, m: Mem, origin_re: i64, origin_im: i64) -> Mem {
        plus_spec(square_spec(conjugation_spec(m)), origin_re, origin_im)
    }

    fn math(&self, m: &mut Mem, origin_re: i64, origin_im: i64) {
        proof {
            lemma_not_escaped_within(*m);
            assert(within(conjugation_spec(*m), 2 * SCALE as int));
            lemma_square_within(conjugation_spec(*m), 2 * SCALE as int);
        }
        m.conjugation();
        m.square();
        m.plus(origin_re, origin_im);
    }
}

/// z = f(f(z)) - z, where f(z) = z * z + c.
pub struct NebulaOfNebula {}

impl FractalMath for NebulaOfNebula {
    open spec fn math_spec(&self, m: Mem, origin_re: i64, origin_im: i64) -> Mem {
        let f = plus_spec(square_spec(m), origin_re, origin_im);
        let ff = plus_spec(square_spec(f), origin_re, origin_im);
        Mem { re: (ff.re - m.re) as i64, im: (ff.im - m.im) as i64 }
    }

    fn math(&self, m: &mut Mem, origin_re: i64, origin_im: i64) {
        let z = *m;
        proof {
            lemma_not_escaped_within(*m);
            lemma_square_within(*m, 2 * SCALE as int);
            let f = plus_spec(square_spec(*m), origin_re, origin_im);
            assert(within(f, 72 * SCALE as int));
            lemma_square_within(f, 72 * SCALE as int);
        }
        m.square();
        m.plus(origin_re, origin_im);
        m.square();
        m.plus(origin_re, origin_im);
        m.minus(z.re, z.im);
    }
}

/// An orbit state with the counter of a Collatz sequence.
#[derive(Clone, Copy, Debug, PartialEq, Eq, Structural)]
pub struct MemCollatz {
    pub m: Mem,
    pub num: u32,
}

/// Half of `v`, rounded toward zero.
pub open spec fn half(v: int) -> int {
    if v >= 0 {
        v / 2
    } else {
        -((-v) / 2)
    }
}

fn half_exec(v: i64) -> (r: i64)
    requires
        v > i64::MIN,
    ensures
        r == half(v as int),
{
    if v >= 0 {
        v / 2
    } else {
        -((-v) / 2)
    }
}

/// One Collatz step on the counter, applied to the state too: halve both
/// where the counter is even; otherwise triple both and add one.
pub open spec fn collatz_conjecture_spec(mc: MemCollatz) -> MemCollatz {
    if mc.num % 2 == 0 {
        MemCollatz {
            m: Mem { re: half(mc.m.re as int) as i64, im: half(mc.m.im as int) as i64 },
            num: mc.num / 2,
        }
    } else {
        MemCollatz {
            m: Mem { re: (3 * mc.m.re + SCALE) as i64, im: (3 * mc.m.im + SCALE) as i64 },
            num: ((3 * mc.num + 1) % 0x1_0000_0000) as u32,
        }
    }
}

impl MemCollatz {
    pub fn collatz_conjecture(&mut self)
        requires
            within(old(self).m, 1_000_000 * SCALE as int),
        ensures
            *final(self) == collatz_conjecture_spec(*old(self)),
    {
        if self.num % 2 == 0 {
            self.m.re = half_exec(self.m.re);
            self.m.im = half_exec(self.m.im);
            self.num = self.num / 2;
        } else {
            self.m.re = 3 * self.m.re + SCALE;
            self.m.im = 3 * self.m.im + SCALE;
            self.num = self.num.wrapping_mul(3).wrapping_add(1);
        }
    }
}

/// z = collatz(z * z) + c, the counter of the Collatz sequence running
/// alongside the orbit.
pub struct CollatzConjectureOrbits {}

pub open spec fn collatz_math_spec(mc: MemCollatz, origin_re: i64, origin_im: i64) -> MemCollatz {
    let sq = MemCollatz { m: square_spec(mc.m), num: mc.num };
    let c = collatz_conjecture_spec(sq);
    MemCollatz { m: plus_spec(c.m, origin_re, origin_im), num: c.num }
}

impl CollatzConjectureOrbits {
    /// One step of the orbit: square, Collatz step, add the origin.
    pub fn math(&self, mc: &mut MemCollatz, origin_re: i64, origin_im: i64)
        requires
            !escaped(old(mc).m),
            -ORIGIN_BOUND <= origin_re <= ORIGIN_BOUND,
            -ORIGIN_BOUND <= origin_im <= ORIGIN_BOUND,
        ensures
            *final(mc) == collatz_math_spec(*old(mc), origin_re, origin_im),
    {
        proof {
            lemma_not_escaped_within(mc.m);
            lemma_square_within(mc.m, 2 * SCALE as int);
        }
        mc.m.square();
        mc.collatz_conjecture();
        mc.m.plus(origin_re, origin_im);
    }
}

/// Whether `n` is prime.
pub open spec fn is_prime_spec(n: int) -> bool {
    n >= 2 && forall|k: int| 2 <= k < n ==> #[trigger] (n % k) != 0
}

/// Whether `n` is prime, by trial division up to its square root.
pub fn is_prime(n: u32) -> (r: bool)
    ensures
        r == is_prime_spec(n as int),
{
    if n < 2 {
        return false;
    }
    let n64 = n as u64;
    let mut d: u64 = 2;
    while d <= n64 / d
        invariant
            2 <= d <= n64,
            n64 == n,
            n >= 2,
            forall|k: int| 2 <= k < d ==> #[trigger] ((n as int) % k) != 0,
        decreases n64 - d,
    {
        assert(d * d <= n64 && d < n64) by (nonlinear_arith)
            requires d <= n64 / d, d >= 2;
        if n64 % d == 0 {
            assert((n as int) % (d as int) == 0);
            return false;
        }
        d += 1;
    }
    proof {
        let nn = n as int;
        let dd = d as int;
        assert(dd * dd > nn) by (nonlinear_arith)
            requires dd > nn / dd, dd >= 2, nn >= 0;
        assert forall|k: int| 2 <= k < nn implies #[trigger] (nn % k) != 0 by {
            if k >= dd && nn % k == 0 {
                let j = nn / k;
                assert(nn == j * k) by (nonlinear_arith)
                    requires nn % k == 0, j == nn / k, k > 0;
                assert(j >= 2) by (nonlinear_arith)
                    requires nn == j * k, k < nn, k >= 2;
                assert(j < dd) by (nonlinear_arith)
                    requires nn == j * k, k >= dd, dd * dd > nn, dd >= 2;
                assert(nn % j == 0) by (nonlinear_arith)
                    requires nn == j * k, j >= 2;
            }
        }
    }
    true
}

/// Fixed-point value of 0.01.
pub const EULER_NUMERATOR: i64 = 1_000_000;

/// `0.01 / v` in fixed point, rounded toward zero; a zero coordinate counts
/// as the smallest unit, which sends the state far past the divergence
/// boundary, where the quotient would be unbounded.
pub open spec fn reciprocal_spec(v: int) -> int {
    let c = EULER_NUMERATOR * SCALE;
    if v == 0 {
        c
    } else if v > 0 {
        c / v
    } else {
        -(c / (-v))
    }
}

fn reciprocal(v: i64) -> (r: i64)
    requires
        v > i64::MIN,
    ensures
        r == reciprocal_spec(v as int),
{
    let c = EULER_NUMERATOR * SCALE;
    if v == 0 {
        c
    } else if v > 0 {
        assert((c as int) / (v as int) <= c) by (nonlinear_arith)
            requires v > 0, c > 0;
        c / v
    } else {
        assert((c as int) / (-v as int) <= c) by (nonlinear_arith)
            requires -v > 0, c > 0;
        -(c / (-v))
    }
}

/// One step of the counter; where the new count is prime, each coordinate
/// `v` becomes `0.01 / v`.
pub open spec fn euler_spec(me: MemEuler) -> MemEuler {
    let it = ((me.it + 1) % 0x1_0000_0000) as u32;
    if is_prime_spec(it as int) {
        MemEuler {
            m: Mem { re: reciprocal_spec(me.m.re as int) as i64, im: reciprocal_spec(me.m.im as int) as i64 },
            it,
        }
    } else {
        MemEuler { m: me.m, it }
    }
}

/// Orbit state of the Euler fractal: the point and the step counter.
#[derive(Clone, Copy, Debug, PartialEq, Eq, Structural)]
pub struct MemEuler {
    pub m: Mem,
    pub it: u32,
}

impl MemEuler {
    pub fn re(&self) -> (r: i64)
        ensures
            r == self.m.re,
    {
        self.m.re
    }

    pub fn im(&self) -> (r: i64)
        ensures
            r == self.m.im,
    {
        self.m.im
    }

    pub fn plus(&mut self, r: i64, i: i64)
        requires
            i64::MIN <= old(self).m.re + r <= i64::MAX,
            i64::MIN <= old(self).m.im + i <= i64::MAX,
        ensures
            final(self).m == plus_spec(old(self).m, r, i),
            final(self).it == old(self).it,
    {
        self.m.plus(r, i);
    }

    pub fn square(&mut self)
        requires
            within(old(self).m, crate::mem::SQUARE_BOUND as int),
        ensures
            final(self).m == square_spec(old(self).m),
            final(self).it == old(self).it,
    {
        self.m.square();
    }

    /// Counts one more step; where the count is prime, replaces each
    /// coordinate `v` by `0.01 / v`.
    pub fn euler(&mut self)
        requires
            old(self).m.re > i64::MIN,
            old(self).m.im > i64::MIN,
        ensures
            *final(self) == euler_spec(*old(self)),
    {
        self.it = self.it.wrapping_add(1);
        if is_prime(self.it) {
            self.m.re = reciprocal(self.m.re);
            self.m.im = reciprocal(self.m.im);
        }
    }
}

/// z = z * z + c, then the Euler step, then z * z + c again. Where the
/// Euler step throws the state past `SQUARE_BOUND`, far beyond the
/// divergence boundary, the second half is skipped: the orbit has escaped
/// either way.
pub struct Euler {}

pub open spec fn euler_math_spec(me: MemEuler, origin_re: i64, origin_im: i64) -> MemEuler {
    let a = MemEuler { m: plus_spec(square_spec(me.m), origin_re, origin_im), it: me.it };
    let b = euler_spec(a);
    if within(b.m, crate::mem::SQUARE_BOUND as int) {
        MemEuler { m: plus_spec(square_spec(b.m), origin_re, origin_im), it: b.it }
    } else {
        b
    }
}

impl Euler {
    /// One step of the orbit of the Euler fractal.
    pub fn math(&self, me: &mut MemEuler, origin_re: i64, origin_im: i64)
        requires
            !escaped(old(me).m),
            -ORIGIN_BOUND <= origin_re <= ORIGIN_BOUND,
            -ORIGIN_BOUND <= origin_im <= ORIGIN_BOUND,
        ensures
            *final(me) == euler_math_spec(*old(me), origin_re, origin_im),
    {
        proof {
            lemma_not_escaped_within(me.m);
            lemma_square_within(me.m, 2 * SCALE as int);
        }
        me.square();
        me.plus(origin_re, origin_im);
        me.euler();
        let b = crate::mem::SQUARE_BOUND;
        if -b <= me.m.re && me.m.re <= b && -b <= me.m.im && me.m.im <= b {
            proof {
                lemma_square_within(me.m, b as int);
            }
            me.square();
            me.plus(origin_re, origin_im);
        }
    }
}

} // verus!
