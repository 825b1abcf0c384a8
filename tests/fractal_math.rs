use rusty_fractals::fractal::FractalMath;
use rusty_fractals::fractals::{
    init_trivial, is_prime, CollatzConjectureOrbits, Euler, FatStar, Infinity, Lotus, MemCollatz, MemEuler, Nebula,
    NebulaOfNebula,
};
use rusty_fractals::mem::{Mem, SCALE};

const ONE: i64 = SCALE;
const TENTH: i64 = SCALE / 10;

#[test]
fn main_test_math() {
    let collatz = CollatzConjectureOrbits {};
    let mut mc = MemCollatz { m: Mem { re: 0, im: 0 }, num: 7 };
    collatz.math(&mut mc, ONE, TENTH);
    assert_eq!(mc.m.re(), 2 * ONE);
    assert_eq!(mc.m.im(), ONE + TENTH);
}

#[test]
fn collatz_conjecture_halves_on_even_counter() {
    let mut mc = MemCollatz { m: Mem { re: 6 * TENTH, im: -3 }, num: 10 };
    mc.collatz_conjecture();
    assert_eq!(mc.m, Mem { re: 3 * TENTH, im: -1 });
    assert_eq!(mc.num, 5);
}

#[test]
fn trivial_fractal_square_and_add() {
    let fractal = init_trivial();
    let mut m = Mem { re: 0, im: 0 };
    fractal.math(&mut m, ONE, TENTH);
    assert_eq!(m.re, ONE);
    assert_eq!(m.im, TENTH);
}

#[test]
fn trivial_fractal_second_step() {
    let fractal = init_trivial();
    let mut m = Mem { re: ONE, im: TENTH };
    fractal.math(&mut m, ONE, TENTH);
    // (1 + 0.1i)^2 + (1 + 0.1i) = 1.99 + 0.3i
    assert_eq!(m.re, 199 * SCALE / 100);
    assert_eq!(m.im, 3 * TENTH);
}

#[test]
fn fat_star_test_math() {
    let fat_star = FatStar {};
    let mut m = Mem { re: 0, im: 0 };
    fat_star.math(&mut m, ONE, TENTH);
    assert_eq!(m.re, ONE);
    assert_eq!(m.im, TENTH);
}

#[test]
fn fat_star_conjugates_between_squares() {
    let fat_star = FatStar {};
    let mut m = Mem { re: ONE, im: ONE };
    fat_star.math(&mut m, 0, 0);
    // (1 + i)^2 = 2i, conjugated -2i, squared -4
    assert_eq!(m, Mem { re: -4 * ONE, im: 0 });
}

#[test]
fn infinity_test_math() {
    let infinity = Infinity {};
    let mut m = Mem { re: 0, im: 0 };
    infinity.math(&mut m, ONE, TENTH);
    assert_eq!(m.re, ONE);
    assert_eq!(m.im, TENTH);
}

#[test]
fn nebula_test_math() {
    let nebula = Nebula {};
    let mut m = Mem { re: 0, im: 0 };
    nebula.math(&mut m, ONE, TENTH);
    assert_eq!(m.re, ONE);
    assert_eq!(m.im, TENTH);
}

#[test]
fn lotus_conjugates_before_square() {
    let lotus = Lotus {};
    let mut m = Mem { re: 0, im: ONE };
    lotus.math(&mut m, 0, 0);
    // conj(i) = -i, squared -1
    assert_eq!(m, Mem { re: -ONE, im: 0 });
}

#[test]
fn nebula_of_nebula_applies_twice_less_z() {
    let nebula_of_nebula = NebulaOfNebula {};
    let mut m = Mem { re: 0, im: 0 };
    nebula_of_nebula.math(&mut m, ONE, TENTH);
    // f(f(0)) - 0 = c^2 + c = 1.99 + 0.3i
    assert_eq!(m.re, 199 * SCALE / 100);
    assert_eq!(m.im, 3 * TENTH);
}

#[test]
fn mem_operations() {
    let mut m = Mem::new(3 * ONE, -2 * ONE);
    assert_eq!(m.quad(), 13 * (ONE as u128) * (ONE as u128));
    assert!(!m.below_boundary());
    m.conjugation();
    assert_eq!(m, Mem { re: 3 * ONE, im: 2 * ONE });
    m.minus(ONE, ONE);
    assert_eq!(m, Mem { re: 2 * ONE, im: ONE });
    m.square();
    assert_eq!(m, Mem { re: 3 * ONE, im: 4 * ONE });
    let mut n = Mem::new(-1, 0);
    n.square();
    assert_eq!(n, Mem { re: 0, im: 0 });
    let small = Mem::new(ONE, ONE);
    assert!(small.below_boundary());
}

#[test]
fn primes_by_trial_division() {
    let primes: Vec<u32> = (0..30).filter(|&n| is_prime(n)).collect();
    assert_eq!(primes, vec![2, 3, 5, 7, 11, 13, 17, 19, 23, 29]);
    assert!(is_prime(65_521));
    assert!(!is_prime(65_521 * 3));
    assert!(is_prime(4_294_967_291));
    assert!(!is_prime(u32::MAX));
}

#[test]
fn euler_step_inverts_on_prime_count() {
    let mut me = MemEuler { m: Mem { re: ONE / 2, im: ONE / 4 }, it: 1 };
    me.euler();
    // count 2 is prime: 0.01 / 0.5 = 0.02, 0.01 / 0.25 = 0.04
    assert_eq!(me.it, 2);
    assert_eq!((me.re(), me.im()), (2 * ONE / 100, 4 * ONE / 100));
    let mut me = MemEuler { m: Mem { re: -ONE / 2, im: 0 }, it: 3 };
    me.euler();
    // count 4 is not prime: nothing changes
    assert_eq!(me.m, Mem { re: -ONE / 2, im: 0 });
    me.it = 4;
    me.euler();
    assert_eq!(me.m, Mem { re: -2 * ONE / 100, im: ONE * ONE / 100 });
    me.plus(ONE, 0);
    assert_eq!(me.m, Mem { re: 98 * ONE / 100, im: ONE * ONE / 100 });
    assert_eq!(me.it, 5);
    let mut small = MemEuler { m: Mem { re: ONE, im: ONE }, it: 0 };
    small.square();
    assert_eq!(small.m, Mem { re: 0, im: 2 * ONE });
}

#[test]
fn euler_fractal_step() {
    let euler = Euler {};
    let mut me = MemEuler { m: Mem { re: 0, im: 0 }, it: 0 };
    euler.math(&mut me, ONE, TENTH);
    // count 1 is not prime: (1 + 0.1i)^2 + (1 + 0.1i)
    assert_eq!(me.it, 1);
    assert_eq!(me.m, Mem { re: 199 * SCALE / 100, im: 3 * TENTH });
    let mut me = MemEuler { m: Mem { re: 0, im: 0 }, it: 1 };
    euler.math(&mut me, TENTH, TENTH);
    // count 2 is prime: 0.1 + 0.1i inverts to itself, then squares to
    // 0.02i, plus the origin
    assert_eq!(me.it, 2);
    assert_eq!(me.m, Mem { re: TENTH, im: 12 * SCALE / 100 });
}
