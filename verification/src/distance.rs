//! Great-circle distance between quantized geographic points.
//!
//! Angles are handled in half-microdegrees and converted to binary
//! fixed-point radians with sixty fractional bits (Q60). The haversine
//! formula is evaluated with integer arithmetic only: truncated Taylor
//! polynomials for sine and cosine, an exact integer square root, and a
//! Newton iteration for the arcsine. The sphere radius is the mean Earth
//! radius, 6371008.8 m, and results are in millimetres.

use vstd::prelude::*;
use vstd::arithmetic::mul::{lemma_mul_inequality, lemma_mul_nonnegative};
use vstd::arithmetic::div_mod::{
    lemma_div_is_ordered, lemma_div_pos_is_pos, lemma_div_multiples_vanish,
    lemma_div_is_ordered_by_denominator, lemma_div_basics, lemma_fundamental_div_mod,
    lemma_mod_bound,
};

use crate::bathymetry::Point;

verus! {

/// One in Q60 fixed point: 2^60.
pub const Q60: i128 = 1152921504606846976;

/// Radians per half-microdegree, scaled by 2^80.
const K_RAD: i128 = 10549867982323162;

/// 2^20, the remaining shift after the angle conversion.
const P20: i128 = 1048576;

/// A quarter turn in Q60 radians.
const HALF_PI_Q60: i128 = 1811004864519280640;

/// Cap for arcsine iterates, a little above pi/4 in Q60 radians.
const T_CAP: i128 = 910807988639409152;

/// One half in Q60 fixed point.
const HALF_ONE: i128 = 576460752303423488;

/// Twice the mean Earth radius, in millimetres.
const R2_MM: i128 = 12742017600;

/// A full turn in half-microdegrees.
const FULL_TURN: i128 = 720000000;

/// The largest value `distance_mm` can return: half the Earth's
/// circumference in millimetres, rounded up.
pub const DISTANCE_CAP_MM: u64 = 20015114443;

// ---------------------------------------------------------------------------
// Scaled multiplication
// ---------------------------------------------------------------------------

/// Product of two Q60 values, truncated back to Q60.
pub closed spec fn mulq_spec(a: int, b: int) -> int {
    (a * b) / 1152921504606846976
}

proof fn lemma_mulq_bounds(a: int, b: int)
    requires
        0 <= a,
        0 <= b <= 1152921504606846976,
    ensures
        0 <= mulq_spec(a, b) <= a,
{
    lemma_mul_nonnegative(a, b);
    lemma_div_pos_is_pos(a * b, 1152921504606846976);
    lemma_mul_inequality(b, 1152921504606846976, a);
    assert(a * b == b * a);
    lemma_div_is_ordered(a * b, 1152921504606846976 * a, 1152921504606846976);
    lemma_div_multiples_vanish(a, 1152921504606846976);
}

fn mulq(a: i128, b: i128) -> (r: i128)
    requires
        0 <= a <= 2000000000000000000,
        0 <= b <= 2000000000000000000,
    ensures
        r == mulq_spec(a as int, b as int),
        0 <= r,
{
    proof {
        assert(a * b <= 4000000000000000000000000000000000000) by (nonlinear_arith)
            requires
                0 <= a <= 2000000000000000000,
                0 <= b <= 2000000000000000000,
        ;
        lemma_mul_nonnegative(a as int, b as int);
        lemma_div_pos_is_pos(a as int * b as int, 1152921504606846976);
    }
    (a * b) / Q60
}

// ---------------------------------------------------------------------------
// Sine and cosine polynomials on [0, a little above pi/4]
// ---------------------------------------------------------------------------

/// Taylor polynomial of sine up to the thirteenth power, on Q60 radians.
pub closed spec fn sin_poly_spec(x: int) -> int {
    let x2 = mulq_spec(x, x);
    let t6 = 1152921504606846976 - x2 / 156;
    let t5 = 1152921504606846976 - mulq_spec(x2, t6) / 110;
    let t4 = 1152921504606846976 - mulq_spec(x2, t5) / 72;
    let t3 = 1152921504606846976 - mulq_spec(x2, t4) / 42;
    let t2 = 1152921504606846976 - mulq_spec(x2, t3) / 20;
    let t1 = 1152921504606846976 - mulq_spec(x2, t2) / 6;
    mulq_spec(x, t1)
}

/// Taylor polynomial of cosine up to the twelfth power, on Q60 radians.
pub closed spec fn cos_poly_spec(x: int) -> int {
    let x2 = mulq_spec(x, x);
    let c6 = 1152921504606846976 - x2 / 132;
    let c5 = 1152921504606846976 - mulq_spec(x2, c6) / 90;
    let c4 = 1152921504606846976 - mulq_spec(x2, c5) / 56;
    let c3 = 1152921504606846976 - mulq_spec(x2, c4) / 30;
    let c2 = 1152921504606846976 - mulq_spec(x2, c3) / 12;
    1152921504606846976 - mulq_spec(x2, c2) / 2
}

/// Bound on x*x/Q60 for arguments up to 1e18.
proof fn lemma_x2_bound(x: int)
    requires
        0 <= x <= 1000000000000000000,
    ensures
        0 <= mulq_spec(x, x) <= 867361737988403547,
{
    lemma_mul_nonnegative(x, x);
    lemma_div_pos_is_pos(x * x, 1152921504606846976);
    assert(x * x <= 1000000000000000000000000000000000000) by (nonlinear_arith)
        requires
            0 <= x <= 1000000000000000000,
    ;
    lemma_div_is_ordered(x * x, 1000000000000000000000000000000000000, 1152921504606846976);
    assert(1000000000000000000000000000000000000int / 1152921504606846976int
        == 867361737988403547);
}

fn sin_poly(x: i128) -> (r: i128)
    requires
        0 <= x <= 1000000000000000000,
    ensures
        r == sin_poly_spec(x as int),
        0 <= r <= x,
{
    let x2 = mulq(x, x);
    proof {
        lemma_x2_bound(x as int);
    }
    let t6 = Q60 - x2 / 156;
    proof {
        lemma_div_pos_is_pos(x2 as int, 156);
        lemma_mulq_bounds(x2 as int, t6 as int);
        lemma_div_pos_is_pos(mulq_spec(x2 as int, t6 as int), 110);
        lemma_div_is_ordered(mulq_spec(x2 as int, t6 as int), x2 as int, 110);
    }
    let t5 = Q60 - mulq(x2, t6) / 110;
    proof {
        lemma_mulq_bounds(x2 as int, t5 as int);
        lemma_div_pos_is_pos(mulq_spec(x2 as int, t5 as int), 72);
        lemma_div_is_ordered(mulq_spec(x2 as int, t5 as int), x2 as int, 72);
    }
    let t4 = Q60 - mulq(x2, t5) / 72;
    proof {
        lemma_mulq_bounds(x2 as int, t4 as int);
        lemma_div_pos_is_pos(mulq_spec(x2 as int, t4 as int), 42);
        lemma_div_is_ordered(mulq_spec(x2 as int, t4 as int), x2 as int, 42);
    }
    let t3 = Q60 - mulq(x2, t4) / 42;
    proof {
        lemma_mulq_bounds(x2 as int, t3 as int);
        lemma_div_pos_is_pos(mulq_spec(x2 as int, t3 as int), 20);
        lemma_div_is_ordered(mulq_spec(x2 as int, t3 as int), x2 as int, 20);
    }
    let t2 = Q60 - mulq(x2, t3) / 20;
    proof {
        lemma_mulq_bounds(x2 as int, t2 as int);
        lemma_div_pos_is_pos(mulq_spec(x2 as int, t2 as int), 6);
        lemma_div_is_ordered(mulq_spec(x2 as int, t2 as int), x2 as int, 6);
    }
    let t1 = Q60 - mulq(x2, t2) / 6;
    proof {
        lemma_mulq_bounds(x as int, t1 as int);
    }
    mulq(x, t1)
}

fn cos_poly(x: i128) -> (r: i128)
    requires
        0 <= x <= 1000000000000000000,
    ensures
        r == cos_poly_spec(x as int),
        719240635612645202 <= r <= 1152921504606846976,
{
    let x2 = mulq(x, x);
    proof {
        lemma_x2_bound(x as int);
    }
    let c6 = Q60 - x2 / 132;
    proof {
        lemma_div_pos_is_pos(x2 as int, 132);
        lemma_mulq_bounds(x2 as int, c6 as int);
        lemma_div_pos_is_pos(mulq_spec(x2 as int, c6 as int), 90);
        lemma_div_is_ordered(mulq_spec(x2 as int, c6 as int), x2 as int, 90);
    }
    let c5 = Q60 - mulq(x2, c6) / 90;
    proof {
        lemma_mulq_bounds(x2 as int, c5 as int);
        lemma_div_pos_is_pos(mulq_spec(x2 as int, c5 as int), 56);
        lemma_div_is_ordered(mulq_spec(x2 as int, c5 as int), x2 as int, 56);
    }
    let c4 = Q60 - mulq(x2, c5) / 56;
    proof {
        lemma_mulq_bounds(x2 as int, c4 as int);
        lemma_div_pos_is_pos(mulq_spec(x2 as int, c4 as int), 30);
        lemma_div_is_ordered(mulq_spec(x2 as int, c4 as int), x2 as int, 30);
    }
    let c3 = Q60 - mulq(x2, c4) / 30;
    proof {
        lemma_mulq_bounds(x2 as int, c3 as int);
        lemma_div_pos_is_pos(mulq_spec(x2 as int, c3 as int), 12);
        lemma_div_is_ordered(mulq_spec(x2 as int, c3 as int), x2 as int, 12);
    }
    let c2 = Q60 - mulq(x2, c3) / 12;
    proof {
        lemma_mulq_bounds(x2 as int, c2 as int);
        lemma_div_pos_is_pos(mulq_spec(x2 as int, c2 as int), 2);
        lemma_div_is_ordered(mulq_spec(x2 as int, c2 as int), x2 as int, 2);
        assert(867361737988403547int / 2 == 433680868994201773);
        lemma_div_is_ordered(mulq_spec(x2 as int, c2 as int), 867361737988403547, 2);
    }
    Q60 - mulq(x2, c2) / 2
}

// ---------------------------------------------------------------------------
// Angle conversion: half-microdegrees to Q60 radians
// ---------------------------------------------------------------------------

/// Q60 radians of an angle given in half-microdegrees.
pub closed spec fn conv_spec(r: int) -> int {
    (r * 10549867982323162) / 1048576
}

fn conv(r: i64) -> (x: i128)
    requires
        0 <= r <= 90000000,
    ensures
        x == conv_spec(r as int),
        0 <= x <= 905502432259640293,
{
    proof {
        lemma_mul_nonnegative(r as int, 10549867982323162);
        lemma_div_pos_is_pos(r as int * 10549867982323162, 1048576);
        lemma_mul_inequality(r as int, 90000000, 10549867982323162);
        lemma_div_is_ordered(
            r as int * 10549867982323162,
            90000000int * 10549867982323162,
            1048576,
        );
        assert(90000000int * 10549867982323162 / 1048576 == 905502432259640293);
    }
    (r as i128 * K_RAD) / P20
}

// ---------------------------------------------------------------------------
// Integer square root
// ---------------------------------------------------------------------------

/// The floor of the square root of a non-negative integer.
pub closed spec fn sqrt_floor(n: int) -> int {
    choose|r: int| 0 <= r && #[trigger] (r * r) <= n && n < (r + 1) * (r + 1)
}

/// Any value with the floor-square-root property is `sqrt_floor`.
proof fn lemma_sqrt_unique(n: int, r: int)
    requires
        0 <= r,
        r * r <= n,
        n < (r + 1) * (r + 1),
    ensures
        sqrt_floor(n) == r,
{
    assert(exists|q: int| 0 <= q && #[trigger] (q * q) <= n && n < (q + 1) * (q + 1));
    let c = sqrt_floor(n);
    assert(0 <= c && c * c <= n && n < (c + 1) * (c + 1));
    assert(c == r) by (nonlinear_arith)
        requires
            0 <= c,
            0 <= r,
            c * c <= n,
            n < (c + 1) * (c + 1),
            r * r <= n,
            n < (r + 1) * (r + 1),
    ;
}

/// Exact integer square root by binary search on the result.
fn sqrtq(n: u128) -> (r: u64)
    ensures
        r as int == sqrt_floor(n as int),
        r as int * r as int <= n as int,
{
    let mut lo: u128 = 0;
    let mut hi: u128 = 18446744073709551616;
    proof {
        assert((n as int) < 18446744073709551616int * 18446744073709551616int);
    }
    while hi - lo > 1
        invariant
            lo < hi,
            hi <= 18446744073709551616,
            lo as int * lo as int <= n as int,
            (n as int) < hi as int * hi as int,
        decreases hi - lo,
    {
        let mid = lo + (hi - lo) / 2;
        proof {
            assert(mid * mid <= 340282366920938463463374607431768211455u128) by (nonlinear_arith)
                requires
                    mid <= 18446744073709551615u128,
            ;
        }
        let sq = mid * mid;
        if sq <= n {
            lo = mid;
        } else {
            hi = mid;
        }
    }
    let r = lo as u64;
    proof {
        lemma_sqrt_unique(n as int, r as int);
    }
    r
}

// ---------------------------------------------------------------------------
// Arcsine by Newton iteration on the sine polynomial
// ---------------------------------------------------------------------------

/// Clamp an arcsine iterate into the domain of the polynomials.
pub closed spec fn clamp_t_spec(t: int) -> int {
    if t < 0 {
        0
    } else if t > 910807988639409152 {
        910807988639409152
    } else {
        t
    }
}

/// One Newton step for solving `sin t == y`.
pub closed spec fn newton_step_spec(y: int, t: int) -> int {
    let num = y - sin_poly_spec(t);
    let den = cos_poly_spec(t);
    if num >= 0 {
        t + (num * 1152921504606846976) / den
    } else {
        t - ((0 - num) * 1152921504606846976) / den
    }
}

/// Arcsine in Q60 radians: a series start, then three Newton steps.
pub closed spec fn asin_spec(y: int) -> int {
    let y2 = mulq_spec(y, y);
    let y3 = mulq_spec(y2, y);
    let y5 = mulq_spec(y3, y2);
    let t0 = clamp_t_spec(y + y3 / 6 + 3 * y5 / 40);
    let t1 = clamp_t_spec(newton_step_spec(y, t0));
    let t2 = clamp_t_spec(newton_step_spec(y, t1));
    clamp_t_spec(newton_step_spec(y, t2))
}

fn clamp_t(t: i128) -> (r: i128)
    ensures
        r == clamp_t_spec(t as int),
        0 <= r <= 910807988639409152,
{
    if t < 0 {
        0
    } else if t > T_CAP {
        T_CAP
    } else {
        t
    }
}

fn newton_step(y: i128, t: i128) -> (r: i128)
    requires
        0 <= y <= 815238614083298888,
        0 <= t <= 910807988639409152,
    ensures
        r == newton_step_spec(y as int, t as int),
{
    let s = sin_poly(t);
    let den = cos_poly(t);
    let num = y - s;
    if num >= 0 {
        proof {
            assert(num * 1152921504606846976 < 2000000000000000000000000000000000000int)
                by (nonlinear_arith)
                requires
                    0 <= num <= 1000000000000000000,
            ;
            lemma_mul_nonnegative(num as int, 1152921504606846976);
            lemma_div_pos_is_pos(num as int * 1152921504606846976, den as int);
            lemma_div_is_ordered_by_denominator(num as int * 1152921504606846976, 1, den as int);
            lemma_div_basics(num as int * 1152921504606846976);
        }
        t + (num * Q60) / den
    } else {
        let m = 0 - num;
        proof {
            assert(m * 1152921504606846976 < 2000000000000000000000000000000000000int)
                by (nonlinear_arith)
                requires
                    0 <= m <= 1000000000000000000,
            ;
            lemma_mul_nonnegative(m as int, 1152921504606846976);
            lemma_div_pos_is_pos(m as int * 1152921504606846976, den as int);
            lemma_div_is_ordered_by_denominator(m as int * 1152921504606846976, 1, den as int);
            lemma_div_basics(m as int * 1152921504606846976);
        }
        t - (m * Q60) / den
    }
}

fn asin_q60(y: i128) -> (t: i128)
    requires
        0 <= y <= 815238614083298888,
    ensures
        t == asin_spec(y as int),
        0 <= t <= 910807988639409152,
{
    let y2 = mulq(y, y);
    proof {
        lemma_mulq_bounds(y as int, y as int);
    }
    let y3 = mulq(y2, y);
    proof {
        lemma_mulq_bounds(y2 as int, y as int);
    }
    let y5 = mulq(y3, y2);
    proof {
        lemma_mulq_bounds(y3 as int, y2 as int);
        lemma_div_pos_is_pos(y3 as int, 6);
        lemma_div_is_ordered(y3 as int, y2 as int, 6);
        lemma_mul_nonnegative(3, y5 as int);
        lemma_div_pos_is_pos(3 * y5 as int, 40);
        lemma_mul_inequality(y5 as int, 815238614083298888, 3);
        assert(y5 as int * 3 == 3 * y5 as int);
        lemma_div_is_ordered(3 * y5 as int, 3 * 815238614083298888int, 40);
    }
    let t0 = clamp_t(y + y3 / 6 + (3 * y5) / 40);
    let t1 = clamp_t(newton_step(y, t0));
    let t2 = clamp_t(newton_step(y, t1));
    clamp_t(newton_step(y, t2))
}

// ---------------------------------------------------------------------------
// Sine and cosine of an arbitrary angle in half-microdegrees
// ---------------------------------------------------------------------------

/// Sine and cosine, in Q60, of an angle given in half-microdegrees.
pub closed spec fn sincos_spec(a: int) -> (int, int) {
    let m = a % 720000000;
    let q = m / 180000000;
    let rr = m % 180000000;
    let sc = if rr <= 90000000 {
        (sin_poly_spec(conv_spec(rr)), cos_poly_spec(conv_spec(rr)))
    } else {
        (cos_poly_spec(conv_spec(180000000 - rr)), sin_poly_spec(conv_spec(180000000 - rr)))
    };
    if q == 0 {
        sc
    } else if q == 1 {
        (sc.1, 0 - sc.0)
    } else if q == 2 {
        (0 - sc.0, 0 - sc.1)
    } else {
        (0 - sc.1, sc.0)
    }
}

fn sincos_h(a: i64) -> (r: (i128, i128))
    ensures
        r.0 == sincos_spec(a as int).0,
        r.1 == sincos_spec(a as int).1,
        -1152921504606846976 <= r.0 <= 1152921504606846976,
        -1152921504606846976 <= r.1 <= 1152921504606846976,
{
    let m: i64 = match a.checked_rem_euclid(720000000) {
        Some(v) => v,
        None => 0,
    };
    proof {
        lemma_mod_bound(a as int, 720000000);
    }
    let q = m / 180000000;
    let rr = m % 180000000;
    proof {
        lemma_mod_bound(m as int, 180000000);
        lemma_fundamental_div_mod(m as int, 180000000);
    }
    let (s, c) = if rr <= 90000000 {
        let x = conv(rr);
        (sin_poly(x), cos_poly(x))
    } else {
        let x = conv(180000000 - rr);
        (cos_poly(x), sin_poly(x))
    };
    if q == 0 {
        (s, c)
    } else if q == 1 {
        (c, 0 - s)
    } else if q == 2 {
        (0 - s, 0 - c)
    } else {
        (0 - c, s)
    }
}

// ---------------------------------------------------------------------------
// The haversine distance itself
// ---------------------------------------------------------------------------

/// Magnitude of an integer.
pub closed spec fn abs_spec(x: int) -> int {
    if x < 0 {
        0 - x
    } else {
        x
    }
}

/// Signed product of two Q60 values, truncated toward zero back to Q60.
pub closed spec fn tmul_spec(a: int, b: int) -> int {
    if a * b >= 0 {
        (a * b) / 1152921504606846976
    } else {
        0 - ((0 - a * b) / 1152921504606846976)
    }
}

fn tmul(a: i128, b: i128) -> (r: i128)
    requires
        -1152921504606846976 <= a <= 1152921504606846976,
        -1152921504606846976 <= b <= 1152921504606846976,
    ensures
        r == tmul_spec(a as int, b as int),
        -1152921504606846976 <= r <= 1152921504606846976,
{
    proof {
        assert(-1329227995784915872903807060280344576
            <= a * b <= 1329227995784915872903807060280344576) by (nonlinear_arith)
            requires
                -1152921504606846976 <= a <= 1152921504606846976,
                -1152921504606846976 <= b <= 1152921504606846976,
        ;
    }
    let p = a * b;
    if p >= 0 {
        proof {
            lemma_div_pos_is_pos(p as int, 1152921504606846976);
            lemma_div_is_ordered(p as int, 1329227995784915872903807060280344576, 1152921504606846976);
            assert(1329227995784915872903807060280344576int / 1152921504606846976int
                == 1152921504606846976);
        }
        p / Q60
    } else {
        let m = 0 - p;
        proof {
            lemma_div_pos_is_pos(m as int, 1152921504606846976);
            lemma_div_is_ordered(m as int, 1329227995784915872903807060280344576, 1152921504606846976);
            assert(1329227995784915872903807060280344576int / 1152921504606846976int
                == 1152921504606846976);
        }
        0 - m / Q60
    }
}

/// Square of a Q60 value, truncated back to Q60.
fn sqq(v: i128) -> (r: i128)
    requires
        -1152921504606846976 <= v <= 1152921504606846976,
    ensures
        r == mulq_spec(v as int, v as int),
        0 <= r <= 1152921504606846976,
{
    proof {
        assert(0 <= v * v <= 1329227995784915872903807060280344576) by (nonlinear_arith)
            requires
                -1152921504606846976 <= v <= 1152921504606846976,
        ;
        lemma_div_pos_is_pos(v as int * v as int, 1152921504606846976);
        lemma_div_is_ordered(
            v as int * v as int,
            1329227995784915872903807060280344576,
            1152921504606846976,
        );
        assert(1329227995784915872903807060280344576int / 1152921504606846976int
            == 1152921504606846976);
    }
    (v * v) / Q60
}

/// The clamped haversine of the pair of points, in Q60.
pub closed spec fn hav_spec(a: Point, b: Point) -> int {
    let sp = sincos_spec(abs_spec(b.1 - a.1) % 720000000).0;
    let sl = sincos_spec(abs_spec(b.0 - a.0) % 720000000).0;
    let c1 = sincos_spec(2 * (a.1 % 360000000)).1;
    let c2 = sincos_spec(2 * (b.1 % 360000000)).1;
    let h = mulq_spec(sp, sp) + tmul_spec(tmul_spec(c1, c2), mulq_spec(sl, sl));
    if h < 0 {
        0
    } else if h > 1152921504606846976 {
        1152921504606846976
    } else {
        h
    }
}

/// Great-circle distance in millimetres between two points given in
/// microdegrees, on a sphere of radius 6371008.8 m, as the fixed-point
/// pipeline computes it.
pub closed spec fn distance_spec(a: Point, b: Point) -> int {
    let h = hav_spec(a, b);
    let t = if 2 * h <= 1152921504606846976 {
        asin_spec(sqrt_floor(h * 1152921504606846976))
    } else {
        1811004864519280640 - asin_spec(
            sqrt_floor((1152921504606846976 - h) * 1152921504606846976),
        )
    };
    (12742017600 * t) / 1152921504606846976
}

/// Reduce the magnitude of a difference of microdegree coordinates to one turn.
fn reduce_diff(x: i64, y: i64) -> (r: i64)
    ensures
        r == abs_spec(y as int - x as int) % 720000000,
        0 <= r < 720000000,
{
    let d = (y as i128) - (x as i128);
    let ad = if d < 0 {
        0 - d
    } else {
        d
    };
    proof {
        lemma_mod_bound(ad as int, 720000000);
    }
    let m = ad % FULL_TURN;
    m as i64
}

/// Twice the coordinate, reduced so that it indexes the half-microdegree tables.
fn double_mod(x: i64) -> (r: i64)
    ensures
        r == 2 * ((x as int) % 360000000),
        0 <= r < 720000000,
{
    let m: i64 = match x.checked_rem_euclid(360000000) {
        Some(v) => v,
        None => 0,
    };
    proof {
        lemma_mod_bound(x as int, 360000000);
    }
    2 * m
}

/// The square root, in Q60, of a clamped haversine value.
fn sqrt_h(h: i128) -> (y: i128)
    requires
        0 <= h <= 576460752303423488,
    ensures
        y == sqrt_floor(h as int * 1152921504606846976),
        0 <= y <= 815238614083298888,
{
    let n = (h as u128) * 1152921504606846976u128;
    proof {
        assert((h as u128) * 1152921504606846976u128 == h as int * 1152921504606846976int)
            by (nonlinear_arith)
            requires
                0 <= h <= 576460752303423488,
        ;
    }
    let y = sqrtq(n);
    proof {
        assert(y as int * y as int <= n as int);
        assert(n as int <= 664613997892457936451903530140172288int) by (nonlinear_arith)
            requires
                n as int == h as int * 1152921504606846976int,
                0 <= h <= 576460752303423488,
        ;
        assert(y <= 815238614083298888) by (nonlinear_arith)
            requires
                y as int * y as int <= 664613997892457936451903530140172288int,
                0 <= y,
        ;
    }
    y as i128
}

/// Great-circle distance in millimetres between two quantized points.
///
/// The result equals `distance_spec` exactly and never exceeds half the
/// Earth's circumference.
pub fn distance_mm(a: Point, b: Point) -> (r: u64)
    ensures
        r == distance_spec(a, b),
        r <= DISTANCE_CAP_MM,
{
    let dlat = reduce_diff(a.1, b.1);
    let dlon = reduce_diff(a.0, b.0);
    let (sp, _unused_cp) = sincos_h(dlat);
    let (sl, _unused_cl) = sincos_h(dlon);
    let (_unused_s1, c1) = sincos_h(double_mod(a.1));
    let (_unused_s2, c2) = sincos_h(double_mod(b.1));
    let h0 = sqq(sp) + tmul(tmul(c1, c2), sqq(sl));
    let h = if h0 < 0 {
        0
    } else if h0 > Q60 {
        Q60
    } else {
        h0
    };
    let t: i128 = if 2 * h <= Q60 {
        asin_q60(sqrt_h(h))
    } else {
        HALF_PI_Q60 - asin_q60(sqrt_h(Q60 - h))
    };
    proof {
        lemma_mul_nonnegative(12742017600, t as int);
        lemma_div_pos_is_pos(12742017600 * t as int, 1152921504606846976);
        lemma_mul_inequality(t as int, 1811004864519280640, 12742017600);
        assert(t as int * 12742017600 == 12742017600 * t as int);
        assert(1811004864519280640int * 12742017600 == 12742017600int * 1811004864519280640);
        lemma_div_is_ordered(
            12742017600 * t as int,
            12742017600int * 1811004864519280640,
            1152921504606846976,
        );
        assert(12742017600int * 1811004864519280640 / 1152921504606846976int == 20015114442);
    }
    let d = (R2_MM * t) / Q60;
    d as u64
}

// ---------------------------------------------------------------------------
// Laws of the distance
// ---------------------------------------------------------------------------

/// The distance from any point to itself is zero.
pub proof fn lemma_distance_zero(a: Point)
    ensures
        distance_spec(a, a) == 0,
{
    assert(abs_spec(a.1 - a.1) % 720000000 == 0);
    assert(abs_spec(a.0 - a.0) % 720000000 == 0);
    let z = sincos_spec(0);
    assert(conv_spec(0) == 0);
    assert(mulq_spec(0, 0) == 0);
    assert(sin_poly_spec(0) == 0);
    assert(z.0 == 0);
    let sp = sincos_spec(abs_spec(a.1 - a.1) % 720000000).0;
    let sl = sincos_spec(abs_spec(a.0 - a.0) % 720000000).0;
    assert(sp == 0 && sl == 0);
    let c1 = sincos_spec(2 * ((a.1 as int) % 360000000)).1;
    let cc = tmul_spec(c1, c1);
    assert(tmul_spec(cc, mulq_spec(0, 0)) == 0) by {
        assert(mulq_spec(0, 0) == 0);
        assert(cc * 0 == 0);
    }
    assert(hav_spec(a, a) == 0);
    assert(sqrt_floor(0) == 0) by {
        lemma_sqrt_unique(0, 0);
    }
    assert(asin_spec(0) == 0) by {
        assert(mulq_spec(0, 0) == 0);
        assert(clamp_t_spec(0) == 0);
        assert(sin_poly_spec(0) == 0);
        assert(newton_step_spec(0, 0) == 0) by {
            let den = cos_poly_spec(0);
            assert((0int * 1152921504606846976) / den == 0) by {
                assert(0int * 1152921504606846976 == 0);
                if den != 0 {
                    lemma_div_basics(den);
                }
            }
        }
    }
    assert(distance_spec(a, a) == (12742017600int * 0) / 1152921504606846976int);
}

/// The distance is symmetric in its two points.
pub proof fn lemma_distance_symmetric(a: Point, b: Point)
    ensures
        distance_spec(a, b) == distance_spec(b, a),
{
    assert(abs_spec(b.1 - a.1) == abs_spec(a.1 - b.1));
    assert(abs_spec(b.0 - a.0) == abs_spec(a.0 - b.0));
    let c1 = sincos_spec(2 * ((a.1 as int) % 360000000)).1;
    let c2 = sincos_spec(2 * ((b.1 as int) % 360000000)).1;
    assert(tmul_spec(c1, c2) == tmul_spec(c2, c1)) by {
        assert(c1 * c2 == c2 * c1);
    }
    assert(hav_spec(a, b) == hav_spec(b, a));
}

/// The distance is never negative.
pub proof fn lemma_distance_nonnegative(a: Point, b: Point)
    ensures
        distance_spec(a, b) >= 0,
{
    let h = hav_spec(a, b);
    assert(0 <= h <= 1152921504606846976);
    let t = if 2 * h <= 1152921504606846976 {
        asin_spec(sqrt_floor(h * 1152921504606846976))
    } else {
        1811004864519280640 - asin_spec(
            sqrt_floor((1152921504606846976 - h) * 1152921504606846976),
        )
    };
    assert(t >= 0) by {
        assert(forall|y: int| 0 <= #[trigger] asin_spec(y) <= 910807988639409152) by {
            assert(forall|t0: int| 0 <= #[trigger] clamp_t_spec(t0) <= 910807988639409152);
        }
    }
    lemma_mul_nonnegative(12742017600, t);
    lemma_div_pos_is_pos(12742017600 * t, 1152921504606846976);
}

/// A one-degree step in both coordinates at the equator measures about
/// 157 km: between 156.5 and 157.5 km.
#[verifier::spinoff_prover]
#[verifier::rlimit(100)]
pub proof fn lemma_distance_equator_step()
    ensures
        156500000 < distance_spec((0i64, 0i64), (1000000i64, 1000000i64))
            < 157500000,
{
    let a: Point = (0i64, 0i64);
    let b: Point = (1000000i64, 1000000i64);
    assert(conv_spec(1000000) == 10061138136218225);
    assert(mulq_spec(10061138136218225, 10061138136218225) == 87799993487486);
    assert(mulq_spec(87799993487486, 1152920941786375903) / 110 == 798181369329);
    assert(mulq_spec(87799993487486, 1152920706425477647) / 72 == 1219443509756);
    assert(mulq_spec(87799993487486, 1152920285163337220) / 42 == 2090473824322);
    assert(mulq_spec(87799993487486, 1152919414133022654) / 20 == 4389991714440);
    assert(mulq_spec(87799993487486, 1152917114615132536) / 6 == 14633276528416);
    assert(mulq_spec(10061138136218225, 1152906871330318560) == 10061010436790337);
    assert(sin_poly_spec(10061138136218225) == 10061010436790337);
    assert(mulq_spec(87799993487486, 1152920839455381162) / 90 == 975554920370);
    assert(mulq_spec(87799993487486, 1152920529051926606) / 56 == 1567855699905);
    assert(mulq_spec(87799993487486, 1152919936751147071) / 30 == 2926662469614);
    assert(mulq_spec(87799993487486, 1152918577944377362) / 12 == 7316647550782);
    assert(mulq_spec(87799993487486, 1152914187959296194) / 2 == 43899718146455);
    assert(cos_poly_spec(10061138136218225) == 1152877604888700521);
    assert(sincos_spec(1000000).0 == 10061010436790337);
    assert(conv_spec(0) == 0);
    assert(mulq_spec(0, 0) == 0);
    assert(mulq_spec(0, 1152921504606846976) / 110 == 0);
    assert(mulq_spec(0, 1152921504606846976) / 72 == 0);
    assert(mulq_spec(0, 1152921504606846976) / 42 == 0);
    assert(mulq_spec(0, 1152921504606846976) / 20 == 0);
    assert(mulq_spec(0, 1152921504606846976) / 6 == 0);
    assert(mulq_spec(0, 1152921504606846976) == 0);
    assert(sin_poly_spec(0) == 0);
    assert(mulq_spec(0, 1152921504606846976) / 90 == 0);
    assert(mulq_spec(0, 1152921504606846976) / 56 == 0);
    assert(mulq_spec(0, 1152921504606846976) / 30 == 0);
    assert(mulq_spec(0, 1152921504606846976) / 12 == 0);
    assert(mulq_spec(0, 1152921504606846976) / 2 == 0);
    assert(cos_poly_spec(0) == 1152921504606846976);
    assert(sincos_spec(0).1 == 1152921504606846976);
    assert(conv_spec(2000000) == 20122276272436450);
    assert(mulq_spec(20122276272436450, 20122276272436450) == 351199973949947);
    assert(mulq_spec(351199973949947, 1152919253324962682) / 110 == 3192720801547);
    assert(mulq_spec(351199973949947, 1152918311886045429) / 72 == 4877763908216);
    assert(mulq_spec(351199973949947, 1152916626842938760) / 42 == 8361868764240);
    assert(mulq_spec(351199973949947, 1152913142738082736) / 20 == 17559871338952);
    assert(mulq_spec(351199973949947, 1152903944735508024) / 6 == 58532437484541);
    assert(mulq_spec(20122276272436450, 1152862972169362435) == 20121254688683127);
    assert(sin_poly_spec(20122276272436450) == 20121254688683127);
    assert(mulq_spec(351199973949947, 1152918844000983719) / 90 == 3902212927589);
    assert(mulq_spec(351199973949947, 1152917602393919387) / 56 == 6271406879784);
    assert(mulq_spec(351199973949947, 1152915233199967192) / 30 == 11706602119005);
    assert(mulq_spec(351199973949947, 1152909798004727971) / 12 == 29266367326251);
    assert(mulq_spec(351199973949947, 1152892238239520725) / 2 == 175595529452322);
    assert(cos_poly_spec(20122276272436450) == 1152745909077394654);
    assert(sincos_spec(2000000).1 == 1152745909077394654);
    assert(abs_spec(b.1 - a.1) % 720000000 == 1000000);
    assert(abs_spec(b.0 - a.0) % 720000000 == 1000000);
    assert(2 * ((a.1 as int) % 360000000) == 0);
    assert(2 * ((b.1 as int) % 360000000) == 2000000);
    assert(mulq_spec(10061010436790337, 10061010436790337) == 87797764726161);
    assert(tmul_spec(1152921504606846976, 1152745909077394654) == 1152745909077394654);
    assert(tmul_spec(1152745909077394654, 87797764726161) == 87784392701335);
    assert(hav_spec(a, b) == 175582157427496);
    lemma_sqrt_unique(202432445123424960548415886852096, 14227875636349404);
    assert(sqrt_floor(175582157427496int * 1152921504606846976) == 14227875636349404);
    assert(mulq_spec(14227875636349404, 14227875636349404) == 175582157427495);
    assert(mulq_spec(175582157427495, 14227875636349404) == 2166809353332);
    assert(mulq_spec(2166809353332, 175582157427495) == 329990428);
    assert(clamp_t_spec(14227875636349404int + 2166809353332int / 6 + 3int * 329990428 / 40) == 14228236795990908);
    assert(mulq_spec(14228236795990908, 14228236795990908) == 175591071476998);
    assert(mulq_spec(175591071476998, 1152920379023055457) / 110 == 1596280909540);
    assert(mulq_spec(175591071476998, 1152919908325937436) / 72 == 2438761505025);
    assert(mulq_spec(175591071476998, 1152919065845341951) / 42 == 4180730953600);
    assert(mulq_spec(175591071476998, 1152917323875893376) / 20 == 8779521737379);
    assert(mulq_spec(175591071476998, 1152912725085109597) / 6 == 29264955724543);
    assert(mulq_spec(14228236795990908, 1152892239651122433) == 14227875636347160);
    assert(sin_poly_spec(14228236795990908) == 14227875636347160);
    assert(mulq_spec(175591071476998, 1152920174371456999) / 90 == 1951009654231);
    assert(mulq_spec(175591071476998, 1152919553597192745) / 56 == 3135549541720);
    assert(mulq_spec(175591071476998, 1152918369057305256) / 30 == 5853019797657);
    assert(mulq_spec(175591071476998, 1152915651587049319) / 12 == 14632515004697);
    assert(mulq_spec(175591071476998, 1152906872091842279) / 2 == 87794421465333);
    assert(cos_poly_spec(14228236795990908) == 1152833710185381643);
    assert((2244int * 1152921504606846976) / 1152833710185381643 == 2244);
    assert(newton_step_spec(14227875636349404, 14228236795990908) == 14228236795993152);
    assert(clamp_t_spec(newton_step_spec(14227875636349404, 14228236795990908)) == 14228236795993152);
    assert(mulq_spec(14228236795993152, 14228236795993152) == 175591071477053);
    assert(mulq_spec(175591071477053, 1152920379023055457) / 110 == 1596280909541);
    assert(mulq_spec(175591071477053, 1152919908325937435) / 72 == 2438761505026);
    assert(mulq_spec(175591071477053, 1152919065845341950) / 42 == 4180730953602);
    assert(mulq_spec(175591071477053, 1152917323875893374) / 20 == 8779521737382);
    assert(mulq_spec(175591071477053, 1152912725085109594) / 6 == 29264955724552);
    assert(mulq_spec(14228236795993152, 1152892239651122424) == 14227875636349404);
    assert(sin_poly_spec(14228236795993152) == 14227875636349404);
    assert(mulq_spec(175591071477053, 1152920174371456999) / 90 == 1951009654232);
    assert(mulq_spec(175591071477053, 1152919553597192744) / 56 == 3135549541721);
    assert(mulq_spec(175591071477053, 1152918369057305255) / 30 == 5853019797659);
    assert(mulq_spec(175591071477053, 1152915651587049317) / 12 == 14632515004701);
    assert(mulq_spec(175591071477053, 1152906872091842275) / 2 == 87794421465361);
    assert(cos_poly_spec(14228236795993152) == 1152833710185381615);
    assert((0int * 1152921504606846976) / 1152833710185381615 == 0);
    assert(newton_step_spec(14227875636349404, 14228236795993152) == 14228236795993152);
    assert(clamp_t_spec(newton_step_spec(14227875636349404, 14228236795993152)) == 14228236795993152);
    assert((0int * 1152921504606846976) / 1152833710185381615 == 0);
    assert(newton_step_spec(14227875636349404, 14228236795993152) == 14228236795993152);
    assert(clamp_t_spec(newton_step_spec(14227875636349404, 14228236795993152)) == 14228236795993152);
    assert(asin_spec(14227875636349404) == 14228236795993152);
    assert(distance_spec(a, b) == (12742017600int * 14228236795993152) / 1152921504606846976);
    assert(distance_spec(a, b) == 157249598);
}

/// The two inlet-mouth coordinate pairs near Vancouver lie about 19 km
/// apart: between 18.5 and 19.5 km.
#[verifier::spinoff_prover]
#[verifier::rlimit(100)]
pub proof fn lemma_distance_vancouver_pair()
    ensures
        18500000 < distance_spec((-122883000i64, 49467800i64), (-122940000i64, 49298900i64))
            < 19500000,
{
    let a: Point = (-122883000i64, 49467800i64);
    let b: Point = (-122940000i64, 49298900i64);
    assert(conv_spec(168900) == 1699326231207258);
    assert(mulq_spec(1699326231207258, 1699326231207258) == 2504688852216);
    assert(mulq_spec(2504688852216, 1152921488551149206) / 110 == 22769898339);
    assert(mulq_spec(2504688852216, 1152921481836948637) / 72 == 34787344482);
    assert(mulq_spec(2504688852216, 1152921469819502494) / 42 == 59635447062);
    assert(mulq_spec(2504688852216, 1152921444971399914) / 20 == 125234436132);
    assert(mulq_spec(2504688852216, 1152921379372410844) / 6 == 417448096691);
    assert(mulq_spec(1699326231207258, 1152921087158750285) == 1699325615917753);
    assert(sin_poly_spec(1699326231207258) == 1699325615917753);
    assert(mulq_spec(2504688852216, 1152921485631931429) / 90 == 27829875677);
    assert(mulq_spec(2504688852216, 1152921476776971299) / 56 == 44726585567);
    assert(mulq_spec(2504688852216, 1152921459880261409) / 30 == 83489625168);
    assert(mulq_spec(2504688852216, 1152921421117221808) / 12 == 208724055903);
    assert(mulq_spec(2504688852216, 1152921295882791073) / 2 == 1252344199384);
    assert(cos_poly_spec(1699326231207258) == 1152920252262647592);
    assert(sincos_spec(168900).0 == 1699325615917753);
    assert(conv_spec(57000) == 573484873764438);
    assert(mulq_spec(573484873764438, 573484873764438) == 285262178840);
    assert(mulq_spec(285262178840, 1152921502778243266) / 110 == 2593292530);
    assert(mulq_spec(285262178840, 1152921502013554446) / 72 == 3961974697);
    assert(mulq_spec(285262178840, 1152921500644872279) / 42 == 6791956615);
    assert(mulq_spec(285262178840, 1152921497814890361) / 20 == 14263108857);
    assert(mulq_spec(285262178840, 1152921490343738119) / 6 == 47543695885);
    assert(mulq_spec(573484873764438, 1152921457063151091) == 573484850115308);
    assert(sin_poly_spec(573484873764438) == 573484850115308);
    assert(mulq_spec(285262178840, 1152921502445769864) / 90 == 3169579758);
    assert(mulq_spec(285262178840, 1152921501437267218) / 56 == 5093967465);
    assert(mulq_spec(285262178840, 1152921499512879511) / 30 == 9508739252);
    assert(mulq_spec(285262178840, 1152921495098107724) / 12 == 23771848040);
    assert(mulq_spec(285262178840, 1152921480834998936) / 2 == 142631086479);
    assert(cos_poly_spec(573484873764438) == 1152921361975760497);
    assert(sincos_spec(57000).0 == 573484850115308);
    assert(conv_spec(81064400) == 815600126329648717);
    assert(mulq_spec(815600126329648717, 815600126329648717) == 576972121181638710);
    assert(mulq_spec(576972121181638710, 1149222965368503139) / 110 == 5228374646415631);
    assert(mulq_spec(576972121181638710, 1147693129960431345) / 72 == 7977161317440758);
    assert(mulq_spec(576972121181638710, 1144944343289406218) / 42 == 13642381007581832);
    assert(mulq_spec(576972121181638710, 1139279123599265144) / 20 == 28507243985581678);
    assert(mulq_spec(576972121181638710, 1124414260621265298) / 6 == 93784309172427843);
    assert(mulq_spec(815600126329648717, 1059137195434419133) == 749255198159664854);
    assert(sin_poly_spec(815600126329648717) == 749255198159664854);
    assert(mulq_spec(576972121181638710, 1148550503688804259) / 90 == 6386496466677854);
    assert(mulq_spec(576972121181638710, 1146535008140169122) / 56 == 10246000719110140);
    assert(mulq_spec(576972121181638710, 1142675503887736836) / 30 == 19061485876416417);
    assert(mulq_spec(576972121181638710, 1133860018730430559) / 12 == 47286076973141165);
    assert(mulq_spec(576972121181638710, 1105635427633705811) / 2 == 276654054671710803);
    assert(cos_poly_spec(815600126329648717) == 876267449935136173);
    assert(sincos_spec(98935600).1 == 749255198159664854);
    assert(conv_spec(81402200) == 818998778792063234);
    assert(mulq_spec(818998778792063234, 818998778792063234) == 581790691718968062);
    assert(mulq_spec(581790691718968062, 1149192077095827950) / 110 == 5271897607946331);
    assert(mulq_spec(581790691718968062, 1147649606998900645) / 72 == 8043477375121078);
    assert(mulq_spec(581790691718968062, 1144878027231725898) / 42 == 13755518289333652);
    assert(mulq_spec(581790691718968062, 1139165986317513324) / 20 == 28742467050625026);
    assert(mulq_spec(581790691718968062, 1124179037556221950) / 6 == 94547763697469958);
    assert(mulq_spec(818998778792063234, 1058373740909377018) == 751835053684728987);
    assert(sin_poly_spec(818998778792063234) == 751835053684728987);
    assert(mulq_spec(581790691718968062, 1148513999366551764) / 90 == 6439628480732644);
    assert(mulq_spec(581790691718968062, 1146481876126114332) / 56 == 10331091199453827);
    assert(mulq_spec(581790691718968062, 1142590413407393149) / 30 == 19219246187809119);
    assert(mulq_spec(581790691718968062, 1133702258419037857) / 12 == 47674351527360927);
    assert(mulq_spec(581790691718968062, 1105247153079486049) / 2 == 278866559059373617);
    assert(cos_poly_spec(818998778792063234) == 874054945547473359);
    assert(sincos_spec(98597800).1 == 751835053684728987);
    assert(abs_spec(b.1 - a.1) % 720000000 == 168900);
    assert(abs_spec(b.0 - a.0) % 720000000 == 57000);
    assert(2 * ((a.1 as int) % 360000000) == 98935600);
    assert(2 * ((b.1 as int) % 360000000) == 98597800);
    assert(mulq_spec(1699325615917753, 1699325615917753) == 2504687038428);
    assert(mulq_spec(573484850115308, 573484850115308) == 285262155313);
    assert(tmul_spec(749255198159664854, 751835053684728987) == 488599024201589565);
    assert(tmul_spec(488599024201589565, 285262155313) == 120891847511);
    assert(hav_spec(a, b) == 2625578885939);
    lemma_sqrt_unique(3027086359640760939437531070464, 1739852395935000);
    assert(sqrt_floor(2625578885939int * 1152921504606846976) == 1739852395935000);
    assert(mulq_spec(1739852395935000, 1739852395935000) == 2625578885938);
    assert(mulq_spec(2625578885938, 1739852395935000) == 3962212255);
    assert(mulq_spec(3962212255, 2625578885938) == 9023);
    assert(clamp_t_spec(1739852395935000int + 3962212255int / 6 + 3int * 9023 / 40) == 1739853056304385);
    assert(mulq_spec(1739853056304385, 1739853056304385) == 2625580879041);
    assert(mulq_spec(2625580879041, 1152921487776200316) / 110 == 23868916733);
    assert(mulq_spec(2625580879041, 1152921480737930243) / 72 == 36466400342);
    assert(mulq_spec(2625580879041, 1152921468140446634) / 42 == 62513828476);
    assert(mulq_spec(2625580879041, 1152921442093018500) / 20 == 131279036833);
    assert(mulq_spec(2625580879041, 1152921373327810143) / 6 == 437596763345);
    assert(mulq_spec(1739853056304385, 1152921067010083631) == 1739852395934998);
    assert(sin_poly_spec(1739853056304385) == 1739852395934998);
    assert(mulq_spec(2625580879041, 1152921484716082741) / 90 == 29173120374);
    assert(mulq_spec(2625580879041, 1152921475433726602) / 56 == 46885371653);
    assert(mulq_spec(2625580879041, 1152921457721475323) / 30 == 87519359075);
    assert(mulq_spec(2625580879041, 1152921417087487901) / 12 == 218798389977);
    assert(mulq_spec(2625580879041, 1152921285808456999) / 2 == 1312790190382);
    assert(cos_poly_spec(1739853056304385) == 1152920191816656594);
    assert((2int * 1152921504606846976) / 1152920191816656594 == 2);
    assert(newton_step_spec(1739852395935000, 1739853056304385) == 1739853056304387);
    assert(clamp_t_spec(newton_step_spec(1739852395935000, 1739853056304385)) == 1739853056304387);
    assert(mulq_spec(1739853056304387, 1739853056304387) == 2625580879041);
    assert(mulq_spec(2625580879041, 1152921487776200316) / 110 == 23868916733);
    assert(mulq_spec(2625580879041, 1152921480737930243) / 72 == 36466400342);
    assert(mulq_spec(2625580879041, 1152921468140446634) / 42 == 62513828476);
    assert(mulq_spec(2625580879041, 1152921442093018500) / 20 == 131279036833);
    assert(mulq_spec(2625580879041, 1152921373327810143) / 6 == 437596763345);
    assert(mulq_spec(1739853056304387, 1152921067010083631) == 1739852395935000);
    assert(sin_poly_spec(1739853056304387) == 1739852395935000);
    assert(mulq_spec(2625580879041, 1152921484716082741) / 90 == 29173120374);
    assert(mulq_spec(2625580879041, 1152921475433726602) / 56 == 46885371653);
    assert(mulq_spec(2625580879041, 1152921457721475323) / 30 == 87519359075);
    assert(mulq_spec(2625580879041, 1152921417087487901) / 12 == 218798389977);
    assert(mulq_spec(2625580879041, 1152921285808456999) / 2 == 1312790190382);
    assert(cos_poly_spec(1739853056304387) == 1152920191816656594);
    assert((0int * 1152921504606846976) / 1152920191816656594 == 0);
    assert(newton_step_spec(1739852395935000, 1739853056304387) == 1739853056304387);
    assert(clamp_t_spec(newton_step_spec(1739852395935000, 1739853056304387)) == 1739853056304387);
    assert((0int * 1152921504606846976) / 1152920191816656594 == 0);
    assert(newton_step_spec(1739852395935000, 1739853056304387) == 1739853056304387);
    assert(clamp_t_spec(newton_step_spec(1739852395935000, 1739853056304387)) == 1739853056304387);
    assert(asin_spec(1739852395935000) == 1739853056304387);
    assert(distance_spec(a, b) == (12742017600int * 1739853056304387) / 1152921504606846976);
    assert(distance_spec(a, b) == 19228749);
}


} // verus!
