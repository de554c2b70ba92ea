//! Fixed-point scalars.
//!
//! A real number `v` is represented by the integer `v * FX_ONE`, rounded
//! toward zero. All derived quantities in the crate state their contracts
//! over these scaled integers; `div_t` and `sqrt_i` are the spec-level
//! mirrors of the truncating division and integer square root used by the
//! executable code.

use vstd::prelude::*;
use vstd::arithmetic::div_mod::*;

verus! {

/// The scale of the fixed-point representation: the integer standing for 1.
pub const FX_ONE: i64 = 65536;

/// One full turn (2*pi), scaled by `FX_ONE` and rounded to the nearest integer.
pub const FX_TAU: i64 = 411775;

/// Half a turn (pi), scaled by `FX_ONE`.
pub const FX_PI: i64 = 205887;

/// A quarter turn (pi / 2), scaled by `FX_ONE`.
pub const FX_HALF_PI: i64 = 102944;

/// Truncating (round-toward-zero) division, the semantics of the executable
/// division used throughout the crate. Meaningful for `b >= 1`.
pub open spec fn div_t(a: int, b: int) -> int
    recommends
        b >= 1,
{
    if a >= 0 {
        a / b
    } else {
        -((-a) / b)
    }
}

/// The magnitude of an integer.
pub open spec fn abs_i(a: int) -> int {
    if a >= 0 {
        a
    } else {
        -a
    }
}

/// Scaling a truncated quotient back up never exceeds the dividend's magnitude.
pub proof fn lemma_div_t_mul_le(a: int, b: int)
    requires
        b >= 1,
    ensures
        abs_i(div_t(a, b)) * b <= abs_i(a),
        a >= 0 ==> div_t(a, b) >= 0,
        a <= 0 ==> div_t(a, b) <= 0,
{
    if a >= 0 {
        lemma_fundamental_div_mod(a, b);
        lemma_mod_bound(a, b);
        lemma_div_pos_is_pos(a, b);
        let q = a / b;
        assert(q * b == b * q) by (nonlinear_arith);
    } else {
        lemma_fundamental_div_mod(-a, b);
        lemma_mod_bound(-a, b);
        lemma_div_pos_is_pos(-a, b);
        let q = (-a) / b;
        assert(q * b == b * q) by (nonlinear_arith);
    }
}

/// Truncated division shrinks magnitudes: a bound on the dividend bounds the
/// quotient.
pub proof fn lemma_div_t_abs_le(a: int, b: int, m: int)
    requires
        b >= 1,
        abs_i(a) <= m,
    ensures
        abs_i(div_t(a, b)) <= m,
        -m <= div_t(a, b) <= m,
{
    lemma_div_t_mul_le(a, b);
    let q = div_t(a, b);
    assert(abs_i(q) * 1 <= abs_i(q) * b) by (nonlinear_arith)
        requires
            b >= 1,
            abs_i(q) >= 0,
    ;
}

/// If the dividend is at most `k` times the divisor in magnitude, the
/// truncated quotient is at most `k` in magnitude.
pub proof fn lemma_div_t_shrink(a: int, b: int, k: int)
    requires
        b >= 1,
        k >= 0,
        abs_i(a) <= k * b,
    ensures
        abs_i(div_t(a, b)) <= k,
{
    lemma_div_t_mul_le(a, b);
    let q = div_t(a, b);
    if abs_i(q) > k {
        assert((k + 1) * b <= abs_i(q) * b) by (nonlinear_arith)
            requires
                k + 1 <= abs_i(q),
                b >= 0,
        ;
        assert((k + 1) * b == k * b + b) by (nonlinear_arith);
        assert(false);
    }
}

/// A product of bounded factors is bounded by the product of the bounds.
pub proof fn lemma_mul_bound(a: int, b: int, ma: int, mb: int)
    by (nonlinear_arith)
    requires
        -ma <= a <= ma,
        -mb <= b <= mb,
        0 <= ma,
        0 <= mb,
    ensures
        -(ma * mb) <= a * b <= ma * mb,
{
}

/// The integer square root: the largest `r` with `r * r <= n` (0 for `n <= 0`).
pub open spec fn sqrt_i(n: int) -> int
    decreases n,
{
    if n <= 0 {
        0
    } else {
        let r = sqrt_i(n - 1);
        if (r + 1) * (r + 1) <= n {
            r + 1
        } else {
            r
        }
    }
}

/// `sqrt_i` is sound: it brackets `n` between consecutive squares.
pub proof fn lemma_sqrt_i_sound(n: int)
    requires
        n >= 0,
    ensures
        sqrt_i(n) >= 0,
        sqrt_i(n) * sqrt_i(n) <= n,
        n < (sqrt_i(n) + 1) * (sqrt_i(n) + 1),
    decreases n,
{
    if n == 0 {
    } else {
        lemma_sqrt_i_sound(n - 1);
        let r = sqrt_i(n - 1);
        if (r + 1) * (r + 1) <= n {
            assert((r + 2) * (r + 2) > n) by (nonlinear_arith)
                requires
                    n - 1 < (r + 1) * (r + 1),
                    r >= 0,
            ;
        }
    }
}

/// Consecutive-square bracketing pins the integer square root down uniquely.
pub proof fn lemma_sqrt_i_unique(n: int, r: int)
    requires
        n >= 0,
        r >= 0,
        r * r <= n,
        n < (r + 1) * (r + 1),
    ensures
        r == sqrt_i(n),
{
    lemma_sqrt_i_sound(n);
    let s = sqrt_i(n);
    if r < s {
        assert((r + 1) * (r + 1) <= s * s) by (nonlinear_arith)
            requires
                0 <= r,
                r + 1 <= s,
        ;
    }
    if s < r {
        assert((s + 1) * (s + 1) <= r * r) by (nonlinear_arith)
            requires
                0 <= s,
                s + 1 <= r,
        ;
    }
}

/// Squares are never negative.
pub proof fn lemma_square_nonneg(a: int)
    by (nonlinear_arith)
    ensures
        a * a >= 0,
        a != 0 ==> a * a >= 1,
        a * a == abs_i(a) * abs_i(a),
{
}

/// The integer square root is monotone.
pub proof fn lemma_sqrt_i_mono(a: int, b: int)
    requires
        0 <= a <= b,
    ensures
        sqrt_i(a) <= sqrt_i(b),
{
    lemma_sqrt_i_sound(a);
    lemma_sqrt_i_sound(b);
    let ra = sqrt_i(a);
    let rb = sqrt_i(b);
    if rb < ra {
        assert((rb + 1) * (rb + 1) <= ra * ra) by (nonlinear_arith)
            requires
                0 <= rb,
                rb + 1 <= ra,
        ;
    }
}

/// The integer square root of a perfect square is exact.
pub proof fn lemma_sqrt_i_square(a: int)
    requires
        a >= 0,
    ensures
        sqrt_i(a * a) == a,
{
    lemma_square_nonneg(a);
    assert(a * a < (a + 1) * (a + 1)) by (nonlinear_arith)
        requires
            a >= 0,
    ;
    lemma_sqrt_i_unique(a * a, a);
}

/// Truncating division on wide integers; the executable counterpart of
/// `div_t`. The magnitude cap leaves headroom so that negation cannot
/// overflow.
pub fn div_trunc(a: i128, b: i128) -> (r: i128)
    requires
        b >= 1,
        abs_i(a as int) <= 0x4000_0000_0000_0000_0000_0000_0000_0000,
    ensures
        r as int == div_t(a as int, b as int),
        abs_i(r as int) <= abs_i(a as int),
{
    proof {
        lemma_div_t_abs_le(a as int, b as int, abs_i(a as int));
    }
    if a >= 0 {
        let q: u128 = (a as u128) / (b as u128);
        q as i128
    } else {
        let m: u128 = ((-a) as u128) / (b as u128);
        -(m as i128)
    }
}

/// The integer square root of a wide unsigned integer, by bisection.
pub fn isqrt_u128(n: u128) -> (r: u128)
    ensures
        r as int == sqrt_i(n as int),
        r * r <= n,
{
    let mut lo: u128 = 0;
    let mut hi: u128 = 0x1_0000_0000_0000_0000;
    proof {
        assert((hi as int) * (hi as int) > n as int) by (nonlinear_arith)
            requires
                hi as int == 0x1_0000_0000_0000_0000,
                n as int <= 0xffff_ffff_ffff_ffff_ffff_ffff_ffff_ffff,
        ;
    }
    while lo + 1 < hi
        invariant
            0 <= lo < hi <= 0x1_0000_0000_0000_0000,
            (lo as int) * (lo as int) <= n as int,
            (n as int) < (hi as int) * (hi as int),
        decreases hi - lo,
    {
        let mid: u128 = lo + (hi - lo) / 2;
        proof {
            lemma_mul_bound(mid as int, mid as int, 0xffff_ffff_ffff_ffff, 0xffff_ffff_ffff_ffff);
        }
        if mid * mid <= n {
            lo = mid;
        } else {
            hi = mid;
        }
    }
    proof {
        lemma_sqrt_i_unique(n as int, lo as int);
    }
    lo
}

/// Clamping into an interval.
pub open spec fn clamp_i(a: int, lo: int, hi: int) -> int {
    if a < lo {
        lo
    } else if a > hi {
        hi
    } else {
        a
    }
}

/// Reduces an angle into one turn: the Euclidean remainder by `FX_TAU`.
pub fn emod_tau(x: i64) -> (r: i64)
    requires
        abs_i(x as int) <= 0x100_0000_0000,
    ensures
        r as int == (x as int) % (FX_TAU as int),
        0 <= r < FX_TAU,
{
    let off: i64 = x + FX_TAU * 4194304;
    proof {
        lemma_mod_multiples_vanish(4194304, x as int, FX_TAU as int);
        lemma_mod_bound(off as int, FX_TAU as int);
    }
    ((off as u64) % (FX_TAU as u64)) as i64
}

/// The odd Taylor polynomial of the sine on a quarter turn, in fixed point:
/// `u - u^3/6 + u^5/120` with truncating steps.
pub open spec fn sin_poly(u: int) -> int {
    let u2 = div_t(u * u, FX_ONE as int);
    let u3 = div_t(u2 * u, FX_ONE as int);
    let u5 = div_t(u3 * u2, FX_ONE as int);
    u - div_t(u3, 6) + div_t(u5, 120)
}

/// The fixed-point sine: quadrant reduction into the Taylor polynomial,
/// clamped into `[-FX_ONE, FX_ONE]`. An approximation of the real sine; the
/// contract pins the computed polynomial exactly.
pub open spec fn sin_spec(x: int) -> int {
    let m = x % (FX_TAU as int);
    let core = if m <= FX_HALF_PI {
        sin_poly(m)
    } else if m < FX_PI {
        sin_poly(FX_PI as int - m)
    } else if m - FX_PI <= FX_HALF_PI {
        -sin_poly(m - FX_PI as int)
    } else {
        -sin_poly(FX_TAU as int - m)
    };
    clamp_i(core, -(FX_ONE as int), FX_ONE as int)
}

/// The fixed-point cosine: the sine a quarter turn ahead.
pub open spec fn cos_spec(x: int) -> int {
    sin_spec(x + FX_HALF_PI as int)
}

fn sin_poly_exec(u: i64) -> (r: i64)
    requires
        0 <= u <= FX_HALF_PI,
    ensures
        r as int == sin_poly(u as int),
        abs_i(r as int) <= 0x40_0000,
{
    let uw: i128 = u as i128;
    proof {
        lemma_mul_bound(u as int, u as int, 0x20000, 0x20000);
        lemma_div_t_shrink((u as int) * (u as int), FX_ONE as int, 0x40000);
    }
    let u2 = div_trunc(uw * uw, FX_ONE as i128);
    proof {
        lemma_mul_bound(u2 as int, u as int, 0x40000, 0x20000);
        lemma_div_t_shrink((u2 as int) * (u as int), FX_ONE as int, 0x80000);
    }
    let u3 = div_trunc(u2 * uw, FX_ONE as i128);
    proof {
        lemma_mul_bound(u3 as int, u2 as int, 0x80000, 0x40000);
        lemma_div_t_shrink((u3 as int) * (u2 as int), FX_ONE as int, 0x200000);
    }
    let u5 = div_trunc(u3 * u2, FX_ONE as i128);
    proof {
        lemma_div_t_abs_le(u3 as int, 6, 0x80000);
        lemma_div_t_abs_le(u5 as int, 120, 0x200000);
    }
    let t3 = div_trunc(u3, 6);
    let t5 = div_trunc(u5, 120);
    (uw - t3 + t5) as i64
}

/// The fixed-point sine of an angle in scaled radians.
pub fn sin_fx(x: i64) -> (r: i64)
    requires
        abs_i(x as int) <= 0x100_0000_0000,
    ensures
        r as int == sin_spec(x as int),
        abs_i(r as int) <= FX_ONE as int,
{
    let m = emod_tau(x);
    let core: i64 = if m <= FX_HALF_PI {
        sin_poly_exec(m)
    } else if m < FX_PI {
        sin_poly_exec(FX_PI - m)
    } else if m - FX_PI <= FX_HALF_PI {
        -sin_poly_exec(m - FX_PI)
    } else {
        -sin_poly_exec(FX_TAU - m)
    };
    if core > FX_ONE {
        FX_ONE
    } else if core < -FX_ONE {
        -FX_ONE
    } else {
        core
    }
}

/// The fixed-point cosine of an angle in scaled radians.
pub fn cos_fx(x: i64) -> (r: i64)
    requires
        abs_i(x as int) <= 0xFF_0000_0000,
    ensures
        r as int == cos_spec(x as int),
        abs_i(r as int) <= FX_ONE as int,
{
    sin_fx(x + FX_HALF_PI)
}

} // verus!
