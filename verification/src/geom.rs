//! Geometric primitives: positions, unit-normalized directions, and rays.
//!
//! Coordinates are fixed-point reals (see `fixed`). The mathematical model of
//! every vector is `V3`, a triple of unbounded integers; each executable
//! operation states over `V3` exactly which scaled-integer vector it computes.

use vstd::prelude::*;
use vstd::arithmetic::div_mod::*;
use crate::fixed::{
    FX_ONE, abs_i, div_t, div_trunc, isqrt_u128, lemma_div_t_mul_le, lemma_div_t_shrink,
    lemma_mul_bound, lemma_sqrt_i_mono, lemma_sqrt_i_sound, lemma_sqrt_i_square,
    lemma_square_nonneg, sqrt_i,
};

verus! {

/// Bound on coordinates accepted by the geometric queries (raw units).
pub const COORD_LIMIT: i64 = 0x10_0000_0000_0000;

/// Bound on scene content: sphere centers and radii, light origins, camera
/// positions. Leaves the arithmetic of a full trace inside `COORD_LIMIT`.
pub const SCENE_LIMIT: i64 = 0x1000_0000_0000;

/// A failure of a geometric construction.
#[derive(Clone, Copy, Debug, PartialEq, Eq, Structural)]
pub enum GeomError {
    /// Normalizing a zero-length vector.
    DegenerateDirection,
    /// Building a primitive with parameters that break its invariant.
    InvalidConstruction,
}

/// The mathematical model of a vector or position: raw scaled components as
/// unbounded integers.
pub ghost struct V3 {
    pub x: int,
    pub y: int,
    pub z: int,
}

pub open spec fn v3_add(a: V3, b: V3) -> V3 {
    V3 { x: a.x + b.x, y: a.y + b.y, z: a.z + b.z }
}

pub open spec fn v3_sub(a: V3, b: V3) -> V3 {
    V3 { x: a.x - b.x, y: a.y - b.y, z: a.z - b.z }
}

pub open spec fn v3_neg(a: V3) -> V3 {
    V3 { x: -a.x, y: -a.y, z: -a.z }
}

pub open spec fn v3_zero(a: V3) -> bool {
    a.x == 0 && a.y == 0 && a.z == 0
}

pub open spec fn v3_bounded(a: V3, m: int) -> bool {
    -m <= a.x <= m && -m <= a.y <= m && -m <= a.z <= m
}

/// The raw dot product; between two vectors of scale `FX_ONE` its scale is
/// `FX_ONE * FX_ONE`.
pub open spec fn dot_raw(a: V3, b: V3) -> int {
    a.x * b.x + a.y * b.y + a.z * b.z
}

/// The raw squared length.
pub open spec fn norm_sq(a: V3) -> int {
    dot_raw(a, a)
}

/// The dot product of two fixed-point vectors, scaled back to `FX_ONE`.
pub open spec fn dot_fx(a: V3, b: V3) -> int {
    div_t(dot_raw(a, b), FX_ONE as int)
}

/// A vector scaled by the fixed-point factor `t`, each component rounded
/// toward zero.
pub open spec fn v3_scale_fx(a: V3, t: int) -> V3 {
    V3 {
        x: div_t(a.x * t, FX_ONE as int),
        y: div_t(a.y * t, FX_ONE as int),
        z: div_t(a.z * t, FX_ONE as int),
    }
}

/// The normalization of a nonzero vector: each component scaled by
/// `FX_ONE` over the integer square root of the squared length.
pub open spec fn normalize_spec(v: V3) -> V3
    recommends
        !v3_zero(v),
{
    let m = sqrt_i(norm_sq(v));
    V3 {
        x: div_t(v.x * (FX_ONE as int), m),
        y: div_t(v.y * (FX_ONE as int), m),
        z: div_t(v.z * (FX_ONE as int), m),
    }
}

/// A position in 3-D space; components are fixed-point reals.
#[derive(Clone, Copy, Debug, PartialEq, Eq, Structural)]
pub struct Point3D {
    pub x: i64,
    pub y: i64,
    pub z: i64,
}

impl View for Point3D {
    type V = V3;

    open spec fn view(&self) -> V3 {
        V3 { x: self.x as int, y: self.y as int, z: self.z as int }
    }
}

impl Point3D {
    pub fn new(x: i64, y: i64, z: i64) -> (r: Point3D)
        ensures
            r@ == (V3 { x: x as int, y: y as int, z: z as int }),
    {
        Point3D { x, y, z }
    }

    /// Component-wise sum.
    pub fn plus(&self, o: &Point3D) -> (r: Point3D)
        requires
            v3_bounded(self@, 0x2000_0000_0000_0000),
            v3_bounded(o@, 0x2000_0000_0000_0000),
        ensures
            r@ == v3_add(self@, o@),
    {
        Point3D { x: self.x + o.x, y: self.y + o.y, z: self.z + o.z }
    }

    /// Component-wise difference.
    pub fn minus(&self, o: &Point3D) -> (r: Point3D)
        requires
            v3_bounded(self@, 0x2000_0000_0000_0000),
            v3_bounded(o@, 0x2000_0000_0000_0000),
        ensures
            r@ == v3_sub(self@, o@),
    {
        Point3D { x: self.x - o.x, y: self.y - o.y, z: self.z - o.z }
    }

    /// The raw dot product, computed without loss in a wide integer.
    pub fn dot_wide(&self, o: &Point3D) -> (r: i128)
        requires
            v3_bounded(self@, 0x2000_0000_0000_0000),
            v3_bounded(o@, 0x2000_0000_0000_0000),
        ensures
            r as int == dot_raw(self@, o@),
            abs_i(r as int) <= 0xC00_0000_0000_0000_0000_0000_0000_0000,
    {
        proof {
            lemma_mul_bound(self@.x, o@.x, 0x2000_0000_0000_0000, 0x2000_0000_0000_0000);
            lemma_mul_bound(self@.y, o@.y, 0x2000_0000_0000_0000, 0x2000_0000_0000_0000);
            lemma_mul_bound(self@.z, o@.z, 0x2000_0000_0000_0000, 0x2000_0000_0000_0000);
        }
        (self.x as i128) * (o.x as i128) + (self.y as i128) * (o.y as i128) + (self.z as i128)
            * (o.z as i128)
    }

    /// The raw squared length.
    pub fn norm_sq_wide(&self) -> (r: i128)
        requires
            v3_bounded(self@, 0x2000_0000_0000_0000),
        ensures
            r as int == norm_sq(self@),
            0 <= r as int <= 0xC00_0000_0000_0000_0000_0000_0000_0000,
    {
        proof {
            lemma_square_nonneg(self@.x);
            lemma_square_nonneg(self@.y);
            lemma_square_nonneg(self@.z);
        }
        self.dot_wide(self)
    }

    /// This point scaled by the fixed-point factor `t`.
    pub fn scaled_fx(&self, t: i64) -> (r: Point3D)
        requires
            v3_bounded(self@, 4 * FX_ONE as int),
            abs_i(t as int) <= COORD_LIMIT as int,
        ensures
            r@ == v3_scale_fx(self@, t as int),
            v3_bounded(r@, 4 * abs_i(t as int)),
    {
        proof {
            lemma_mul_bound(self@.x, t as int, 4 * FX_ONE as int, COORD_LIMIT as int);
            lemma_mul_bound(self@.y, t as int, 4 * FX_ONE as int, COORD_LIMIT as int);
            lemma_mul_bound(self@.z, t as int, 4 * FX_ONE as int, COORD_LIMIT as int);
            lemma_scale_comp_bound(self@.x, t as int);
            lemma_scale_comp_bound(self@.y, t as int);
            lemma_scale_comp_bound(self@.z, t as int);
        }
        let x = div_trunc((self.x as i128) * (t as i128), FX_ONE as i128);
        let y = div_trunc((self.y as i128) * (t as i128), FX_ONE as i128);
        let z = div_trunc((self.z as i128) * (t as i128), FX_ONE as i128);
        Point3D { x: x as i64, y: y as i64, z: z as i64 }
    }

    /// The fixed-point distance between two positions.
    pub fn distance_fx(&self, o: &Point3D) -> (r: i64)
        requires
            v3_bounded(self@, 4 * COORD_LIMIT as int),
            v3_bounded(o@, 4 * COORD_LIMIT as int),
        ensures
            r as int == sqrt_i(norm_sq(v3_sub(self@, o@))),
            0 <= r as int <= 0x100_0000_0000_0000,
    {
        let d = self.minus(o);
        let ns = d.norm_sq_wide();
        let m = isqrt_u128(ns as u128);
        proof {
            lemma_mul_bound(d@.x, d@.x, 0x80_0000_0000_0000, 0x80_0000_0000_0000);
            lemma_mul_bound(d@.y, d@.y, 0x80_0000_0000_0000, 0x80_0000_0000_0000);
            lemma_mul_bound(d@.z, d@.z, 0x80_0000_0000_0000, 0x80_0000_0000_0000);
            lemma_sqrt_i_mono(ns as int, 0x100_0000_0000_0000int * 0x100_0000_0000_0000);
            lemma_sqrt_i_square(0x100_0000_0000_0000);
        }
        m as i64
    }
}

/// A direction vector guaranteed close to unit length: each component is at
/// most `FX_ONE` and the squared length is at least `(FX_ONE / 2)^2`, the
/// band that truncating normalization establishes.
#[derive(Clone, Copy, Debug, PartialEq, Eq, Structural)]
pub struct Norm3D {
    pub p: Point3D,
}

impl View for Norm3D {
    type V = V3;

    open spec fn view(&self) -> V3 {
        self.p@
    }
}

impl Norm3D {
    /// The unit band: what normalization guarantees and every consumer of a
    /// direction relies on.
    pub open spec fn wf(&self) -> bool {
        &&& v3_bounded(self@, FX_ONE as int)
        &&& norm_sq(self@) >= 0x4000_0000
    }

    /// Normalizes `v`; fails exactly on the zero vector.
    pub fn new(v: Point3D) -> (r: Result<Norm3D, GeomError>)
        requires
            v3_bounded(v@, 0x2000_0000_0000_0000),
        ensures
            match r {
                Result::Err(e) => e == GeomError::DegenerateDirection && v3_zero(v@),
                Result::Ok(n) => !v3_zero(v@) && n@ == normalize_spec(v@) && n.wf(),
            },
    {
        if v.x == 0 && v.y == 0 && v.z == 0 {
            return Result::Err(GeomError::DegenerateDirection);
        }
        let ns = v.norm_sq_wide();
        proof {
            lemma_square_nonneg(v@.x);
            lemma_square_nonneg(v@.y);
            lemma_square_nonneg(v@.z);
        }
        let m128 = isqrt_u128(ns as u128);
        proof {
            lemma_sqrt_i_sound(ns as int);
            lemma_sqrt_i_mono(ns as int, 0x4000_0000_0000_0000int * 0x4000_0000_0000_0000);
            lemma_sqrt_i_square(0x4000_0000_0000_0000);
            lemma_comp_le_sqrt(v@.x, ns as int);
            lemma_comp_le_sqrt(v@.y, ns as int);
            lemma_comp_le_sqrt(v@.z, ns as int);
        }
        let m = m128 as i128;
        proof {
            let mi = m as int;
            lemma_norm_comp_in_band(v@.x, mi);
            lemma_norm_comp_in_band(v@.y, mi);
            lemma_norm_comp_in_band(v@.z, mi);
            lemma_normalize_lower_band(v@, ns as int);
        }
        let nx = div_trunc((v.x as i128) * (FX_ONE as i128), m);
        let ny = div_trunc((v.y as i128) * (FX_ONE as i128), m);
        let nz = div_trunc((v.z as i128) * (FX_ONE as i128), m);
        Result::Ok(Norm3D { p: Point3D { x: nx as i64, y: ny as i64, z: nz as i64 } })
    }

    /// The direction with every component negated; stays in the unit band.
    pub fn neg(&self) -> (r: Norm3D)
        requires
            self.wf(),
        ensures
            r@ == v3_neg(self@),
            r.wf(),
    {
        let r = Norm3D { p: Point3D { x: -self.p.x, y: -self.p.y, z: -self.p.z } };
        proof {
            assert(norm_sq(r@) == norm_sq(self@)) by (nonlinear_arith)
                requires
                    r@.x == -self@.x,
                    r@.y == -self@.y,
                    r@.z == -self@.z,
            ;
        }
        r
    }

    /// The fixed-point dot product of two unit-band directions.
    pub fn dot(&self, o: &Norm3D) -> (r: i64)
        requires
            self.wf(),
            o.wf(),
        ensures
            r as int == dot_fx(self@, o@),
            abs_i(r as int) <= 3 * FX_ONE as int,
    {
        let d = self.p.dot_wide(&o.p);
        proof {
            lemma_mul_bound(self@.x, o@.x, FX_ONE as int, FX_ONE as int);
            lemma_mul_bound(self@.y, o@.y, FX_ONE as int, FX_ONE as int);
            lemma_mul_bound(self@.z, o@.z, FX_ONE as int, FX_ONE as int);
            lemma_div_t_shrink(d as int, FX_ONE as int, 3 * FX_ONE as int);
        }
        let q = div_trunc(d, FX_ONE as i128);
        q as i64
    }
}

/// A component of `v` never exceeds the integer square root of `v`'s squared
/// length.
proof fn lemma_comp_le_sqrt(vi: int, ns: int)
    requires
        vi * vi <= ns,
    ensures
        abs_i(vi) <= sqrt_i(ns),
{
    lemma_square_nonneg(vi);
    lemma_sqrt_i_mono(vi * vi, ns);
    lemma_sqrt_i_square(abs_i(vi));
}

/// A normalized component stays within `FX_ONE`.
proof fn lemma_norm_comp_in_band(vi: int, m: int)
    requires
        m >= 1,
        abs_i(vi) <= m,
    ensures
        abs_i(div_t(vi * (FX_ONE as int), m)) <= FX_ONE as int,
{
    assert(abs_i(vi * 65536) == abs_i(vi) * 65536) by (nonlinear_arith);
    assert(abs_i(vi) * 65536 <= 65536 * m) by (nonlinear_arith)
        requires
            abs_i(vi) <= m,
    ;
    lemma_div_t_shrink(vi * (FX_ONE as int), m, FX_ONE as int);
}

/// The dominant component of a normalized vector keeps at least half the
/// scale: the divisor is at most twice that component.
proof fn lemma_dominant_comp(vi: int, ns: int)
    requires
        abs_i(vi) >= 1,
        vi * vi <= ns,
        ns <= 3 * (vi * vi),
    ensures
        abs_i(div_t(vi * (FX_ONE as int), sqrt_i(ns))) >= 32768,
{
    let a = abs_i(vi);
    lemma_square_nonneg(vi);
    lemma_comp_le_sqrt(vi, ns);
    let m = sqrt_i(ns);
    assert((2 * a) * (2 * a) == 4 * (a * a)) by (nonlinear_arith);
    lemma_sqrt_i_mono(ns, (2 * a) * (2 * a));
    lemma_sqrt_i_square(2 * a);
    // now 1 <= a <= m <= 2 * a
    lemma_div_is_ordered_by_denominator(a * 65536, m, 2 * a);
    assert(a * 65536 == 32768 * (2 * a)) by (nonlinear_arith);
    lemma_div_by_multiple(32768, 2 * a);
    if vi < 0 {
        assert(vi * 65536 == -(a * 65536));
    }
}

/// Normalizing a nonzero vector lands in the unit band from below: some
/// component keeps at least half the scale, so the squared length is at
/// least `(FX_ONE / 2)^2`.
proof fn lemma_normalize_lower_band(v: V3, ns: int)
    requires
        !v3_zero(v),
        ns == norm_sq(v),
    ensures
        norm_sq(normalize_spec(v)) >= 0x4000_0000,
{
    lemma_square_nonneg(v.x);
    lemma_square_nonneg(v.y);
    lemma_square_nonneg(v.z);
    let n = normalize_spec(v);
    lemma_square_nonneg(n.x);
    lemma_square_nonneg(n.y);
    lemma_square_nonneg(n.z);
    let ax = abs_i(v.x);
    let ay = abs_i(v.y);
    let az = abs_i(v.z);
    if ax >= ay && ax >= az {
        lemma_mul_bound(v.y, v.y, ax, ax);
        lemma_mul_bound(v.z, v.z, ax, ax);
        lemma_dominant_comp(v.x, ns);
        assert(n.x * n.x >= 0x4000_0000) by (nonlinear_arith)
            requires
                abs_i(n.x) >= 32768,
                n.x * n.x == abs_i(n.x) * abs_i(n.x),
        ;
    } else if ay >= ax && ay >= az {
        lemma_mul_bound(v.x, v.x, ay, ay);
        lemma_mul_bound(v.z, v.z, ay, ay);
        lemma_dominant_comp(v.y, ns);
        assert(n.y * n.y >= 0x4000_0000) by (nonlinear_arith)
            requires
                abs_i(n.y) >= 32768,
                n.y * n.y == abs_i(n.y) * abs_i(n.y),
        ;
    } else {
        lemma_mul_bound(v.x, v.x, az, az);
        lemma_mul_bound(v.y, v.y, az, az);
        lemma_dominant_comp(v.z, ns);
        assert(n.z * n.z >= 0x4000_0000) by (nonlinear_arith)
            requires
                abs_i(n.z) >= 32768,
                n.z * n.z == abs_i(n.z) * abs_i(n.z),
        ;
    }
}

/// A ray: an anchor position plus a unit direction, standing for
/// `anchor + t * dir` over fixed-point `t >= 0`.
#[derive(Clone, Copy, Debug, PartialEq, Eq, Structural)]
pub struct Line3D {
    pub anchor: Point3D,
    pub dir: Norm3D,
}

impl Line3D {
    pub open spec fn wf(&self) -> bool {
        self.dir.wf()
    }

    pub fn new(anchor: Point3D, dir: Norm3D) -> (r: Line3D)
        ensures
            r.anchor == anchor,
            r.dir == dir,
    {
        Line3D { anchor, dir }
    }
}

/// A component of a scaled vector is bounded by the scale factor's
/// contribution alone.
proof fn lemma_scale_comp_bound(c: int, t: int)
    requires
        abs_i(c) <= 4 * FX_ONE as int,
    ensures
        abs_i(div_t(c * t, FX_ONE as int)) <= 4 * abs_i(t),
{
    lemma_div_t_mul_le(c * t, FX_ONE as int);
    let q = div_t(c * t, FX_ONE as int);
    assert(abs_i(c * t) == abs_i(c) * abs_i(t)) by (nonlinear_arith);
    assert(abs_i(c) * abs_i(t) <= 262144 * abs_i(t)) by (nonlinear_arith)
        requires
            abs_i(c) <= 262144,
            abs_i(t) >= 0,
    ;
    if abs_i(q) > 4 * abs_i(t) {
        assert((4 * abs_i(t) + 1) * 65536 <= abs_i(q) * 65536) by (nonlinear_arith)
            requires
                4 * abs_i(t) + 1 <= abs_i(q),
        ;
        assert((4 * abs_i(t) + 1) * 65536 == 262144 * abs_i(t) + 65536) by (nonlinear_arith);
        assert(false);
    }
}

/// The integer square root of a vector's squared length is at most twice
/// the bound on its components.
pub proof fn lemma_norm_bound(v: V3, m: int)
    requires
        v3_bounded(v, m),
        m >= 0,
    ensures
        0 <= sqrt_i(norm_sq(v)) <= 2 * m,
{
    lemma_mul_bound(v.x, v.x, m, m);
    lemma_mul_bound(v.y, v.y, m, m);
    lemma_mul_bound(v.z, v.z, m, m);
    lemma_square_nonneg(v.x);
    lemma_square_nonneg(v.y);
    lemma_square_nonneg(v.z);
    assert(3 * (m * m) <= (2 * m) * (2 * m)) by (nonlinear_arith)
        requires
            m >= 0,
    ;
    lemma_sqrt_i_mono(norm_sq(v), (2 * m) * (2 * m));
    lemma_sqrt_i_square(2 * m);
    lemma_sqrt_i_sound(norm_sq(v));
}

} // verus!
