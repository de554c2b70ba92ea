//! Ray reflection and color conversion helpers.

use vstd::prelude::*;
use crate::color::Rgb8;
use crate::fixed::{
    FX_ONE, FX_TAU, abs_i, div_t, div_trunc, emod_tau, lemma_div_t_mul_le, lemma_div_t_shrink,
    lemma_mul_bound, lemma_square_nonneg,
};
use crate::geom::{
    GeomError, Norm3D, Point3D, V3, dot_raw, norm_sq, normalize_spec, v3_bounded, v3_zero,
};

verus! {

/// The exact mirror of `d` across the plane orthogonal to `n`, kept in
/// integers and scaled by `n`'s squared length so that no rounding occurs:
/// `(n . n) d - 2 (n . d) n`.
pub open spec fn reflect_raw(d: V3, n: V3) -> V3 {
    let nn = norm_sq(n);
    let nd = dot_raw(n, d);
    V3 {
        x: nn * d.x - 2 * nd * n.x,
        y: nn * d.y - 2 * nd * n.y,
        z: nn * d.z - 2 * nd * n.z,
    }
}

/// The law of reflection preserves length: the exact mirrored vector has
/// squared length `|n|^4 |d|^2`, so for unit `n` and `d` the reflection of a
/// unit vector is a unit vector.
pub proof fn lemma_reflect_preserves_norm(d: V3, n: V3)
    ensures
        norm_sq(reflect_raw(d, n)) == norm_sq(n) * norm_sq(n) * norm_sq(d),
{
    let nn = norm_sq(n);
    let nd = dot_raw(n, d);
    let r = reflect_raw(d, n);
    lemma_mirror_comp_sq(nn, nd, d.x, n.x);
    lemma_mirror_comp_sq(nn, nd, d.y, n.y);
    lemma_mirror_comp_sq(nn, nd, d.z, n.z);
    lemma_mirror_collect(
        nn,
        nd,
        d.x * d.x,
        d.y * d.y,
        d.z * d.z,
        n.x * d.x,
        n.y * d.y,
        n.z * d.z,
        n.x * n.x,
        n.y * n.y,
        n.z * n.z,
        r.x * r.x,
        r.y * r.y,
        r.z * r.z,
    );
    lemma_factor3(nn * nn, d.x * d.x, d.y * d.y, d.z * d.z);
}

/// Distributing a common factor over a three-term sum.
proof fn lemma_factor3(k: int, p: int, q: int, r: int)
    ensures
        k * (p + q + r) == k * p + k * q + k * r,
{
    assert(k * (p + q + r) == k * p + k * q + k * r) by (nonlinear_arith);
}

/// One component of the exact mirror, squared.
proof fn lemma_mirror_comp_sq(nn: int, nd: int, di: int, ni: int)
    ensures
        (nn * di - 2 * nd * ni) * (nn * di - 2 * nd * ni) == nn * nn * (di * di) - 4 * ((nn * nd)
            * (ni * di)) + 4 * ((nd * nd) * (ni * ni)),
{
    let a = nn * di;
    let b = 2 * nd * ni;
    assert((a - b) * (a - b) == a * a - 2 * (a * b) + b * b) by (nonlinear_arith);
    assert((nn * di) * (nn * di) == nn * nn * (di * di)) by (nonlinear_arith);
    assert((nn * di) * (2 * nd * ni) == 2 * ((nn * nd) * (ni * di))) by (nonlinear_arith);
    assert((2 * nd * ni) * (2 * nd * ni) == 4 * ((nd * nd) * (ni * ni))) by (nonlinear_arith);
}

/// Summing the squared mirror components: the cross terms cancel against the
/// normal-squared terms.
proof fn lemma_mirror_collect(
    nn: int,
    nd: int,
    t1: int,
    t2: int,
    t3: int,
    s1: int,
    s2: int,
    s3: int,
    u1: int,
    u2: int,
    u3: int,
    x1: int,
    x2: int,
    x3: int,
)
    requires
        x1 == nn * nn * t1 - 4 * ((nn * nd) * s1) + 4 * ((nd * nd) * u1),
        x2 == nn * nn * t2 - 4 * ((nn * nd) * s2) + 4 * ((nd * nd) * u2),
        x3 == nn * nn * t3 - 4 * ((nn * nd) * s3) + 4 * ((nd * nd) * u3),
        nd == s1 + s2 + s3,
        nn == u1 + u2 + u3,
    ensures
        x1 + x2 + x3 == nn * nn * t1 + nn * nn * t2 + nn * nn * t3,
{
    let k = nn * nd;
    assert(k * s1 + k * s2 + k * s3 == k * (s1 + s2 + s3)) by (nonlinear_arith);
    let j = nd * nd;
    assert(j * u1 + j * u2 + j * u3 == j * (u1 + u2 + u3)) by (nonlinear_arith);
    assert((nn * nd) * nd == (nd * nd) * nn) by (nonlinear_arith);
}

/// The Cauchy-Schwarz inequality: a dot product never exceeds the product of
/// the lengths. The bound behind "head-on incidence maximizes intensity".
pub proof fn lemma_cauchy_schwarz(a: V3, b: V3)
    ensures
        dot_raw(a, b) * dot_raw(a, b) <= norm_sq(a) * norm_sq(b),
{
    let p = a.y * b.z - a.z * b.y;
    let q = a.z * b.x - a.x * b.z;
    let r = a.x * b.y - a.y * b.x;
    lemma_lagrange(a.x, a.y, a.z, b.x, b.y, b.z);
    lemma_square_nonneg(p);
    lemma_square_nonneg(q);
    lemma_square_nonneg(r);
}

/// Lagrange's identity in three dimensions: the defect of Cauchy-Schwarz is
/// the squared length of the cross product.
proof fn lemma_lagrange(ax: int, ay: int, az: int, bx: int, by: int, bz: int)
    ensures
        (ax * ax + ay * ay + az * az) * (bx * bx + by * by + bz * bz) - (ax * bx + ay * by + az
            * bz) * (ax * bx + ay * by + az * bz) == (ay * bz - az * by) * (ay * bz - az * by) + (
        az * bx - ax * bz) * (az * bx - ax * bz) + (ax * by - ay * bx) * (ax * by - ay * bx),
{
    let x1 = ax * ax;
    let x2 = ay * ay;
    let x3 = az * az;
    let y1 = bx * bx;
    let y2 = by * by;
    let y3 = bz * bz;
    let t1 = ax * bx;
    let t2 = ay * by;
    let t3 = az * bz;
    assert((x1 + x2 + x3) * (y1 + y2 + y3) == x1 * y1 + x1 * y2 + x1 * y3 + x2 * y1 + x2 * y2 + x2
        * y3 + x3 * y1 + x3 * y2 + x3 * y3) by (nonlinear_arith);
    assert((t1 + t2 + t3) * (t1 + t2 + t3) == t1 * t1 + t2 * t2 + t3 * t3 + 2 * (t1 * t2) + 2 * (
    t1 * t3) + 2 * (t2 * t3)) by (nonlinear_arith);
    assert((ax * bx) * (ax * bx) == (ax * ax) * (bx * bx)) by (nonlinear_arith);
    assert((ay * by) * (ay * by) == (ay * ay) * (by * by)) by (nonlinear_arith);
    assert((az * bz) * (az * bz) == (az * az) * (bz * bz)) by (nonlinear_arith);
    lemma_lagrange_pair(ay, az, by, bz);
    lemma_lagrange_pair(az, ax, bz, bx);
    lemma_lagrange_pair(ax, ay, bx, by);
    assert((az * az) * (bx * bx) + (ax * ax) * (bz * bz) - 2 * ((az * bz) * (ax * bx)) == (az * bx
        - ax * bz) * (az * bx - ax * bz) ==> (ax * ax) * (bz * bz) + (az * az) * (bx * bx) - 2 * ((
    ax * bx) * (az * bz)) == (az * bx - ax * bz) * (az * bx - ax * bz)) by (nonlinear_arith);
}

/// The two-dimensional Lagrange identity for one coordinate pair.
proof fn lemma_lagrange_pair(ai: int, aj: int, bi: int, bj: int)
    ensures
        (ai * ai) * (bj * bj) + (aj * aj) * (bi * bi) - 2 * ((ai * bi) * (aj * bj)) == (ai * bj
            - aj * bi) * (ai * bj - aj * bi),
{
    let u = ai * bj;
    let v = aj * bi;
    assert((u - v) * (u - v) == u * u - 2 * (u * v) + v * v) by (nonlinear_arith);
    assert((ai * bj) * (ai * bj) == (ai * ai) * (bj * bj)) by (nonlinear_arith);
    assert((aj * bi) * (aj * bi) == (aj * aj) * (bi * bi)) by (nonlinear_arith);
    assert((ai * bj) * (aj * bi) == (ai * bi) * (aj * bj)) by (nonlinear_arith);
}

/// Reflects `ray` off a surface with unit normal `normal` and renormalizes.
/// Total: the exact mirrored vector of two unit-band directions cannot be
/// zero, because its squared length is `|normal|^4 |ray|^2 >= 1`.
pub fn reflect(ray: &Norm3D, normal: &Norm3D) -> (r: Norm3D)
    requires
        ray.wf(),
        normal.wf(),
    ensures
        r@ == normalize_spec(reflect_raw(ray@, normal@)),
        r.wf(),
{
    let nn = normal.p.norm_sq_wide();
    let nd = normal.p.dot_wide(&ray.p);
    proof {
        lemma_mul_bound(normal@.x, normal@.x, FX_ONE as int, FX_ONE as int);
        lemma_mul_bound(normal@.y, normal@.y, FX_ONE as int, FX_ONE as int);
        lemma_mul_bound(normal@.z, normal@.z, FX_ONE as int, FX_ONE as int);
        lemma_mul_bound(normal@.x, ray@.x, FX_ONE as int, FX_ONE as int);
        lemma_mul_bound(normal@.y, ray@.y, FX_ONE as int, FX_ONE as int);
        lemma_mul_bound(normal@.z, ray@.z, FX_ONE as int, FX_ONE as int);
        lemma_mul_bound(nn as int, ray@.x, 0x3_0000_0000, 0x10000);
        lemma_mul_bound(nn as int, ray@.y, 0x3_0000_0000, 0x10000);
        lemma_mul_bound(nn as int, ray@.z, 0x3_0000_0000, 0x10000);
        lemma_mul_bound(2 * nd as int, normal@.x, 0x6_0000_0000, 0x10000);
        lemma_mul_bound(2 * nd as int, normal@.y, 0x6_0000_0000, 0x10000);
        lemma_mul_bound(2 * nd as int, normal@.z, 0x6_0000_0000, 0x10000);
    }
    let rx = nn * (ray.p.x as i128) - 2 * nd * (normal.p.x as i128);
    let ry = nn * (ray.p.y as i128) - 2 * nd * (normal.p.y as i128);
    let rz = nn * (ray.p.z as i128) - 2 * nd * (normal.p.z as i128);
    let p = Point3D { x: rx as i64, y: ry as i64, z: rz as i64 };
    proof {
        lemma_reflect_preserves_norm(ray@, normal@);
        assert(p@ == reflect_raw(ray@, normal@));
        assert(norm_sq(normal@) * norm_sq(normal@) * norm_sq(ray@) >= 1) by (nonlinear_arith)
            requires
                norm_sq(normal@) >= 1,
                norm_sq(ray@) >= 1,
        ;
        assert(!v3_zero(p@));
    }
    match Norm3D::new(p) {
        Result::Ok(n) => n,
        Result::Err(_) => {
            proof {
                assert(false);
            }
            Norm3D { p: Point3D { x: FX_ONE, y: 0, z: 0 } }
        },
    }
}


/// The primary/secondary channel split of one hue sector: which of the
/// chroma `c`, the ramp `x` and zero land on red, green and blue.
pub open spec fn hsv_sector_channels(angle: int, c: int, x: int) -> (int, int, int) {
    if angle < 3932160 {
        (c, x, 0)
    } else if angle < 7864320 {
        (x, c, 0)
    } else if angle < 11796480 {
        (0, c, x)
    } else if angle < 15728640 {
        (0, x, c)
    } else if angle < 19660800 {
        (x, 0, c)
    } else {
        (c, 0, x)
    }
}

/// Hue (scaled radians), saturation and value (both in `[0, FX_ONE]`) to an
/// 8-bit RGB color: the hue reduced to fixed-point degrees in `[0, 360)`,
/// split into 60-degree sectors, channels truncated to bytes.
pub open spec fn hsv_to_rgb_spec(hue: int, saturation: int, value: int) -> Rgb8 {
    let angle = div_t((hue % (FX_TAU as int)) * 360 * 65536, FX_TAU as int);
    let c = div_t(saturation * value, 65536);
    let sector = div_t(angle, 60) % 131072;
    let x = div_t(c * (65536 - abs_i(sector - 65536)), 65536);
    let m0 = value - c;
    let ch = hsv_sector_channels(angle, c, x);
    Rgb8 {
        r: div_t((ch.0 + m0) * 255, 65536) as u8,
        g: div_t((ch.1 + m0) * 255, 65536) as u8,
        b: div_t((ch.2 + m0) * 255, 65536) as u8,
    }
}

/// Converts a hue angle with saturation and value into an RGB color.
pub fn hsv_to_rgb(hue: i64, saturation: i64, value: i64) -> (r: Rgb8)
    requires
        abs_i(hue as int) <= 0x100_0000_0000,
        0 <= saturation <= FX_ONE,
        0 <= value <= FX_ONE,
    ensures
        r == hsv_to_rgb_spec(hue as int, saturation as int, value as int),
{
    let m = emod_tau(hue);
    proof {
        lemma_div_t_shrink(m as int * 360 * 65536, FX_TAU as int, 23592959);
        lemma_div_t_mul_le(m as int * 360 * 65536, FX_TAU as int);
    }
    let angle = div_trunc((m as i128) * 360 * 65536, FX_TAU as i128) as i64;
    proof {
        lemma_mul_bound(saturation as int, value as int, 65536, 65536);
        assert(saturation as int * value as int <= 65536 * (value as int)) by (nonlinear_arith)
            requires
                saturation as int <= 65536,
                value as int >= 0,
        ;
        assert(saturation as int * value as int >= 0) by (nonlinear_arith)
            requires
                saturation as int >= 0,
                value as int >= 0,
        ;
        lemma_div_t_shrink(saturation as int * value as int, 65536, value as int);
        lemma_div_t_mul_le(saturation as int * value as int, 65536);
    }
    let c = div_trunc((saturation as i128) * (value as i128), 65536) as i64;
    proof {
        lemma_div_t_mul_le(angle as int, 60);
    }
    let q = div_trunc(angle as i128, 60);
    let sector = ((q as u64) % 131072) as i64;
    let f = 65536 - (if sector >= 65536 {
        sector - 65536
    } else {
        65536 - sector
    });
    proof {
        lemma_mul_bound(c as int, f as int, 65536, 65536);
        assert(c as int * f as int <= (c as int) * 65536) by (nonlinear_arith)
            requires
                f as int <= 65536,
                c as int >= 0,
        ;
        assert(c as int * f as int >= 0) by (nonlinear_arith)
            requires
                f as int >= 0,
                c as int >= 0,
        ;
        lemma_div_t_shrink(c as int * f as int, 65536, c as int);
        lemma_div_t_mul_le(c as int * f as int, 65536);
    }
    let x = div_trunc((c as i128) * (f as i128), 65536) as i64;
    let m0 = value - c;
    let rp: i64;
    let gp: i64;
    let bp: i64;
    if angle < 3932160 {
        rp = c;
        gp = x;
        bp = 0;
    } else if angle < 7864320 {
        rp = x;
        gp = c;
        bp = 0;
    } else if angle < 11796480 {
        rp = 0;
        gp = c;
        bp = x;
    } else if angle < 15728640 {
        rp = 0;
        gp = x;
        bp = c;
    } else if angle < 19660800 {
        rp = x;
        gp = 0;
        bp = c;
    } else {
        rp = c;
        gp = 0;
        bp = x;
    }
    let r8 = hsv_channel(rp + m0);
    let g8 = hsv_channel(gp + m0);
    let b8 = hsv_channel(bp + m0);
    Rgb8 { r: r8, g: g8, b: b8 }
}

/// Scales a fixed-point channel in `[0, FX_ONE]` to a byte.
fn hsv_channel(v: i64) -> (r: u8)
    requires
        0 <= v <= FX_ONE,
    ensures
        r as int == div_t(v as int * 255, 65536),
{
    proof {
        lemma_div_t_shrink(v as int * 255, 65536, 255);
        lemma_div_t_mul_le(v as int * 255, 65536);
    }
    div_trunc((v as i128) * 255, 65536) as u8
}

} // verus!
