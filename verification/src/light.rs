//! The light model: directional lights (intensity from incidence angle) and
//! point lights (inverse-square falloff with a cosine weight).

use vstd::prelude::*;
use vstd::arithmetic::div_mod::*;
use crate::color::{Rgba8, blend_over_spec, lemma_blend_transparent_src_identity, min_i};
use crate::fixed::{
    FX_ONE, abs_i, div_t, div_trunc, lemma_div_t_abs_le, lemma_div_t_mul_le, lemma_div_t_shrink,
    lemma_mul_bound, lemma_sqrt_i_square, lemma_square_nonneg,
};
use crate::geom::{
    Line3D, Norm3D, Point3D, SCENE_LIMIT, V3, dot_fx, dot_raw, norm_sq, normalize_spec, v3_bounded,
    v3_neg, v3_sub, v3_zero,
};
use crate::utils::lemma_cauchy_schwarz;

verus! {

/// The incidence intensity of a directional light with direction `dir`
/// (pointing from the light) on a ray travelling along `ray`: the dot product
/// of the reversed light direction with the ray, floored at zero.
pub open spec fn directional_intensity(dir: V3, ray: V3) -> int {
    let d = dot_fx(v3_neg(dir), ray);
    if d < 0 {
        0
    } else {
        d
    }
}

/// The inverse-square intensity of a point light at `origin` with scalar
/// intensity `i`, evaluated for a shadow ray from `anchor` along `dir`:
/// `i * cos / d^2`, with the full intensity at (sub-resolution) zero
/// distance.
pub open spec fn point_intensity(origin: V3, i: int, anchor: V3, dir: V3) -> int {
    let d = v3_sub(origin, anchor);
    if v3_zero(d) {
        i
    } else {
        let cos = dot_fx(normalize_spec(d), dir);
        let d2 = div_t(norm_sq(d), FX_ONE as int);
        if d2 == 0 {
            i
        } else {
            div_t(i * cos, d2)
        }
    }
}

/// A light at infinity: a direction (pointing from the light) and a color
/// whose alpha encodes the maximum intensity.
#[derive(Clone, Copy, Debug, PartialEq, Eq, Structural)]
pub struct DirectionalLight {
    pub dir: Norm3D,
    pub color: Rgba8,
}

impl DirectionalLight {
    pub open spec fn wf(&self) -> bool {
        self.dir.wf()
    }

    /// The transient color this light contributes for `ray`, composited over
    /// `into`: the light's own color with its alpha scaled by the incidence
    /// intensity (saturated at 255).
    pub open spec fn colorize_spec(&self, ray: V3, into: Rgba8) -> Rgba8 {
        let inten = directional_intensity(self.dir@, ray);
        let a = min_i(255, div_t(self.color.a as int * inten, FX_ONE as int));
        blend_over_spec(
            into,
            Rgba8 { r: self.color.r, g: self.color.g, b: self.color.b, a: a as u8 },
        )
    }

    /// The incidence intensity for `ray`: zero when the ray faces away from
    /// or perpendicular to the light, the (scaled) dot product otherwise.
    pub fn get_intensity(&self, ray: &Norm3D) -> (r: i64)
        requires
            self.wf(),
            ray.wf(),
        ensures
            r as int == directional_intensity(self.dir@, ray@),
            0 <= r as int <= 3 * FX_ONE as int,
    {
        let d = self.dir.neg().dot(ray);
        if d < 0 {
            0
        } else {
            d
        }
    }

    /// Alpha-blends this light's contribution for `ray` onto `other_color`.
    pub fn colorize(&self, ray: &Norm3D, other_color: &mut Rgba8)
        requires
            self.wf(),
            ray.wf(),
        ensures
            *final(other_color) == self.colorize_spec(ray@, *old(other_color)),
    {
        let inten = self.get_intensity(ray);
        proof {
            lemma_mul_bound(self.color.a as int, inten as int, 255, 196608);
            lemma_div_t_abs_le(self.color.a as int * inten as int, FX_ONE as int, 0x2FD_0000);
        }
        let raw: u64 = ((self.color.a as u64) * (inten as u64)) / 65536;
        let a: u8 = if raw > 255 {
            255u8
        } else {
            raw as u8
        };
        let src = Rgba8 { r: self.color.r, g: self.color.g, b: self.color.b, a };
        other_color.blend(&src);
    }
}

/// A dark directional light changes nothing: at zero incidence the transient
/// color is fully transparent, and compositing a fully transparent source is
/// the identity, so `colorize` leaves `other_color` exactly as it was.
pub proof fn lemma_colorize_dark_is_noop(l: DirectionalLight, ray: V3, into: Rgba8)
    requires
        directional_intensity(l.dir@, ray) == 0,
    ensures
        l.colorize_spec(ray, into) == into,
{
    let inten = directional_intensity(l.dir@, ray);
    assert(l.color.a as int * inten == 0) by (nonlinear_arith)
        requires
            inten == 0,
    ;
    lemma_div_of0(FX_ONE as int);
    lemma_blend_transparent_src_identity(
        into,
        Rgba8 { r: l.color.r, g: l.color.g, b: l.color.b, a: 0 },
    );
}

/// Facing away from a directional light, or exactly perpendicular to it,
/// yields zero intensity.
pub proof fn lemma_directional_dark(dir: V3, ray: V3)
    requires
        dot_raw(v3_neg(dir), ray) <= 0,
    ensures
        directional_intensity(dir, ray) == 0,
{
    lemma_div_t_mul_le(dot_raw(v3_neg(dir), ray), FX_ONE as int);
}

/// Head-on incidence maximizes a directional light's intensity: no ray of
/// the same length as the light's direction vector beats the exactly
/// reversed direction.
pub proof fn lemma_directional_max(dir: V3, ray: V3)
    requires
        norm_sq(ray) <= norm_sq(dir),
    ensures
        directional_intensity(dir, ray) <= directional_intensity(dir, v3_neg(dir)),
{
    let nd = v3_neg(dir);
    lemma_cauchy_schwarz(nd, ray);
    lemma_square_nonneg(nd.x);
    lemma_square_nonneg(nd.y);
    lemma_square_nonneg(nd.z);
    assert(norm_sq(nd) == norm_sq(dir)) by (nonlinear_arith)
        requires
            nd.x == -dir.x,
            nd.y == -dir.y,
            nd.z == -dir.z,
            norm_sq(nd) == nd.x * nd.x + nd.y * nd.y + nd.z * nd.z,
            norm_sq(dir) == dir.x * dir.x + dir.y * dir.y + dir.z * dir.z,
    ;
    assert(dot_raw(nd, nd) == norm_sq(nd));
    let d = dot_raw(nd, ray);
    let n = norm_sq(nd);
    assert(n * norm_sq(ray) <= n * n) by (nonlinear_arith)
        requires
            norm_sq(ray) <= n,
            n >= 0,
    ;
    assert(d <= n) by (nonlinear_arith)
        requires
            d * d <= n * n,
            n >= 0,
    ;
    lemma_div_t_mono(d, n, FX_ONE as int);
}

/// Truncating division is monotone in the dividend.
pub proof fn lemma_div_t_mono(a: int, b: int, c: int)
    requires
        a <= b,
        c >= 1,
    ensures
        div_t(a, c) <= div_t(b, c),
{
    if a >= 0 {
        lemma_div_is_ordered(a, b, c);
    } else if b < 0 {
        lemma_div_is_ordered(-b, -a, c);
    } else {
        lemma_div_pos_is_pos(-a, c);
        lemma_div_pos_is_pos(b, c);
    }
}

/// A light with a position: contributions follow the inverse-square law and
/// require a visibility test.
#[derive(Clone, Copy, Debug, PartialEq, Eq, Structural)]
pub struct PointLight {
    pub origin: Point3D,
    pub intensity: i64,
}

impl PointLight {
    pub open spec fn wf(&self) -> bool {
        &&& v3_bounded(self.origin@, SCENE_LIMIT as int)
        &&& 0 <= self.intensity <= SCENE_LIMIT
    }

    /// The intensity this light contributes along the shadow ray `ray`
    /// (anchored at the lit point, normally pointing at the light).
    pub fn get_intensity(&self, ray: &Line3D) -> (r: i64)
        requires
            self.wf(),
            ray.wf(),
            v3_bounded(ray.anchor@, 0x2_0000_0000_0000),
        ensures
            r as int == point_intensity(self.origin@, self.intensity as int, ray.anchor@, ray.dir@),
            abs_i(r as int) <= 0x1000_0000_0000int * 196608,
    {
        let d = self.origin.minus(&ray.anchor);
        if d.x == 0 && d.y == 0 && d.z == 0 {
            return self.intensity;
        }
        let n = match Norm3D::new(d) {
            Result::Ok(n) => n,
            Result::Err(_) => {
                proof {
                    assert(false);
                }
                Norm3D { p: Point3D { x: FX_ONE, y: 0, z: 0 } }
            },
        };
        let cos = n.dot(&ray.dir);
        let ns = d.norm_sq_wide();
        let d2 = div_trunc(ns, FX_ONE as i128);
        if d2 == 0 {
            self.intensity
        } else {
            proof {
                lemma_mul_bound(self.intensity as int, cos as int, 0x1000_0000_0000, 196608);
                lemma_div_t_abs_le(
                    self.intensity as int * cos as int,
                    d2 as int,
                    0x1000_0000_0000int * 196608,
                );
            }
            let q = div_trunc((self.intensity as i128) * (cos as i128), d2);
            q as i64
        }
    }
}

/// The inverse-square law: for a fixed positive numerator, the truncated
/// quotient never increases as the squared distance grows, and as exact
/// rationals the contribution strictly decreases.
pub proof fn lemma_point_light_falloff(num: int, d2_near: int, d2_far: int)
    requires
        num >= 0,
        1 <= d2_near <= d2_far,
    ensures
        div_t(num, d2_far) <= div_t(num, d2_near),
        num >= 1 && d2_near < d2_far ==> num * d2_near < num * d2_far,
{
    lemma_div_is_ordered_by_denominator(num, d2_near, d2_far);
    if num >= 1 && d2_near < d2_far {
        assert(num * d2_near < num * d2_far) by (nonlinear_arith)
            requires
                num >= 1,
                d2_near < d2_far,
        ;
    }
}


/// Moving the shadow-ray anchor straight away from a point light never
/// increases its contribution: receding along the axis toward the light, the
/// incidence stays head-on while the squared distance grows, so the
/// inverse-square intensity falls.
pub proof fn lemma_point_intensity_recedes(origin: V3, inten: int, k1: int, k2: int)
    requires
        inten >= 0,
        256 <= k1 < k2,
    ensures
        ({
            let dirz = V3 { x: 0, y: 0, z: FX_ONE as int };
            let near = V3 { x: origin.x, y: origin.y, z: origin.z - k1 };
            let far = V3 { x: origin.x, y: origin.y, z: origin.z - k2 };
            point_intensity(origin, inten, far, dirz) <= point_intensity(origin, inten, near, dirz)
        }),
{
    let dirz = V3 { x: 0, y: 0, z: FX_ONE as int };
    lemma_point_axis_form(origin, inten, k1);
    lemma_point_axis_form(origin, inten, k2);
    assert(k1 * k1 <= k2 * k2) by (nonlinear_arith)
        requires
            0 <= k1 <= k2,
    ;
    lemma_div_t_mono(k1 * k1, k2 * k2, FX_ONE as int);
    lemma_point_light_falloff(
        inten * 65536,
        div_t(k1 * k1, FX_ONE as int),
        div_t(k2 * k2, FX_ONE as int),
    );
}

/// At distance `k` straight down the z axis, the intensity takes the plain
/// inverse-square form `inten * FX_ONE / (k^2 / FX_ONE)`.
proof fn lemma_point_axis_form(origin: V3, inten: int, k: int)
    requires
        inten >= 0,
        k >= 256,
    ensures
        ({
            let dirz = V3 { x: 0, y: 0, z: FX_ONE as int };
            let anchor = V3 { x: origin.x, y: origin.y, z: origin.z - k };
            point_intensity(origin, inten, anchor, dirz) == div_t(
                inten * 65536,
                div_t(k * k, FX_ONE as int),
            )
        }),
        div_t(k * k, FX_ONE as int) >= 1,
{
    let dirz = V3 { x: 0, y: 0, z: FX_ONE as int };
    let anchor = V3 { x: origin.x, y: origin.y, z: origin.z - k };
    let d = v3_sub(origin, anchor);
    assert(d == (V3 { x: 0, y: 0, z: k }));
    lemma_square_nonneg(k);
    assert(norm_sq(d) == k * k);
    lemma_sqrt_i_square(k);
    // The normalized direction is exactly the unit z axis.
    lemma_div_of0(k);
    assert(65536 * k == k * 65536) by (nonlinear_arith);
    lemma_div_by_multiple(65536, k);
    assert(normalize_spec(d) == dirz);
    assert(dot_raw(dirz, dirz) == 65536 * 65536);
    lemma_div_by_multiple(65536, 65536);
    assert(dot_fx(dirz, dirz) == 65536);
    // The squared fixed-point distance is at least one raw unit.
    assert(k * k >= 65536) by (nonlinear_arith)
        requires
            k >= 256,
    ;
    lemma_div_is_ordered(65536, k * k, 65536);
    lemma_div_by_self(65536);
}

} // verus!
