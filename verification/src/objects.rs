//! Intersectable primitives: the capability contract and the analytic
//! sphere.

use vstd::prelude::*;
use crate::color::Rgb8;
use crate::fixed::{
    FX_ONE, div_t, div_trunc, isqrt_u128, lemma_div_t_shrink, lemma_mul_bound, lemma_sqrt_i_mono,
    lemma_sqrt_i_square, sqrt_i,
};
use crate::geom::{
    COORD_LIMIT, GeomError, Line3D, Norm3D, Point3D, SCENE_LIMIT, V3, dot_fx, norm_sq,
    normalize_spec, v3_add, v3_bounded, v3_scale_fx, v3_sub, v3_zero,
};

verus! {

/// The capability every primitive offers to the scene's closest-hit search:
/// ray intersection, surface normal lookup, and base color, each pinned to a
/// per-primitive mathematical description.
pub trait Intersectable {
    /// The primitive's structural invariant.
    spec fn wf(&self) -> bool;

    /// Where a ray from `anchor` along `dir` first meets this primitive
    /// within `max_distance`, if anywhere.
    spec fn spec_intersect(&self, anchor: V3, dir: V3, max_distance: int) -> Option<V3>;

    /// The unit surface normal at `point`, if it is defined there.
    spec fn spec_normal(&self, point: V3) -> Option<V3>;

    /// The primitive's base color.
    spec fn spec_color(&self) -> Rgb8;

    /// Returns the closest intersection of `self` with `ray`, if it exists.
    fn intersect(&self, ray: &Line3D, max_distance: i64) -> (r: Option<Point3D>)
        requires
            self.wf(),
            ray.wf(),
            v3_bounded(ray.anchor@, COORD_LIMIT as int),
            0 <= max_distance <= COORD_LIMIT,
        ensures
            match r {
                Option::None => self.spec_intersect(
                    ray.anchor@,
                    ray.dir@,
                    max_distance as int,
                ) is None,
                Option::Some(p) => self.spec_intersect(ray.anchor@, ray.dir@, max_distance as int)
                    == Option::Some(p@) && v3_bounded(
                    v3_sub(p@, ray.anchor@),
                    4 * max_distance as int,
                ),
            },
    ;

    fn normal(&self, point: &Point3D) -> (r: Option<Norm3D>)
        requires
            self.wf(),
            v3_bounded(point@, 5 * COORD_LIMIT as int),
        ensures
            match r {
                Option::None => self.spec_normal(point@) is None,
                Option::Some(n) => self.spec_normal(point@) == Option::Some(n@) && n.wf(),
            },
    ;

    fn get_color(&self) -> (r: Rgb8)
        requires
            self.wf(),
        ensures
            r == self.spec_color(),
    ;
}

/// A sphere: center, strictly positive radius, and a base color.
#[derive(Clone, Copy, Debug, PartialEq, Eq, Structural)]
pub struct SphereObject {
    pub center: Point3D,
    pub radius: i64,
    pub color: Rgb8,
}

/// The linear coefficient of the sphere's ray quadratic
/// `t^2 + 2 b t + c = 0` (`dir` is unit length).
pub open spec fn sphere_b(s: SphereObject, anchor: V3, dir: V3) -> int {
    dot_fx(dir, v3_sub(anchor, s.center@))
}

/// The constant coefficient: squared distance of the anchor from the center
/// minus the squared radius.
pub open spec fn sphere_c(s: SphereObject, anchor: V3) -> int {
    div_t(norm_sq(v3_sub(anchor, s.center@)) - s.radius * s.radius, FX_ONE as int)
}

/// The discriminant `b^2 - c` of the ray quadratic.
pub open spec fn sphere_disc(s: SphereObject, anchor: V3, dir: V3) -> int {
    div_t(sphere_b(s, anchor, dir) * sphere_b(s, anchor, dir), FX_ONE as int) - sphere_c(s, anchor)
}

/// The smallest root `t` with `0 <= t < max_distance`, if the quadratic has
/// one: a negative discriminant means no intersection at all.
pub open spec fn sphere_best_t(s: SphereObject, anchor: V3, dir: V3, max_distance: int) -> Option<
    int,
> {
    let disc = sphere_disc(s, anchor, dir);
    if disc < 0 {
        Option::None
    } else {
        let sq = sqrt_i(disc * FX_ONE as int);
        let b = sphere_b(s, anchor, dir);
        let lo = -b - sq;
        let hi = -b + sq;
        if 0 <= lo && lo < max_distance {
            Option::Some(lo)
        } else if 0 <= hi && hi < max_distance {
            Option::Some(hi)
        } else {
            Option::None
        }
    }
}

/// The point `anchor + t * dir`.
pub open spec fn ray_point(anchor: V3, dir: V3, t: int) -> V3 {
    v3_add(anchor, v3_scale_fx(dir, t))
}

/// `intersect` returns nothing exactly when no root of the quadratic lies in
/// `[0, max_distance)`; in particular a negative discriminant yields `None`,
/// and a hit's parameter is the smaller qualifying root, which is
/// nonnegative and within the distance horizon.
pub proof fn lemma_sphere_best_t_props(s: SphereObject, anchor: V3, dir: V3, max_distance: int)
    ensures
        sphere_disc(s, anchor, dir) < 0 ==> sphere_best_t(s, anchor, dir, max_distance) is None,
        match sphere_best_t(s, anchor, dir, max_distance) {
            Option::None => true,
            Option::Some(t) => {
                let disc = sphere_disc(s, anchor, dir);
                let b = sphere_b(s, anchor, dir);
                let sq = sqrt_i(disc * FX_ONE as int);
                &&& disc >= 0
                &&& 0 <= t < max_distance
                &&& (t == -b - sq || t == -b + sq)
                &&& (0 <= -b - sq && -b - sq < max_distance ==> t == -b - sq)
            },
        },
{
}

impl SphereObject {
    pub open spec fn wf(&self) -> bool {
        &&& v3_bounded(self.center@, SCENE_LIMIT as int)
        &&& 0 < self.radius <= SCENE_LIMIT
    }

    /// Builds a sphere; rejects a non-positive radius.
    pub fn new(center: Point3D, radius: i64, color: Rgb8) -> (r: Result<SphereObject, GeomError>)
        requires
            v3_bounded(center@, SCENE_LIMIT as int),
            radius <= SCENE_LIMIT,
        ensures
            match r {
                Result::Err(e) => e == GeomError::InvalidConstruction && radius <= 0,
                Result::Ok(s) => radius > 0 && s == (SphereObject { center, radius, color })
                    && s.wf(),
            },
    {
        if radius <= 0 {
            Result::Err(GeomError::InvalidConstruction)
        } else {
            Result::Ok(SphereObject { center, radius, color })
        }
    }
}

impl Intersectable for SphereObject {
    open spec fn wf(&self) -> bool {
        SphereObject::wf(self)
    }

    open spec fn spec_intersect(&self, anchor: V3, dir: V3, max_distance: int) -> Option<V3> {
        match sphere_best_t(*self, anchor, dir, max_distance) {
            Option::None => Option::None,
            Option::Some(t) => Option::Some(ray_point(anchor, dir, t)),
        }
    }

    open spec fn spec_normal(&self, point: V3) -> Option<V3> {
        if v3_zero(v3_sub(point, self.center@)) {
            Option::None
        } else {
            Option::Some(normalize_spec(v3_sub(point, self.center@)))
        }
    }

    open spec fn spec_color(&self) -> Rgb8 {
        self.color
    }

    fn intersect(&self, ray: &Line3D, max_distance: i64) -> (r: Option<Point3D>) {
        // Solve t^2 + 2 b t + c = 0, the sphere equation along the ray.
        let x = ray.anchor.minus(&self.center);
        let bw = ray.dir.p.dot_wide(&x);
        proof {
            lemma_mul_bound(ray.dir@.x, x@.x, FX_ONE as int, 0x20_0000_0000_0000);
            lemma_mul_bound(ray.dir@.y, x@.y, FX_ONE as int, 0x20_0000_0000_0000);
            lemma_mul_bound(ray.dir@.z, x@.z, FX_ONE as int, 0x20_0000_0000_0000);
            lemma_div_t_shrink(bw as int, FX_ONE as int, 0x80_0000_0000_0000);
        }
        let b = div_trunc(bw, FX_ONE as i128);
        let nsx = x.norm_sq_wide();
        proof {
            lemma_mul_bound(self.radius as int, self.radius as int, 0x1000_0000_0000, 0x1000_0000_0000);
        }
        let rr = (self.radius as i128) * (self.radius as i128);
        proof {
            lemma_mul_bound(x@.x, x@.x, 0x20_0000_0000_0000, 0x20_0000_0000_0000);
            lemma_mul_bound(x@.y, x@.y, 0x20_0000_0000_0000, 0x20_0000_0000_0000);
            lemma_mul_bound(x@.z, x@.z, 0x20_0000_0000_0000, 0x20_0000_0000_0000);
            lemma_div_t_shrink(
                nsx as int - rr as int,
                FX_ONE as int,
                0x2000_0000_0000_0000_0000_0000,
            );
            lemma_mul_bound(b as int, b as int, 0x80_0000_0000_0000, 0x80_0000_0000_0000);
            lemma_div_t_shrink(
                (b as int) * (b as int),
                FX_ONE as int,
                0x4000_0000_0000_0000_0000_0000,
            );
        }
        let c = div_trunc(nsx - rr, FX_ONE as i128);
        let disc = div_trunc(b * b, FX_ONE as i128) - c;
        if disc < 0 {
            return Option::None;
        }
        let sq128 = isqrt_u128((disc * (FX_ONE as i128)) as u128);
        proof {
            lemma_sqrt_i_mono(
                disc as int * FX_ONE as int,
                0x100_0000_0000_0000int * 0x100_0000_0000_0000,
            );
            lemma_sqrt_i_square(0x100_0000_0000_0000);
        }
        let sq = sq128 as i128;
        let lo = -b - sq;
        let hi = -b + sq;
        let maxd = max_distance as i128;
        let t: i128 = if 0 <= lo && lo < maxd {
            lo
        } else if 0 <= hi && hi < maxd {
            hi
        } else {
            return Option::None;
        };
        let off = ray.dir.p.scaled_fx(t as i64);
        let p = ray.anchor.plus(&off);
        Option::Some(p)
    }

    fn normal(&self, point: &Point3D) -> (r: Option<Norm3D>) {
        let d = point.minus(&self.center);
        match Norm3D::new(d) {
            Result::Ok(n) => Option::Some(n),
            Result::Err(_) => Option::None,
        }
    }

    fn get_color(&self) -> (r: Rgb8) {
        self.color
    }
}

} // verus!
