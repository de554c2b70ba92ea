//! The camera (per-pixel ray generation and movement operators) and the
//! scene (closest-hit search, light evaluation with shadowing, and the
//! per-pixel render loop).

use vstd::prelude::*;
use vstd::arithmetic::div_mod::*;
use crate::color::{Rgb8, Rgba8, blend_over_spec, transparent_black};
use crate::fixed::{
    FX_ONE, FX_TAU, abs_i, clamp_i, cos_fx, cos_spec, div_t, emod_tau, lemma_div_t_mul_le,
    lemma_div_t_shrink, lemma_mul_bound, lemma_square_nonneg, sin_fx, sin_spec, sqrt_i,
};
use crate::geom::{
    COORD_LIMIT, Line3D, Norm3D, Point3D, SCENE_LIMIT, V3, dot_fx, dot_raw, lemma_norm_bound,
    norm_sq, normalize_spec, v3_add, v3_bounded, v3_scale_fx, v3_sub, v3_zero,
};
use crate::light::{
    DirectionalLight, PointLight, directional_intensity, point_intensity,
};
use crate::objects::{Intersectable, SphereObject};
use crate::utils::{reflect, reflect_raw};

verus! {

/// An angle in scaled radians.
#[derive(Clone, Copy, Debug, PartialEq, Eq, Structural)]
pub struct Rad {
    pub val: i64,
}

/// The hard limit on the camera's vertical (pitch) angle: 65 degrees, in
/// scaled radians.
pub const MAX_VERTICAL_ROTATION: i64 = 74348;

/// How many reflection bounces a primary ray may spend.
pub const RENDER_DEPTH: i64 = 10;

/// The distance horizon of a primary ray, in fixed point (10000 units).
pub const RENDER_MAX_DISTANCE: i64 = 10000 * FX_ONE;

/// The forward bias applied to a reflection anchor so the continuation ray
/// does not immediately re-intersect its own surface.
pub const REFLECT_BIAS: i64 = 7;

/// The camera's rigid rotation applied to `v`: a pitch about the x axis
/// followed by a yaw about the y axis, built from the fixed-point sine and
/// cosine of the stored angles.
pub open spec fn rotate_dir(theta: int, psi: int, v: V3) -> V3 {
    let st = sin_spec(theta);
    let ct = cos_spec(theta);
    let sp = sin_spec(psi);
    let cp = cos_spec(psi);
    let y1 = div_t(cp * v.y, FX_ONE as int) - div_t(sp * v.z, FX_ONE as int);
    let z1 = div_t(sp * v.y, FX_ONE as int) + div_t(cp * v.z, FX_ONE as int);
    V3 {
        x: div_t(ct * v.x, FX_ONE as int) + div_t(st * z1, FX_ONE as int),
        y: y1,
        z: div_t(ct * z1, FX_ONE as int) - div_t(st * v.x, FX_ONE as int),
    }
}

/// Normalizes `d`, falling back to `f` for the zero vector.
pub open spec fn normalize_or(d: V3, f: V3) -> V3 {
    if v3_zero(d) {
        f
    } else {
        normalize_spec(d)
    }
}

/// The unit z axis, the fallback direction of a degenerate rotation.
pub open spec fn unit_z() -> V3 {
    V3 { x: 0, y: 0, z: FX_ONE as int }
}

/// The unit x axis.
pub open spec fn unit_x() -> V3 {
    V3 { x: FX_ONE as int, y: 0, z: 0 }
}

/// The camera's forward basis vector: its rotation applied to the canonical
/// z axis, renormalized.
pub open spec fn camera_forward(c: Camera) -> V3 {
    normalize_or(rotate_dir(c.rot_theta.val as int, c.rot_psi.val as int, unit_z()), unit_z())
}

/// The camera's right basis vector: its rotation applied to the canonical
/// x axis, renormalized.
pub open spec fn camera_right(c: Camera) -> V3 {
    normalize_or(rotate_dir(c.rot_theta.val as int, c.rot_psi.val as int, unit_x()), unit_x())
}

/// Clamping each coordinate into the scene bounds.
pub open spec fn clamp_v3(v: V3, m: int) -> V3 {
    V3 { x: clamp_i(v.x, -m, m), y: clamp_i(v.y, -m, m), z: clamp_i(v.z, -m, m) }
}

/// The unnormalized direction of the ray through pixel `(x, y)`: normalized
/// device coordinates (with the vertical flip) pushed through the camera's
/// rotation.
pub open spec fn camera_ray_dir_raw(c: Camera, x: int, y: int) -> V3 {
    let xp = div_t(x * FX_ONE as int, c.width as int) - 32768;
    let yp = 32768 - div_t(y * FX_ONE as int, c.height as int);
    rotate_dir(
        c.rot_theta.val as int,
        c.rot_psi.val as int,
        V3 { x: xp, y: yp, z: FX_ONE as int },
    )
}

/// The unit direction of the ray through pixel `(x, y)`.
pub open spec fn camera_ray_dir(c: Camera, x: int, y: int) -> V3 {
    normalize_or(camera_ray_dir_raw(c, x, y), unit_z())
}

/// The camera: pixel resolution, two rotation angles, and a position. It
/// persists across frames and is mutated by the movement operators.
pub struct Camera {
    pub width: u32,
    pub height: u32,
    pub rot_theta: Rad,
    pub rot_psi: Rad,
    pub location: Point3D,
}

impl Camera {
    pub open spec fn wf(&self) -> bool {
        &&& 1 <= self.width <= 4096
        &&& 1 <= self.height <= 4096
        &&& 0 <= self.rot_theta.val < FX_TAU
        &&& -MAX_VERTICAL_ROTATION <= self.rot_psi.val <= MAX_VERTICAL_ROTATION
        &&& v3_bounded(self.location@, SCENE_LIMIT as int)
    }

    /// Applies the camera's rotation to a small direction vector.
    fn rotated_dir(&self, v: &Point3D) -> (r: Point3D)
        requires
            self.wf(),
            v3_bounded(v@, FX_ONE as int),
        ensures
            r@ == rotate_dir(self.rot_theta.val as int, self.rot_psi.val as int, v@),
            v3_bounded(r@, 3 * FX_ONE as int),
    {
        let st = sin_fx(self.rot_theta.val);
        let ct = cos_fx(self.rot_theta.val);
        let sp = sin_fx(self.rot_psi.val);
        let cp = cos_fx(self.rot_psi.val);
        proof {
            lemma_mul_bound(cp as int, v@.y, 65536, 65536);
            lemma_mul_bound(sp as int, v@.z, 65536, 65536);
            lemma_mul_bound(sp as int, v@.y, 65536, 65536);
            lemma_mul_bound(cp as int, v@.z, 65536, 65536);
            lemma_mul_bound(ct as int, v@.x, 65536, 65536);
            lemma_mul_bound(st as int, v@.x, 65536, 65536);
            lemma_div_t_shrink((cp as int) * v@.y, 65536, 65536);
            lemma_div_t_shrink((sp as int) * v@.z, 65536, 65536);
            lemma_div_t_shrink((sp as int) * v@.y, 65536, 65536);
            lemma_div_t_shrink((cp as int) * v@.z, 65536, 65536);
            lemma_div_t_shrink((ct as int) * v@.x, 65536, 65536);
            lemma_div_t_shrink((st as int) * v@.x, 65536, 65536);
        }
        let y1 = (div64(cp, v.y) - div64(sp, v.z)) as i64;
        let z1 = (div64(sp, v.y) + div64(cp, v.z)) as i64;
        proof {
            lemma_mul_bound(st as int, z1 as int, 65536, 131072);
            lemma_mul_bound(ct as int, z1 as int, 65536, 131072);
            lemma_div_t_shrink((st as int) * (z1 as int), 65536, 131072);
            lemma_div_t_shrink((ct as int) * (z1 as int), 65536, 131072);
        }
        let x2 = (div64(ct, v.x) + div64(st, z1)) as i64;
        let z2 = (div64(ct, z1) - div64(st, v.x)) as i64;
        Point3D { x: x2, y: y1, z: z2 }
    }

    /// The ray through pixel `(x, y)` of the current frame.
    fn construct_ray(&self, x: u32, y: u32) -> (r: Line3D)
        requires
            self.wf(),
            x < self.width,
            y < self.height,
        ensures
            r.anchor == self.location,
            r.dir@ == camera_ray_dir(*self, x as int, y as int),
            r.dir.wf(),
    {
        proof {
            lemma_div_t_shrink(x as int * 65536, self.width as int, 65535);
            lemma_div_t_shrink(y as int * 65536, self.height as int, 65535);
            crate::fixed::lemma_div_t_mul_le(x as int * 65536, self.width as int);
            crate::fixed::lemma_div_t_mul_le(y as int * 65536, self.height as int);
        }
        let xp = ((x as u64 * 65536) / (self.width as u64)) as i64 - 32768;
        let yp = 32768 - ((y as u64 * 65536) / (self.height as u64)) as i64;
        let d = self.rotated_dir(&Point3D { x: xp, y: yp, z: FX_ONE });
        let dir = unit_or(d, Point3D { x: 0, y: 0, z: FX_ONE });
        Line3D { anchor: self.location, dir }
    }

    /// One ray per output pixel, ordered with `x` outermost, exactly as a
    /// full-frame render consumes them.
    pub fn get_rays(&self) -> (rays: Vec<(u32, u32, Line3D)>)
        requires
            self.wf(),
        ensures
            rays@.len() == self.width * self.height,
            forall|xi: int, yi: int|
                0 <= xi < self.width && 0 <= yi < self.height ==> {
                    let t = #[trigger] rays@[xi * self.height + yi];
                    &&& t.0 == xi
                    &&& t.1 == yi
                    &&& t.2.anchor == self.location
                    &&& t.2.dir@ == camera_ray_dir(*self, xi, yi)
                    &&& t.2.dir.wf()
                },
    {
        let w = self.width;
        let h = self.height;
        let mut rays: Vec<(u32, u32, Line3D)> = Vec::new();
        let mut x: u32 = 0;
        while x < w
            invariant
                self.wf(),
                w == self.width,
                h == self.height,
                x <= w,
                rays@.len() == x * h,
                forall|xi: int, yi: int|
                    0 <= xi < x && 0 <= yi < h ==> {
                        let t = #[trigger] rays@[xi * h + yi];
                        &&& t.0 == xi
                        &&& t.1 == yi
                        &&& t.2.anchor == self.location
                        &&& t.2.dir@ == camera_ray_dir(*self, xi, yi)
                        &&& t.2.dir.wf()
                    },
            decreases w - x,
        {
            let mut y: u32 = 0;
            while y < h
                invariant
                    self.wf(),
                    w == self.width,
                    h == self.height,
                    x < w,
                    y <= h,
                    rays@.len() == x * h + y,
                    forall|xi: int, yi: int|
                        (0 <= xi < x && 0 <= yi < h) || (xi == x && 0 <= yi < y) ==> {
                            let t = #[trigger] rays@[xi * h + yi];
                            &&& t.0 == xi
                            &&& t.1 == yi
                            &&& t.2.anchor == self.location
                            &&& t.2.dir@ == camera_ray_dir(*self, xi, yi)
                            &&& t.2.dir.wf()
                        },
                decreases h - y,
            {
                let ray = self.construct_ray(x, y);
                rays.push((x, y, ray));
                proof {
                    lemma_grid_prefix(x as int, h as int);
                }
                y = y + 1;
            }
            proof {
                assert((x + 1) * (h as int) == x * (h as int) + h) by (nonlinear_arith);
            }
            x = x + 1;
        }
        rays
    }

    /// Translates the camera along its forward basis vector by the
    /// fixed-point `amount`, clamped into the scene bounds.
    pub fn move_forward(&mut self, amount: i64)
        requires
            old(self).wf(),
            abs_i(amount as int) <= COORD_LIMIT as int,
        ensures
            final(self).wf(),
            final(self).location@ == clamp_v3(
                v3_add(
                    old(self).location@,
                    v3_scale_fx(camera_forward(*old(self)), amount as int),
                ),
                SCENE_LIMIT as int,
            ),
            final(self).width == old(self).width,
            final(self).height == old(self).height,
            final(self).rot_theta == old(self).rot_theta,
            final(self).rot_psi == old(self).rot_psi,
    {
        let d = self.rotated_dir(&Point3D { x: 0, y: 0, z: FX_ONE });
        let n = unit_or(d, Point3D { x: 0, y: 0, z: FX_ONE });
        let off = n.p.scaled_fx(amount);
        let moved = self.location.plus(&off);
        self.location = Point3D {
            x: clamp_coord(moved.x),
            y: clamp_coord(moved.y),
            z: clamp_coord(moved.z),
        };
    }

    /// Translates the camera along its right basis vector by the fixed-point
    /// `amount`, clamped into the scene bounds.
    pub fn move_right(&mut self, amount: i64)
        requires
            old(self).wf(),
            abs_i(amount as int) <= COORD_LIMIT as int,
        ensures
            final(self).wf(),
            final(self).location@ == clamp_v3(
                v3_add(old(self).location@, v3_scale_fx(camera_right(*old(self)), amount as int)),
                SCENE_LIMIT as int,
            ),
            final(self).width == old(self).width,
            final(self).height == old(self).height,
            final(self).rot_theta == old(self).rot_theta,
            final(self).rot_psi == old(self).rot_psi,
    {
        let d = self.rotated_dir(&Point3D { x: FX_ONE, y: 0, z: 0 });
        let n = unit_or(d, Point3D { x: FX_ONE, y: 0, z: 0 });
        let off = n.p.scaled_fx(amount);
        let moved = self.location.plus(&off);
        self.location = Point3D {
            x: clamp_coord(moved.x),
            y: clamp_coord(moved.y),
            z: clamp_coord(moved.z),
        };
    }

    /// Adds `amount` to the horizontal (yaw) angle, kept reduced to one turn.
    pub fn rotate_theta(&mut self, amount: i64)
        requires
            old(self).wf(),
            abs_i(amount as int) <= 0xFF_0000_0000,
        ensures
            final(self).wf(),
            final(self).rot_theta.val as int == (old(self).rot_theta.val + amount) % (
            FX_TAU as int),
            final(self).width == old(self).width,
            final(self).height == old(self).height,
            final(self).rot_psi == old(self).rot_psi,
            final(self).location == old(self).location,
    {
        let s = self.rot_theta.val + amount;
        self.rot_theta = Rad { val: emod_tau(s) };
    }

    /// Adds `amount` to the vertical (pitch) angle, hard-clamped to the
    /// vertical limit — the camera can never flip past vertical.
    pub fn rotate_psi(&mut self, amount: i64)
        requires
            old(self).wf(),
            abs_i(amount as int) <= 0xFF_0000_0000,
        ensures
            final(self).wf(),
            final(self).rot_psi.val as int == clamp_i(
                old(self).rot_psi.val + amount,
                -(MAX_VERTICAL_ROTATION as int),
                MAX_VERTICAL_ROTATION as int,
            ),
            final(self).width == old(self).width,
            final(self).height == old(self).height,
            final(self).rot_theta == old(self).rot_theta,
            final(self).location == old(self).location,
    {
        let s = self.rot_psi.val + amount;
        let v = if s > MAX_VERTICAL_ROTATION {
            MAX_VERTICAL_ROTATION
        } else if s < -MAX_VERTICAL_ROTATION {
            -MAX_VERTICAL_ROTATION
        } else {
            s
        };
        self.rot_psi = Rad { val: v };
    }
}

/// The pitch clamp never exceeds the vertical limit; one sufficiently large
/// upward rotation lands exactly on it, and once there, further upward
/// rotation keeps it exactly there — repeated large rotations converge to
/// the limit.
pub proof fn lemma_pitch_clamp_converges(psi: int, amount: int)
    ensures
        clamp_i(
            psi + amount,
            -(MAX_VERTICAL_ROTATION as int),
            MAX_VERTICAL_ROTATION as int,
        ) <= MAX_VERTICAL_ROTATION as int,
        psi + amount >= MAX_VERTICAL_ROTATION as int ==> clamp_i(
            psi + amount,
            -(MAX_VERTICAL_ROTATION as int),
            MAX_VERTICAL_ROTATION as int,
        ) == MAX_VERTICAL_ROTATION as int,
{
}

/// Clamps one coordinate into the scene bounds.
fn clamp_coord(v: i64) -> (r: i64)
    ensures
        r as int == clamp_i(v as int, -(SCENE_LIMIT as int), SCENE_LIMIT as int),
{
    if v > SCENE_LIMIT {
        SCENE_LIMIT
    } else if v < -SCENE_LIMIT {
        -SCENE_LIMIT
    } else {
        v
    }
}

/// Fixed-point product of two unit-band scalars, as a 64-bit value.
fn div64(a: i64, b: i64) -> (r: i64)
    requires
        abs_i(a as int) <= 2 * FX_ONE as int,
        abs_i(b as int) <= 2 * FX_ONE as int,
    ensures
        r as int == div_t(a as int * b as int, FX_ONE as int),
        abs_i(r as int) <= 4 * FX_ONE as int,
{
    proof {
        lemma_mul_bound(a as int, b as int, 131072, 131072);
        lemma_div_t_shrink(a as int * b as int, 65536, 262144);
    }
    let q = crate::fixed::div_trunc((a as i128) * (b as i128), FX_ONE as i128);
    q as i64
}

/// Normalizes `d`, falling back to the unit direction `f` if `d` is zero.
fn unit_or(d: Point3D, f: Point3D) -> (r: Norm3D)
    requires
        v3_bounded(d@, 0x2000_0000_0000_0000),
        v3_bounded(f@, FX_ONE as int),
        norm_sq(f@) >= 0x4000_0000,
    ensures
        r@ == normalize_or(d@, f@),
        r.wf(),
{
    match Norm3D::new(d) {
        Result::Ok(n) => n,
        Result::Err(_) => Norm3D { p: f },
    }
}

/// Every cell of a grid prefix of `x` full rows has its linear index below
/// `x * h`.
proof fn lemma_grid_prefix(x: int, h: int)
    requires
        0 <= x,
        1 <= h,
    ensures
        forall|xi: int, yi: int|
            0 <= xi < x && 0 <= yi < h ==> 0 <= #[trigger] (xi * h + yi) < x * h,
{
    assert forall|xi: int, yi: int|
        0 <= xi < x && 0 <= yi < h implies 0 <= #[trigger] (xi * h + yi) < x * h by {
        assert((xi + 1) * h <= x * h) by (nonlinear_arith)
            requires
                xi + 1 <= x,
                h >= 0,
        ;
        assert((xi + 1) * h == xi * h + h) by (nonlinear_arith);
        assert(xi * h >= 0) by (nonlinear_arith)
            requires
                xi >= 0,
                h >= 0,
        ;
    }
}

/// A caller-owned pixel buffer: row-major RGBA, 8 bits per channel.
pub struct Image {
    pub width: u32,
    pub height: u32,
    pub data: Vec<u8>,
}

impl Image {
    pub open spec fn wf(&self) -> bool {
        &&& self.data@.len() == self.width * self.height * 4
        &&& self.width <= 4096
        &&& self.height <= 4096
    }

    /// The color stored at pixel `(x, y)`.
    pub open spec fn pixel_spec(&self, x: int, y: int) -> Rgba8 {
        let idx = (y * self.width + x) * 4;
        Rgba8 {
            r: self.data@[idx],
            g: self.data@[idx + 1],
            b: self.data@[idx + 2],
            a: self.data@[idx + 3],
        }
    }

    /// An all-zero (transparent black) buffer of the given resolution.
    pub fn new(width: u32, height: u32) -> (r: Image)
        requires
            1 <= width <= 4096,
            1 <= height <= 4096,
        ensures
            r.wf(),
            r.width == width,
            r.height == height,
            forall|i: int| 0 <= i < r.data@.len() ==> r.data@[i] == 0,
    {
        proof {
            lemma_mul_bound(width as int, height as int, 4096, 4096);
        }
        let n: usize = (width as usize) * (height as usize) * 4;
        let mut data: Vec<u8> = Vec::new();
        let mut i: usize = 0;
        while i < n
            invariant
                data@.len() == i,
                i <= n,
                forall|j: int| 0 <= j < i ==> data@[j] == 0,
            decreases n - i,
        {
            data.push(0);
            i = i + 1;
        }
        Image { width, height, data }
    }

    /// Writes one pixel; every other pixel keeps its color.
    pub fn put_pixel(&mut self, x: u32, y: u32, c: Rgba8)
        requires
            old(self).wf(),
            x < old(self).width,
            y < old(self).height,
        ensures
            final(self).wf(),
            final(self).width == old(self).width,
            final(self).height == old(self).height,
            final(self).pixel_spec(x as int, y as int) == c,
            forall|xi: int, yi: int|
                0 <= xi < old(self).width && 0 <= yi < old(self).height && !(xi == x && yi == y)
                    ==> final(self).pixel_spec(xi, yi) == old(self).pixel_spec(xi, yi),
    {
        proof {
            lemma_pixel_index(x as int, y as int, self.width as int, self.height as int);
            lemma_mul_bound(y as int, self.width as int, 4096, 4096);
        }
        let idx: usize = ((y as usize) * (self.width as usize) + (x as usize)) * 4;
        self.data.set(idx, c.r);
        self.data.set(idx + 1, c.g);
        self.data.set(idx + 2, c.b);
        self.data.set(idx + 3, c.a);
        proof {
            assert forall|xi: int, yi: int|
                0 <= xi < self.width && 0 <= yi < self.height && !(xi == x && yi == y) implies final
                (self).pixel_spec(xi, yi) == old(self).pixel_spec(xi, yi) by {
                lemma_pixel_index(xi, yi, self.width as int, self.height as int);
                lemma_pixel_distinct(xi, yi, x as int, y as int, self.width as int);
            }
        }
    }
}

/// A pixel's byte range lies inside the buffer.
proof fn lemma_pixel_index(x: int, y: int, w: int, h: int)
    requires
        0 <= x < w,
        0 <= y < h,
    ensures
        0 <= (y * w + x) * 4,
        (y * w + x) * 4 + 3 < w * h * 4,
        0 <= y * w,
        y * w + x < w * h,
{
    assert((y + 1) * w <= h * w) by (nonlinear_arith)
        requires
            y + 1 <= h,
            w >= 0,
    ;
    assert((y + 1) * w == y * w + w) by (nonlinear_arith);
    assert(h * w == w * h) by (nonlinear_arith);
    assert(y * w >= 0) by (nonlinear_arith)
        requires
            y >= 0,
            w >= 0,
    ;
    assert((y * w + x) * 4 == 4 * (y * w) + 4 * x) by (nonlinear_arith);
    assert(w * h * 4 == 4 * (w * h)) by (nonlinear_arith);
}

/// Distinct pixels occupy distinct byte ranges.
proof fn lemma_pixel_distinct(x1: int, y1: int, x2: int, y2: int, w: int)
    requires
        0 <= x1 < w,
        0 <= x2 < w,
        !(x1 == x2 && y1 == y2),
        0 <= y1,
        0 <= y2,
    ensures
        (y1 * w + x1) * 4 + 3 < (y2 * w + x2) * 4 || (y2 * w + x2) * 4 + 3 < (y1 * w + x1) * 4,
{
    if y1 == y2 {
        assert((y1 * w + x1) * 4 == 4 * (y1 * w) + 4 * x1) by (nonlinear_arith);
        assert((y2 * w + x2) * 4 == 4 * (y2 * w) + 4 * x2) by (nonlinear_arith);
    } else if y1 < y2 {
        assert((y1 + 1) * w <= y2 * w) by (nonlinear_arith)
            requires
                y1 + 1 <= y2,
                w >= 0,
        ;
        assert((y1 + 1) * w == y1 * w + w) by (nonlinear_arith);
        assert((y1 * w + x1) * 4 == 4 * (y1 * w) + 4 * x1) by (nonlinear_arith);
        assert((y2 * w + x2) * 4 == 4 * (y2 * w) + 4 * x2) by (nonlinear_arith);
    } else {
        assert((y2 + 1) * w <= y1 * w) by (nonlinear_arith)
            requires
                y2 + 1 <= y1,
                w >= 0,
        ;
        assert((y2 + 1) * w == y2 * w + w) by (nonlinear_arith);
        assert((y1 * w + x1) * 4 == 4 * (y1 * w) + 4 * x1) by (nonlinear_arith);
        assert((y2 * w + x2) * 4 == 4 * (y2 * w) + 4 * x2) by (nonlinear_arith);
    }
}

/// The closest hit among a prefix of the primitive list: the primitive index
/// and hit point whose squared distance from the anchor is smallest, earlier
/// primitives winning ties.
pub open spec fn closest_hit_spec(
    objs: Seq<SphereObject>,
    anchor: V3,
    dir: V3,
    maxd: int,
) -> Option<(int, V3)>
    decreases objs.len(),
{
    if objs.len() == 0 {
        Option::None
    } else {
        let prev = closest_hit_spec(objs.drop_last(), anchor, dir, maxd);
        let i = objs.len() - 1;
        match objs.last().spec_intersect(anchor, dir, maxd) {
            Option::None => prev,
            Option::Some(v) => match prev {
                Option::None => Option::Some((i as int, v)),
                Option::Some(pr) => if norm_sq(v3_sub(v, anchor)) < norm_sq(
                    v3_sub(pr.1, anchor),
                ) {
                    Option::Some((i as int, v))
                } else {
                    Option::Some(pr)
                },
            },
        }
    }
}

/// The closest-hit search is sound and minimal: a miss means no primitive
/// intersects the ray at all, and a winning hit comes from a real primitive
/// and is at least as close to the anchor, by squared distance, as any other
/// primitive's intersection.
pub proof fn lemma_closest_hit_minimal(objs: Seq<SphereObject>, anchor: V3, dir: V3, maxd: int)
    ensures
        match closest_hit_spec(objs, anchor, dir, maxd) {
            Option::None => forall|j: int|
                0 <= j < objs.len() ==> (#[trigger] objs[j].spec_intersect(
                    anchor,
                    dir,
                    maxd,
                )) is None,
            Option::Some(iv) => {
                &&& 0 <= iv.0 < objs.len()
                &&& objs[iv.0].spec_intersect(anchor, dir, maxd) == Option::Some(iv.1)
                &&& forall|j: int|
                    0 <= j < objs.len() && (#[trigger] objs[j].spec_intersect(
                        anchor,
                        dir,
                        maxd,
                    )) is Some ==> norm_sq(v3_sub(iv.1, anchor)) <= norm_sq(
                        v3_sub(objs[j].spec_intersect(anchor, dir, maxd).unwrap(), anchor),
                    )
            },
        },
    decreases objs.len(),
{
    if objs.len() > 0 {
        lemma_closest_hit_minimal(objs.drop_last(), anchor, dir, maxd);
        assert(forall|j: int|
            0 <= j < objs.len() - 1 ==> objs.drop_last()[j] == objs[j]);
    }
}

/// The ambient color for a miss: every directional light's contribution
/// folded, in order, over transparent black.
pub open spec fn ambient_spec(lights: Seq<DirectionalLight>, dir: V3) -> Rgba8
    decreases lights.len(),
{
    if lights.len() == 0 {
        transparent_black()
    } else {
        lights.last().colorize_spec(dir, ambient_spec(lights.drop_last(), dir))
    }
}

/// The summed incidence intensity the directional lights cast on a surface
/// with unit normal `normal`.
pub open spec fn directional_surface_sum(lights: Seq<DirectionalLight>, normal: V3) -> int
    decreases lights.len(),
{
    if lights.len() == 0 {
        0
    } else {
        directional_surface_sum(lights.drop_last(), normal) + directional_intensity(
            lights.last().dir@,
            normal,
        )
    }
}

/// One point light's contribution at `anchor`: zero when any primitive
/// stands between the anchor and the light, its inverse-square intensity
/// otherwise; a light coincident with the anchor contributes in full.
pub open spec fn point_light_term(objs: Seq<SphereObject>, l: PointLight, anchor: V3) -> int {
    let d = v3_sub(l.origin@, anchor);
    if v3_zero(d) {
        l.intensity as int
    } else {
        let dir = normalize_spec(d);
        let dist = sqrt_i(norm_sq(d));
        if closest_hit_spec(objs, anchor, dir, dist) is Some {
            0
        } else {
            point_intensity(l.origin@, l.intensity as int, anchor, dir)
        }
    }
}

/// The summed, shadow-tested point-light intensity at `anchor`.
pub open spec fn point_lights_sum(
    objs: Seq<SphereObject>,
    lights: Seq<PointLight>,
    anchor: V3,
) -> int
    decreases lights.len(),
{
    if lights.len() == 0 {
        0
    } else {
        point_lights_sum(objs, lights.drop_last(), anchor) + point_light_term(
            objs,
            lights.last(),
            anchor,
        )
    }
}

/// The biased continuation anchor of a shaded hit: the hit point nudged
/// forward along the reflected direction, so the shadow rays do not
/// immediately re-intersect their own surface.
pub open spec fn shade_anchor(hit: V3, dir: V3, n: V3) -> V3 {
    v3_add(hit, v3_scale_fx(normalize_spec(reflect_raw(dir, n)), REFLECT_BIAS as int))
}

/// The full shading of one ray: terminal transparent black on an exhausted
/// depth budget, the ambient fold on a miss or a degenerate normal, and
/// otherwise the hit primitive's color with alpha from the clamped sum of
/// the shadow-tested point lights and the directional surface terms.
///
/// Two deliberate design decisions: the reflected continuation ray only
/// anchors the shadow tests — no indirect bounce color is folded into the
/// result, deeper recursion being reserved for future indirect lighting —
/// and directional lights shade directly lit surfaces through their
/// incidence with the surface normal, besides coloring misses.
pub open spec fn raytrace_spec(
    objs: Seq<SphereObject>,
    dls: Seq<DirectionalLight>,
    pls: Seq<PointLight>,
    anchor: V3,
    dir: V3,
    depth: int,
    maxd: int,
) -> Rgba8 {
    if depth <= 0 {
        transparent_black()
    } else {
        match closest_hit_spec(objs, anchor, dir, maxd) {
            Option::None => ambient_spec(dls, dir),
            Option::Some((i, hit)) => {
                let s = objs[i];
                match s.spec_normal(hit) {
                    Option::None => ambient_spec(dls, dir),
                    Option::Some(n) => {
                        let sub_anchor = shade_anchor(hit, dir, n);
                        let total = point_lights_sum(objs, pls, sub_anchor)
                            + directional_surface_sum(dls, n);
                        let clamped = clamp_i(total, 0, FX_ONE as int);
                        let color = s.spec_color();
                        Rgba8 {
                            r: color.r,
                            g: color.g,
                            b: color.b,
                            a: div_t(clamped * 255, FX_ONE as int) as u8,
                        }
                    },
                }
            },
        }
    }
}

/// A sum of point-light terms that are each zero is zero.
pub proof fn lemma_point_lights_sum_zero(
    objs: Seq<SphereObject>,
    lights: Seq<PointLight>,
    anchor: V3,
)
    requires
        forall|j: int|
            0 <= j < lights.len() ==> point_light_term(objs, #[trigger] lights[j], anchor) == 0,
    ensures
        point_lights_sum(objs, lights, anchor) == 0,
    decreases lights.len(),
{
    if lights.len() > 0 {
        assert(forall|j: int|
            0 <= j < lights.len() - 1 ==> lights.drop_last()[j] == lights[j]);
        lemma_point_lights_sum_zero(objs, lights.drop_last(), anchor);
        assert(lights.last() == lights[lights.len() - 1]);
    }
}

/// Shadowing: when some primitive stands between the shaded point and every
/// point light, and no directional light is present, a hit ray's color is
/// the surface's base color at exactly zero alpha — each occluded light
/// contributes exactly nothing.
pub proof fn lemma_raytrace_full_shadow(
    objs: Seq<SphereObject>,
    pls: Seq<PointLight>,
    anchor: V3,
    dir: V3,
    depth: int,
    maxd: int,
)
    requires
        depth > 0,
        closest_hit_spec(objs, anchor, dir, maxd) is Some,
        ({
            let ih = closest_hit_spec(objs, anchor, dir, maxd).unwrap();
            objs[ih.0].spec_normal(ih.1) is Some
        }),
        ({
            let ih = closest_hit_spec(objs, anchor, dir, maxd).unwrap();
            let n = objs[ih.0].spec_normal(ih.1).unwrap();
            let sub = shade_anchor(ih.1, dir, n);
            forall|j: int|
                0 <= j < pls.len() ==> {
                    let d = v3_sub((#[trigger] pls[j]).origin@, sub);
                    &&& !v3_zero(d)
                    &&& closest_hit_spec(objs, sub, normalize_spec(d), sqrt_i(norm_sq(d))) is Some
                }
        }),
    ensures
        ({
            let ih = closest_hit_spec(objs, anchor, dir, maxd).unwrap();
            let color = objs[ih.0].spec_color();
            raytrace_spec(objs, Seq::empty(), pls, anchor, dir, depth, maxd) == (Rgba8 {
                r: color.r,
                g: color.g,
                b: color.b,
                a: 0,
            })
        }),
{
    let ih = closest_hit_spec(objs, anchor, dir, maxd).unwrap();
    let n = objs[ih.0].spec_normal(ih.1).unwrap();
    let sub = shade_anchor(ih.1, dir, n);
    assert forall|j: int|
        0 <= j < pls.len() implies point_light_term(objs, #[trigger] pls[j], sub) == 0 by {
        let d = v3_sub(pls[j].origin@, sub);
        assert(closest_hit_spec(objs, sub, normalize_spec(d), sqrt_i(norm_sq(d))) is Some);
    }
    lemma_point_lights_sum_zero(objs, pls, sub);
    lemma_div_of0(FX_ONE as int);
}

/// With no lights at all, shading reduces to the silhouette: a missed ray is
/// fully transparent black, a hit shows the primitive's base color at
/// exactly zero alpha (a degenerate normal also falls back to transparent
/// black) — the intersection shape is observable independent of shading.
pub proof fn lemma_raytrace_unlit_silhouette(
    objs: Seq<SphereObject>,
    anchor: V3,
    dir: V3,
    depth: int,
    maxd: int,
)
    requires
        depth > 0,
    ensures
        match closest_hit_spec(objs, anchor, dir, maxd) {
            Option::None => raytrace_spec(
                objs,
                Seq::empty(),
                Seq::empty(),
                anchor,
                dir,
                depth,
                maxd,
            ) == transparent_black(),
            Option::Some(ih) => {
                let color = objs[ih.0].spec_color();
                if objs[ih.0].spec_normal(ih.1) is Some {
                    raytrace_spec(objs, Seq::empty(), Seq::empty(), anchor, dir, depth, maxd)
                        == (Rgba8 { r: color.r, g: color.g, b: color.b, a: 0 })
                } else {
                    raytrace_spec(objs, Seq::empty(), Seq::empty(), anchor, dir, depth, maxd)
                        == transparent_black()
                }
            },
        },
{
    lemma_div_of0(FX_ONE as int);
}

/// With a single directional light and no point lights, a hit surface's
/// alpha is exactly the byte-scaled, clamped incidence of the light on the
/// surface normal — head-on incidence maximizes it (`lemma_directional_max`)
/// — and incidence of at least 258 raw parts yields strictly positive
/// alpha.
pub proof fn lemma_raytrace_one_directional(
    objs: Seq<SphereObject>,
    l: DirectionalLight,
    anchor: V3,
    dir: V3,
    depth: int,
    maxd: int,
)
    requires
        depth > 0,
        closest_hit_spec(objs, anchor, dir, maxd) is Some,
        ({
            let ih = closest_hit_spec(objs, anchor, dir, maxd).unwrap();
            objs[ih.0].spec_normal(ih.1) is Some
        }),
    ensures
        ({
            let ih = closest_hit_spec(objs, anchor, dir, maxd).unwrap();
            let n = objs[ih.0].spec_normal(ih.1).unwrap();
            let color = objs[ih.0].spec_color();
            let inten = directional_intensity(l.dir@, n);
            let alpha = div_t(clamp_i(inten, 0, FX_ONE as int) * 255, FX_ONE as int);
            &&& raytrace_spec(objs, seq![l], Seq::empty(), anchor, dir, depth, maxd) == (Rgba8 {
                r: color.r,
                g: color.g,
                b: color.b,
                a: alpha as u8,
            })
            &&& inten >= 258 ==> alpha >= 1
            &&& 0 <= alpha <= 255
        }),
{
    let ih = closest_hit_spec(objs, anchor, dir, maxd).unwrap();
    let n = objs[ih.0].spec_normal(ih.1).unwrap();
    let inten = directional_intensity(l.dir@, n);
    let dls = seq![l];
    assert(dls.drop_last() =~= Seq::<DirectionalLight>::empty());
    assert(dls.last() == l);
    assert(directional_surface_sum(Seq::<DirectionalLight>::empty(), n) == 0);
    assert(directional_surface_sum(dls, n) == inten);
    let clamped = clamp_i(inten, 0, FX_ONE as int);
    lemma_div_t_shrink(clamped * 255, FX_ONE as int, 255);
    lemma_div_t_mul_le(clamped * 255, FX_ONE as int);
    if inten >= 258 {
        lemma_div_is_ordered(65536, clamped * 255, 65536);
        lemma_div_by_self(65536);
    }
}

/// The color render writes at pixel `(x, y)`: the traced color of that
/// pixel's camera ray, composited over opaque black.
pub open spec fn render_pixel_spec(s: Scene, c: Camera, x: int, y: int) -> Rgba8 {
    blend_over_spec(
        Rgba8 { r: 0, g: 0, b: 0, a: 255 },
        raytrace_spec(
            s.objects@,
            s.directional_lights@,
            s.point_lights@,
            c.location@,
            camera_ray_dir(c, x, y),
            RENDER_DEPTH as int,
            RENDER_MAX_DISTANCE as int,
        ),
    )
}

/// A per-frame snapshot of the world: the primitives and the lights,
/// consumed read-only while rendering.
pub struct Scene {
    pub objects: Vec<SphereObject>,
    pub directional_lights: Vec<DirectionalLight>,
    pub point_lights: Vec<PointLight>,
}

impl Scene {
    pub open spec fn wf(&self) -> bool {
        &&& forall|i: int| 0 <= i < self.objects@.len() ==> (#[trigger] self.objects@[i]).wf()
        &&& forall|i: int|
            0 <= i < self.directional_lights@.len() ==> (#[trigger] self.directional_lights@[i]).wf()
        &&& forall|i: int|
            0 <= i < self.point_lights@.len() ==> (#[trigger] self.point_lights@[i]).wf()
        &&& self.objects@.len() <= 0x10000
        &&& self.directional_lights@.len() <= 0x10000
        &&& self.point_lights@.len() <= 0x10000
    }

    /// The ambient color of a ray that hits nothing.
    pub fn get_ambient_light(&self, ray: &Line3D) -> (r: Rgba8)
        requires
            self.wf(),
            ray.wf(),
        ensures
            r == ambient_spec(self.directional_lights@, ray.dir@),
    {
        let mut result = Rgba8 { r: 0, g: 0, b: 0, a: 0 };
        let mut i: usize = 0;
        while i < self.directional_lights.len()
            invariant
                self.wf(),
                ray.wf(),
                i <= self.directional_lights@.len(),
                result == ambient_spec(self.directional_lights@.take(i as int), ray.dir@),
            decreases self.directional_lights@.len() - i,
        {
            let light = &self.directional_lights[i];
            light.colorize(&ray.dir, &mut result);
            proof {
                let pre = self.directional_lights@.take(i as int);
                let post = self.directional_lights@.take(i + 1);
                assert(post.drop_last() =~= pre);
                assert(post.last() == self.directional_lights@[i as int]);
            }
            i = i + 1;
        }
        proof {
            assert(self.directional_lights@.take(self.directional_lights@.len() as int)
                =~= self.directional_lights@);
        }
        result
    }

    /// The closest primitive a ray hits within `max_distance`, with the hit
    /// point: the minimum by squared distance from the anchor.
    pub fn find_closest_intersection(&self, ray: &Line3D, max_distance: i64) -> (r: Option<
        (usize, Point3D),
    >)
        requires
            self.wf(),
            ray.wf(),
            v3_bounded(ray.anchor@, COORD_LIMIT as int),
            0 <= max_distance <= COORD_LIMIT,
        ensures
            match r {
                Option::None => closest_hit_spec(
                    self.objects@,
                    ray.anchor@,
                    ray.dir@,
                    max_distance as int,
                ) is None,
                Option::Some(ip) => {
                    &&& closest_hit_spec(
                        self.objects@,
                        ray.anchor@,
                        ray.dir@,
                        max_distance as int,
                    ) == Option::Some((ip.0 as int, ip.1@))
                    &&& ip.0 < self.objects@.len()
                    &&& v3_bounded(v3_sub(ip.1@, ray.anchor@), 4 * max_distance as int)
                },
            },
    {
        let mut best: Option<(usize, Point3D)> = Option::None;
        let mut best_key: i128 = 0;
        let mut i: usize = 0;
        while i < self.objects.len()
            invariant
                self.wf(),
                ray.wf(),
                v3_bounded(ray.anchor@, COORD_LIMIT as int),
                0 <= max_distance <= COORD_LIMIT,
                i <= self.objects@.len(),
                match best {
                    Option::None => closest_hit_spec(
                        self.objects@.take(i as int),
                        ray.anchor@,
                        ray.dir@,
                        max_distance as int,
                    ) is None,
                    Option::Some(ip) => {
                        &&& closest_hit_spec(
                            self.objects@.take(i as int),
                            ray.anchor@,
                            ray.dir@,
                            max_distance as int,
                        ) == Option::Some((ip.0 as int, ip.1@))
                        &&& ip.0 < i
                        &&& best_key as int == norm_sq(v3_sub(ip.1@, ray.anchor@))
                        &&& v3_bounded(v3_sub(ip.1@, ray.anchor@), 4 * max_distance as int)
                    },
                },
            decreases self.objects@.len() - i,
        {
            let o = &self.objects[i];
            let hit = o.intersect(ray, max_distance);
            proof {
                let pre = self.objects@.take(i as int);
                let post = self.objects@.take(i + 1);
                assert(post.drop_last() =~= pre);
                assert(post.last() == self.objects@[i as int]);
            }
            match hit {
                Option::None => {},
                Option::Some(p) => {
                    let d = p.minus(&ray.anchor);
                    let key = d.norm_sq_wide();
                    match best {
                        Option::None => {
                            best = Option::Some((i, p));
                            best_key = key;
                        },
                        Option::Some(_) => {
                            if key < best_key {
                                best = Option::Some((i, p));
                                best_key = key;
                            }
                        },
                    }
                },
            }
            i = i + 1;
        }
        proof {
            assert(self.objects@.take(self.objects@.len() as int) =~= self.objects@);
        }
        best
    }

    /// Traces one ray to a color. A spent depth budget is terminal
    /// transparent black; a miss or a degenerate normal falls back to the
    /// ambient color; otherwise the hit surface is shaded by the
    /// shadow-tested point lights and the directional lights' incidence on
    /// the surface normal, the total clamped to full intensity.
    pub fn raytrace(&self, ray: &Line3D, max_depth: i64, max_distance: i64) -> (r: Rgba8)
        requires
            self.wf(),
            ray.wf(),
            v3_bounded(ray.anchor@, SCENE_LIMIT as int),
            0 <= max_distance <= SCENE_LIMIT,
        ensures
            r == raytrace_spec(
                self.objects@,
                self.directional_lights@,
                self.point_lights@,
                ray.anchor@,
                ray.dir@,
                max_depth as int,
                max_distance as int,
            ),
            max_depth <= 0 ==> r == transparent_black(),
    {
        if max_depth <= 0 {
            // The bounce budget is spent without reaching a light.
            return Rgba8 { r: 0, g: 0, b: 0, a: 0 };
        }
        let found = self.find_closest_intersection(ray, max_distance);
        match found {
            Option::None => self.get_ambient_light(ray),
            Option::Some((idx, intersection)) => {
                let obj = &self.objects[idx];
                match obj.normal(&intersection) {
                    Option::None => self.get_ambient_light(ray),
                    Option::Some(normal) => {
                        let reflected = reflect(&ray.dir, &normal);
                        let off = reflected.p.scaled_fx(REFLECT_BIAS);
                        let sub_anchor = intersection.plus(&off);
                        let total = self.point_light_total(&sub_anchor)
                            + self.directional_surface_total(&normal);
                        let clamped: i128 = if total > FX_ONE as i128 {
                            FX_ONE as i128
                        } else if total < 0 {
                            0
                        } else {
                            total
                        };
                        proof {
                            lemma_div_t_shrink((clamped as int) * 255, FX_ONE as int, 255);
                            lemma_div_t_mul_le((clamped as int) * 255, FX_ONE as int);
                        }
                        let alpha = crate::fixed::div_trunc(clamped * 255, FX_ONE as i128);
                        let color = obj.get_color();
                        Rgba8 { r: color.r, g: color.g, b: color.b, a: alpha as u8 }
                    },
                }
            },
        }
    }

    /// The shadow-tested point-light intensity at `anchor`.
    fn point_light_total(&self, anchor: &Point3D) -> (r: i128)
        requires
            self.wf(),
            v3_bounded(anchor@, 6 * SCENE_LIMIT as int),
        ensures
            r as int == point_lights_sum(self.objects@, self.point_lights@, anchor@),
            0 <= r <= 0x4000_0000_0000_0000_0000,
    {
        let mut total: i128 = 0;
        let mut k: usize = 0;
        while k < self.point_lights.len()
            invariant
                self.wf(),
                v3_bounded(anchor@, 6 * SCENE_LIMIT as int),
                k <= self.point_lights@.len(),
                total as int == point_lights_sum(
                    self.objects@,
                    self.point_lights@.take(k as int),
                    anchor@,
                ),
                0 <= total <= (k as int) * 0x4000_0000_0000_0000,
            decreases self.point_lights@.len() - k,
        {
            let light = &self.point_lights[k];
            let term = self.one_point_light(light, anchor);
            proof {
                let pre = self.point_lights@.take(k as int);
                let post = self.point_lights@.take(k + 1);
                assert(post.drop_last() =~= pre);
                assert(post.last() == self.point_lights@[k as int]);
                assert(((k + 1) as int) * 0x4000_0000_0000_0000 == (k as int) * 0x4000_0000_0000_0000
                    + 0x4000_0000_0000_0000) by (nonlinear_arith);
            }
            total = total + term;
            k = k + 1;
        }
        proof {
            assert(self.point_lights@.take(self.point_lights@.len() as int)
                =~= self.point_lights@);
        }
        total
    }

    /// One point light's shadow-tested contribution at `anchor`.
    fn one_point_light(&self, light: &PointLight, anchor: &Point3D) -> (r: i128)
        requires
            self.wf(),
            light.wf(),
            v3_bounded(anchor@, 6 * SCENE_LIMIT as int),
        ensures
            r as int == point_light_term(self.objects@, *light, anchor@),
            0 <= r <= 0x4000_0000_0000_0000,
    {
        let d = light.origin.minus(anchor);
        if d.x == 0 && d.y == 0 && d.z == 0 {
            return light.intensity as i128;
        }
        let n = match Norm3D::new(d) {
            Result::Ok(n) => n,
            Result::Err(_) => {
                proof {
                    assert(false);
                }
                Norm3D { p: Point3D { x: FX_ONE, y: 0, z: 0 } }
            },
        };
        let dist = light.origin.distance_fx(anchor);
        proof {
            lemma_norm_bound(v3_sub(light.origin@, anchor@), 7 * SCENE_LIMIT as int);
        }
        let shadow_ray = Line3D { anchor: *anchor, dir: n };
        let occluded = self.find_closest_intersection(&shadow_ray, dist);
        match occluded {
            Option::Some(_) => 0,
            Option::None => {
                let inten = light.get_intensity(&shadow_ray);
                proof {
                    lemma_shadow_cos_nonneg(light.origin@, light.intensity as int, anchor@);
                }
                inten as i128
            },
        }
    }

    /// The directional lights' summed incidence on a surface normal.
    fn directional_surface_total(&self, normal: &Norm3D) -> (r: i128)
        requires
            self.wf(),
            normal.wf(),
        ensures
            r as int == directional_surface_sum(self.directional_lights@, normal@),
            0 <= r <= 0x10000 * 0x30000,
    {
        let mut total: i128 = 0;
        let mut k: usize = 0;
        while k < self.directional_lights.len()
            invariant
                self.wf(),
                normal.wf(),
                k <= self.directional_lights@.len(),
                total as int == directional_surface_sum(
                    self.directional_lights@.take(k as int),
                    normal@,
                ),
                0 <= total <= (k as int) * 0x30000,
            decreases self.directional_lights@.len() - k,
        {
            let light = &self.directional_lights[k];
            let term = light.get_intensity(normal);
            proof {
                let pre = self.directional_lights@.take(k as int);
                let post = self.directional_lights@.take(k + 1);
                assert(post.drop_last() =~= pre);
                assert(post.last() == self.directional_lights@[k as int]);
                assert(((k + 1) as int) * 0x30000 == (k as int) * 0x30000 + 0x30000)
                    by (nonlinear_arith);
            }
            total = total + term as i128;
            k = k + 1;
        }
        proof {
            assert(self.directional_lights@.take(self.directional_lights@.len() as int)
                =~= self.directional_lights@);
        }
        total
    }

    /// Renders a full frame: traces the camera ray of every pixel and writes
    /// the resulting color, composited over opaque black, at that pixel.
    pub fn render(&self, image: &mut Image, camera: &Camera)
        requires
            self.wf(),
            camera.wf(),
            old(image).wf(),
            old(image).width == camera.width,
            old(image).height == camera.height,
        ensures
            final(image).wf(),
            final(image).width == camera.width,
            final(image).height == camera.height,
            forall|xi: int, yi: int|
                0 <= xi < camera.width && 0 <= yi < camera.height ==> final(image).pixel_spec(
                    xi,
                    yi,
                ) == render_pixel_spec(*self, *camera, xi, yi),
    {
        let rays = camera.get_rays();
        let w = camera.width;
        let h = camera.height;
        let mut k: usize = 0;
        while k < rays.len()
            invariant
                self.wf(),
                camera.wf(),
                image.wf(),
                image.width == w,
                image.height == h,
                w == camera.width,
                h == camera.height,
                rays@.len() == w * h,
                k <= rays@.len(),
                forall|xi: int, yi: int|
                    0 <= xi < w && 0 <= yi < h ==> {
                        let t = #[trigger] rays@[xi * h + yi];
                        &&& t.0 == xi
                        &&& t.1 == yi
                        &&& t.2.anchor == camera.location
                        &&& t.2.dir@ == camera_ray_dir(*camera, xi, yi)
                        &&& t.2.dir.wf()
                    },
                forall|xi: int, yi: int|
                    0 <= xi < w && 0 <= yi < h && xi * h + yi < k ==> image.pixel_spec(xi, yi)
                        == render_pixel_spec(*self, *camera, xi, yi),
            decreases rays@.len() - k,
        {
            proof {
                lemma_grid_cell(k as int, w as int, h as int);
            }
            let t = rays[k];
            let x = t.0;
            let y = t.1;
            let color = self.raytrace(&t.2, RENDER_DEPTH, RENDER_MAX_DISTANCE);
            let mut result = Rgba8 { r: 0, g: 0, b: 0, a: 255 };
            result.blend(&color);
            image.put_pixel(x, y, result);
            proof {
                assert forall|xi: int, yi: int|
                    0 <= xi < w && 0 <= yi < h && xi * h + yi < k + 1 implies image.pixel_spec(
                    xi,
                    yi,
                ) == render_pixel_spec(*self, *camera, xi, yi) by {
                    lemma_grid_cell(k as int, w as int, h as int);
                    if xi * h + yi == k {
                        lemma_grid_cell_unique(xi, yi, k as int, w as int, h as int);
                    }
                }
            }
            k = k + 1;
        }
        proof {
            assert forall|xi: int, yi: int|
                0 <= xi < camera.width && 0 <= yi < camera.height implies image.pixel_spec(xi, yi)
                == render_pixel_spec(*self, *camera, xi, yi) by {
                lemma_grid_prefix(camera.width as int, camera.height as int);
            }
        }
    }
}

/// A shadow ray's own direction has nonnegative incidence with itself, so a
/// visible point light never contributes negatively.
proof fn lemma_shadow_cos_nonneg(origin: V3, inten: int, anchor: V3)
    requires
        inten >= 0,
        !v3_zero(v3_sub(origin, anchor)),
    ensures
        point_intensity(origin, inten, anchor, normalize_spec(v3_sub(origin, anchor))) >= 0,
{
    let d = v3_sub(origin, anchor);
    let n = normalize_spec(d);
    lemma_square_nonneg(n.x);
    lemma_square_nonneg(n.y);
    lemma_square_nonneg(n.z);
    lemma_div_t_mul_le(dot_raw(n, n), FX_ONE as int);
    let cos = dot_fx(n, n);
    let d2 = div_t(norm_sq(d), FX_ONE as int);
    if d2 != 0 {
        assert(inten * cos >= 0) by (nonlinear_arith)
            requires
                inten >= 0,
                cos >= 0,
        ;
        lemma_square_nonneg(d.x);
        lemma_square_nonneg(d.y);
        lemma_square_nonneg(d.z);
        lemma_div_t_mul_le(norm_sq(d), FX_ONE as int);
        lemma_div_t_mul_le(inten * cos, d2);
    }
}

/// A linear index below `w * h` decomposes into grid coordinates.
proof fn lemma_grid_cell(k: int, w: int, h: int)
    requires
        0 <= k < w * h,
        1 <= w,
        1 <= h,
    ensures
        0 <= k / h < w,
        0 <= k % h < h,
        (k / h) * h + (k % h) == k,
{
    lemma_fundamental_div_mod(k, h);
    lemma_mod_bound(k, h);
    lemma_div_pos_is_pos(k, h);
    assert((k / h) * h == h * (k / h)) by (nonlinear_arith);
    if k / h >= w {
        assert(w * h <= (k / h) * h) by (nonlinear_arith)
            requires
                w <= k / h,
                h >= 0,
        ;
    }
}

/// Grid coordinates map to their linear index uniquely.
proof fn lemma_grid_cell_unique(xi: int, yi: int, k: int, w: int, h: int)
    requires
        0 <= xi < w,
        0 <= yi < h,
        0 <= k < w * h,
        1 <= w,
        1 <= h,
        xi * h + yi == k,
    ensures
        xi == k / h,
        yi == k % h,
{
    assert(xi * h == h * xi) by (nonlinear_arith);
    lemma_fundamental_div_mod_converse(k, h, xi, yi);
}

} // verus!
