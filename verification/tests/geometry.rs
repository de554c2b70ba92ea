use raytracer::color::Rgb8;
use raytracer::fixed::{FX_HALF_PI, FX_ONE, FX_PI, cos_fx, sin_fx};
use raytracer::geom::{GeomError, Line3D, Norm3D, Point3D};
use raytracer::objects::{Intersectable, SphereObject};
use raytracer::utils::{hsv_to_rgb, reflect};

fn unit(x: i64, y: i64, z: i64) -> Norm3D {
    Norm3D::new(Point3D::new(x, y, z)).unwrap()
}

fn norm_sq_of(n: &Norm3D) -> i128 {
    let (x, y, z) = (n.p.x as i128, n.p.y as i128, n.p.z as i128);
    x * x + y * y + z * z
}

#[test]
fn normalize_axis_is_exact() {
    let n = unit(0, 0, 1);
    assert_eq!(n.p, Point3D::new(0, 0, FX_ONE));
    let n = unit(-5, 0, 0);
    assert_eq!(n.p, Point3D::new(-FX_ONE, 0, 0));
}

#[test]
fn normalize_zero_vector_fails() {
    let r = Norm3D::new(Point3D::new(0, 0, 0));
    assert_eq!(r.unwrap_err(), GeomError::DegenerateDirection);
}

#[test]
fn normalized_vectors_stay_in_the_unit_band() {
    for &(x, y, z) in &[(1i64, 2, 3), (100, -200, 300), (65536, 65536, 65536), (7, 0, -9)] {
        let n = unit(x, y, z);
        let ns = norm_sq_of(&n);
        let one = FX_ONE as i128;
        assert!(ns >= one * one / 4, "squared length {} below the band", ns);
        assert!(ns <= 3 * one * one, "squared length {} above the band", ns);
    }
}

#[test]
fn distance_between_points() {
    let a = Point3D::new(3 * FX_ONE, 4 * FX_ONE, 0);
    let b = Point3D::new(0, 0, 0);
    assert_eq!(a.distance_fx(&b), 5 * FX_ONE);
}

#[test]
fn reflect_head_on_reverses_the_ray() {
    let down = unit(0, 0, 1);
    let normal = unit(0, 0, -1);
    let r = reflect(&down, &normal);
    assert_eq!(r.p, Point3D::new(0, 0, -FX_ONE));
}

#[test]
fn reflect_at_forty_five_degrees_mirrors_one_axis() {
    let d = unit(1, 0, 1);
    let normal = unit(0, 0, -1);
    let r = reflect(&d, &normal);
    // The mirrored diagonal, renormalized: FX_ONE / sqrt(2) per component.
    assert_eq!(r.p, Point3D::new(46340, 0, -46340));
}

#[test]
fn reflect_preserves_unit_length() {
    for &(dx, dy, dz, nx, ny, nz) in
        &[(1i64, 2, 3, 0i64, 0, -1), (5, -1, 2, 1, 1, 0), (-3, 4, -5, 2, -1, 3)]
    {
        let d = unit(dx, dy, dz);
        let n = unit(nx, ny, nz);
        let r = reflect(&d, &n);
        let ns = norm_sq_of(&r);
        let one = FX_ONE as i128;
        assert!(ns >= one * one / 4);
        assert!(ns <= 3 * one * one);
    }
}

#[test]
fn sphere_rejects_non_positive_radius() {
    let r = SphereObject::new(Point3D::new(0, 0, 0), 0, Rgb8 { r: 1, g: 2, b: 3 });
    assert_eq!(r.unwrap_err(), GeomError::InvalidConstruction);
    let ok = SphereObject::new(Point3D::new(0, 0, 0), 1, Rgb8 { r: 1, g: 2, b: 3 });
    assert!(ok.is_ok());
}

#[test]
fn sphere_intersect_hits_the_near_surface() {
    let s = SphereObject::new(
        Point3D::new(0, 0, 10 * FX_ONE),
        FX_ONE,
        Rgb8 { r: 0, g: 0, b: 0 },
    )
    .unwrap();
    let ray = Line3D::new(Point3D::new(0, 0, 0), unit(0, 0, 1));
    let p = s.intersect(&ray, 10000 * FX_ONE).unwrap();
    assert_eq!(p, Point3D::new(0, 0, 9 * FX_ONE));
    // The hit point lies on the surface: its distance from the center is the
    // radius, exactly here.
    assert_eq!(p.distance_fx(&s.center), FX_ONE);
}

#[test]
fn sphere_intersect_respects_the_distance_horizon() {
    let s = SphereObject::new(
        Point3D::new(0, 0, 10 * FX_ONE),
        FX_ONE,
        Rgb8 { r: 0, g: 0, b: 0 },
    )
    .unwrap();
    let ray = Line3D::new(Point3D::new(0, 0, 0), unit(0, 0, 1));
    assert!(s.intersect(&ray, 5 * FX_ONE).is_none());
}

#[test]
fn sphere_intersect_misses_on_negative_discriminant() {
    let s = SphereObject::new(
        Point3D::new(10 * FX_ONE, 0, 0),
        FX_ONE,
        Rgb8 { r: 0, g: 0, b: 0 },
    )
    .unwrap();
    let ray = Line3D::new(Point3D::new(0, 0, 0), unit(0, 0, 1));
    assert!(s.intersect(&ray, 10000 * FX_ONE).is_none());
}

#[test]
fn sphere_intersect_from_inside_takes_the_forward_root() {
    let s = SphereObject::new(
        Point3D::new(0, 0, 10 * FX_ONE),
        FX_ONE,
        Rgb8 { r: 0, g: 0, b: 0 },
    )
    .unwrap();
    let ray = Line3D::new(Point3D::new(0, 0, 10 * FX_ONE), unit(0, 0, 1));
    let p = s.intersect(&ray, 10000 * FX_ONE).unwrap();
    assert_eq!(p, Point3D::new(0, 0, 11 * FX_ONE));
}

#[test]
fn sphere_normal_points_out_of_the_center() {
    let s = SphereObject::new(
        Point3D::new(0, 0, 10 * FX_ONE),
        FX_ONE,
        Rgb8 { r: 0, g: 0, b: 0 },
    )
    .unwrap();
    let n = s.normal(&Point3D::new(0, 0, 9 * FX_ONE)).unwrap();
    assert_eq!(n.p, Point3D::new(0, 0, -FX_ONE));
    assert!(s.normal(&Point3D::new(0, 0, 10 * FX_ONE)).is_none());
}

#[test]
fn trig_hits_the_cardinal_values() {
    assert_eq!(sin_fx(0), 0);
    assert_eq!(cos_fx(0), FX_ONE);
    assert_eq!(sin_fx(FX_HALF_PI), FX_ONE);
    assert_eq!(sin_fx(FX_PI), 0);
    assert_eq!(sin_fx(-FX_HALF_PI), -FX_ONE);
}

#[test]
fn hsv_primary_hues() {
    let tau = raytracer::fixed::FX_TAU;
    assert_eq!(hsv_to_rgb(0, FX_ONE, FX_ONE), Rgb8 { r: 255, g: 0, b: 0 });
    assert_eq!(hsv_to_rgb(tau / 3, FX_ONE, FX_ONE), Rgb8 { r: 0, g: 255, b: 0 });
    assert_eq!(hsv_to_rgb(2 * tau / 3, FX_ONE, FX_ONE), Rgb8 { r: 0, g: 0, b: 255 });
    assert_eq!(
        hsv_to_rgb(FX_PI, FX_ONE / 2, FX_ONE),
        Rgb8 { r: 127, g: 255, b: 254 },
    );
}
