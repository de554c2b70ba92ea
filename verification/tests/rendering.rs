use raytracer::color::{Rgb8, Rgba8};
use raytracer::fixed::{FX_ONE, FX_TAU};
use raytracer::geom::{Line3D, Norm3D, Point3D};
use raytracer::light::{DirectionalLight, PointLight};
use raytracer::objects::SphereObject;
use raytracer::scene::{Camera, Image, MAX_VERTICAL_ROTATION, Rad, Scene};

fn unit(x: i64, y: i64, z: i64) -> Norm3D {
    Norm3D::new(Point3D::new(x, y, z)).unwrap()
}

fn sphere(x: i64, y: i64, z: i64, radius: i64, color: Rgb8) -> SphereObject {
    SphereObject::new(Point3D::new(x, y, z), radius, color).unwrap()
}

fn camera_at_origin(width: u32, height: u32) -> Camera {
    Camera {
        width,
        height,
        rot_theta: Rad { val: 0 },
        rot_psi: Rad { val: 0 },
        location: Point3D::new(0, 0, 0),
    }
}

#[test]
fn directional_intensity_follows_incidence() {
    let light = DirectionalLight {
        dir: unit(0, 0, 1),
        color: Rgba8 { r: 255, g: 255, b: 255, a: 255 },
    };
    // Facing the same way as the light travels: dark.
    assert_eq!(light.get_intensity(&unit(0, 0, 1)), 0);
    // Perpendicular: dark.
    assert_eq!(light.get_intensity(&unit(1, 0, 0)), 0);
    // Exactly reversed: the maximum.
    assert_eq!(light.get_intensity(&unit(0, 0, -1)), FX_ONE);
}

#[test]
fn point_light_follows_the_inverse_square_law() {
    let light = PointLight { origin: Point3D::new(0, 0, 0), intensity: 100 * FX_ONE };
    let toward = unit(0, 0, 1);
    let at2 = light.get_intensity(&Line3D::new(Point3D::new(0, 0, -2 * FX_ONE), toward));
    let at3 = light.get_intensity(&Line3D::new(Point3D::new(0, 0, -3 * FX_ONE), toward));
    assert_eq!(at2, 1638400);
    assert_eq!(at3, 728177);
    assert!(at2 > at3);
}

#[test]
fn point_light_at_zero_distance_gives_full_intensity() {
    let light = PointLight { origin: Point3D::new(0, 0, 0), intensity: 100 * FX_ONE };
    let ray = Line3D::new(Point3D::new(0, 0, 0), unit(0, 0, 1));
    assert_eq!(light.get_intensity(&ray), 100 * FX_ONE);
}

#[test]
fn directional_colorize_blends_by_incidence() {
    let light = DirectionalLight {
        dir: unit(0, 0, 1),
        color: Rgba8 { r: 255, g: 255, b: 255, a: 255 },
    };
    let mut c = Rgba8 { r: 0, g: 0, b: 0, a: 0 };
    light.colorize(&unit(0, 0, -1), &mut c);
    assert_eq!(c, Rgba8 { r: 255, g: 255, b: 255, a: 255 });
    let mut dark = Rgba8 { r: 0, g: 0, b: 0, a: 0 };
    light.colorize(&unit(0, 0, 1), &mut dark);
    assert_eq!(dark, Rgba8 { r: 0, g: 0, b: 0, a: 0 });
    // At zero incidence colorize is a no-op, even on a fully transparent
    // destination with nonzero stored channels.
    let mut kept = Rgba8 { r: 10, g: 20, b: 30, a: 0 };
    light.colorize(&unit(0, 0, 1), &mut kept);
    assert_eq!(kept, Rgba8 { r: 10, g: 20, b: 30, a: 0 });
}

#[test]
fn blend_is_alpha_over() {
    let mut dst = Rgba8 { r: 0, g: 0, b: 0, a: 255 };
    dst.blend(&Rgba8 { r: 10, g: 20, b: 30, a: 0 });
    assert_eq!(dst, Rgba8 { r: 0, g: 0, b: 0, a: 255 });
    let mut dst = Rgba8 { r: 0, g: 0, b: 0, a: 255 };
    dst.blend(&Rgba8 { r: 10, g: 20, b: 30, a: 255 });
    assert_eq!(dst, Rgba8 { r: 10, g: 20, b: 30, a: 255 });
    // A fully transparent source over a fully transparent destination leaves
    // the destination untouched, stored channels included.
    let mut dst = Rgba8 { r: 10, g: 20, b: 30, a: 0 };
    dst.blend(&Rgba8 { r: 5, g: 6, b: 7, a: 0 });
    assert_eq!(dst, Rgba8 { r: 10, g: 20, b: 30, a: 0 });
}

#[test]
fn depth_exhaustion_is_transparent_black() {
    let scene = Scene {
        objects: vec![sphere(0, 0, 10 * FX_ONE, FX_ONE, Rgb8 { r: 200, g: 10, b: 10 })],
        directional_lights: vec![
            DirectionalLight {
                dir: unit(0, 0, 1),
                color: Rgba8 { r: 255, g: 255, b: 255, a: 255 },
            },
        ],
        point_lights: vec![PointLight { origin: Point3D::new(0, 0, 0), intensity: 100 * FX_ONE }],
    };
    let ray = Line3D::new(Point3D::new(0, 0, 0), unit(0, 0, 1));
    let c = scene.raytrace(&ray, 0, 10000 * FX_ONE);
    assert_eq!(c, Rgba8 { r: 0, g: 0, b: 0, a: 0 });
}

#[test]
fn shadowing_occluder_kills_the_point_light() {
    let target = sphere(0, 0, 10 * FX_ONE, FX_ONE, Rgb8 { r: 50, g: 60, b: 70 });
    let occluder = sphere(2 * FX_ONE, 0, 9 * FX_ONE, FX_ONE / 2, Rgb8 { r: 1, g: 1, b: 1 });
    let light = PointLight {
        origin: Point3D::new(4 * FX_ONE, 0, 9 * FX_ONE),
        intensity: 100 * FX_ONE,
    };
    let ray = Line3D::new(Point3D::new(0, 0, 0), unit(0, 0, 1));

    let open_scene = Scene {
        objects: vec![target],
        directional_lights: vec![],
        point_lights: vec![light],
    };
    let lit = open_scene.raytrace(&ray, 10, 10000 * FX_ONE);
    assert_eq!(lit, Rgba8 { r: 50, g: 60, b: 70, a: 255 });

    let blocked_scene = Scene {
        objects: vec![target, occluder],
        directional_lights: vec![],
        point_lights: vec![light],
    };
    let dark = blocked_scene.raytrace(&ray, 10, 10000 * FX_ONE);
    assert_eq!(dark, Rgba8 { r: 50, g: 60, b: 70, a: 0 });
}

#[test]
fn closest_hit_prefers_the_nearer_sphere() {
    // The nearer sphere wins the closest-hit search regardless of its
    // position in the list.
    let far = sphere(0, 0, 20 * FX_ONE, FX_ONE, Rgb8 { r: 1, g: 1, b: 1 });
    let near = sphere(0, 0, 10 * FX_ONE, FX_ONE, Rgb8 { r: 2, g: 2, b: 2 });
    let scene = Scene {
        objects: vec![far, near],
        directional_lights: vec![],
        point_lights: vec![],
    };
    let ray = Line3D::new(Point3D::new(0, 0, 0), unit(0, 0, 1));
    let c = scene.raytrace(&ray, 10, 10000 * FX_ONE);
    assert_eq!(c, Rgba8 { r: 2, g: 2, b: 2, a: 0 });
}

#[test]
fn blend_saturates_channels() {
    // Two barely covered white layers: the weighted channel sum overshoots a
    // byte and saturates at 255.
    let mut dst = Rgba8 { r: 255, g: 255, b: 255, a: 1 };
    dst.blend(&Rgba8 { r: 255, g: 255, b: 255, a: 1 });
    assert_eq!(dst, Rgba8 { r: 255, g: 255, b: 255, a: 1 });
}

#[test]
fn pitch_clamp_converges_to_the_limit() {
    let mut camera = camera_at_origin(16, 16);
    for _ in 0..10 {
        camera.rotate_psi(30000);
        assert!(camera.rot_psi.val <= MAX_VERTICAL_ROTATION);
    }
    assert_eq!(camera.rot_psi.val, MAX_VERTICAL_ROTATION);
    for _ in 0..10 {
        camera.rotate_psi(-30000);
        assert!(camera.rot_psi.val >= -MAX_VERTICAL_ROTATION);
    }
    assert_eq!(camera.rot_psi.val, -MAX_VERTICAL_ROTATION);
}

#[test]
fn yaw_wraps_around_a_full_turn() {
    let mut camera = camera_at_origin(16, 16);
    camera.rotate_theta(FX_TAU + 5);
    assert_eq!(camera.rot_theta.val, 5);
}

#[test]
fn movement_follows_the_camera_basis() {
    let mut camera = camera_at_origin(16, 16);
    camera.move_forward(3 * FX_ONE);
    assert_eq!(camera.location, Point3D::new(0, 0, 3 * FX_ONE));
    camera.move_right(2 * FX_ONE);
    assert_eq!(camera.location, Point3D::new(2 * FX_ONE, 0, 3 * FX_ONE));
    camera.move_forward(-3 * FX_ONE);
    assert_eq!(camera.location, Point3D::new(2 * FX_ONE, 0, 0));
}

#[test]
fn get_rays_covers_every_pixel() {
    let camera = camera_at_origin(4, 3);
    let rays = camera.get_rays();
    assert_eq!(rays.len(), 12);
    for x in 0..4u32 {
        for y in 0..3u32 {
            let t = &rays[(x * 3 + y) as usize];
            assert_eq!((t.0, t.1), (x, y));
            assert_eq!(t.2.anchor, Point3D::new(0, 0, 0));
        }
    }
}

#[test]
fn unlit_sphere_shows_its_silhouette_with_zero_alpha() {
    let scene = Scene {
        objects: vec![sphere(0, 0, 10 * FX_ONE, FX_ONE, Rgb8 { r: 200, g: 10, b: 10 })],
        directional_lights: vec![],
        point_lights: vec![],
    };
    let camera = camera_at_origin(11, 11);
    let rays = camera.get_rays();
    // The center pixel's ray crosses the sphere: base color, alpha 0.
    let center = &rays[(5 * 11 + 5) as usize];
    let c = scene.raytrace(&center.2, 10, 10000 * FX_ONE);
    assert_eq!(c, Rgba8 { r: 200, g: 10, b: 10, a: 0 });
    // A corner pixel's ray misses: fully transparent black.
    let corner = &rays[0];
    let c = scene.raytrace(&corner.2, 10, 10000 * FX_ONE);
    assert_eq!(c, Rgba8 { r: 0, g: 0, b: 0, a: 0 });
}

#[test]
fn head_on_directional_light_brightens_toward_the_disc_center() {
    let scene = Scene {
        objects: vec![sphere(0, 0, 10 * FX_ONE, 2 * FX_ONE, Rgb8 { r: 200, g: 10, b: 10 })],
        directional_lights: vec![
            DirectionalLight {
                dir: unit(0, 0, 1),
                color: Rgba8 { r: 255, g: 255, b: 255, a: 255 },
            },
        ],
        point_lights: vec![],
    };
    let camera = camera_at_origin(11, 11);
    let rays = camera.get_rays();
    let center = scene.raytrace(&rays[(5 * 11 + 5) as usize].2, 10, 10000 * FX_ONE);
    let rim = scene.raytrace(&rays[(4 * 11 + 4) as usize].2, 10, 10000 * FX_ONE);
    let corner = scene.raytrace(&rays[0].2, 10, 10000 * FX_ONE);
    assert_eq!(center.a, 246);
    assert_eq!(rim.a, 126);
    assert!(center.a > rim.a && rim.a > 0);
    // Off the silhouette the ray misses; the light faces away, so the
    // ambient fold stays transparent black.
    assert_eq!(corner, Rgba8 { r: 0, g: 0, b: 0, a: 0 });
}

#[test]
fn render_composites_over_opaque_black() {
    let scene = Scene {
        objects: vec![sphere(0, 0, 10 * FX_ONE, FX_ONE, Rgb8 { r: 200, g: 10, b: 10 })],
        directional_lights: vec![],
        point_lights: vec![],
    };
    let camera = camera_at_origin(11, 11);
    let mut image = Image::new(11, 11);
    scene.render(&mut image, &camera);
    // With no lights every traced color has alpha 0, so each pixel stays the
    // opaque black background.
    for y in 0..11usize {
        for x in 0..11usize {
            let idx = (y * 11 + x) * 4;
            assert_eq!(&image.data[idx..idx + 4], &[0, 0, 0, 255]);
        }
    }
}

#[test]
fn render_writes_lit_alpha_into_the_buffer() {
    let scene = Scene {
        objects: vec![sphere(0, 0, 10 * FX_ONE, 2 * FX_ONE, Rgb8 { r: 200, g: 10, b: 10 })],
        directional_lights: vec![
            DirectionalLight {
                dir: unit(0, 0, 1),
                color: Rgba8 { r: 255, g: 255, b: 255, a: 255 },
            },
        ],
        point_lights: vec![],
    };
    let camera = camera_at_origin(11, 11);
    let mut image = Image::new(11, 11);
    scene.render(&mut image, &camera);
    // The center pixel was hit with alpha 246: composited over opaque black
    // its red channel carries most of the base color.
    let idx = (5 * 11 + 5) * 4;
    let r = image.data[idx];
    assert!(r > 150, "center red channel {} too dark", r);
    assert_eq!(image.data[idx + 3], 255);
    // A corner pixel stays background black.
    assert_eq!(&image.data[0..4], &[0, 0, 0, 255]);
}
