use raytracer::camera::Camera;
use raytracer::hittable::HittableList;
use raytracer::material::{Lambertian, Material, Metal};
use raytracer::ray::Ray;
use raytracer::render::{finalize_color, ray_color, render};
use raytracer::rng::RandomSource;
use raytracer::sphere::Sphere;
use raytracer::vec3::Vector3;
use raytracer::SCALE;

fn v(x: i64, y: i64, z: i64) -> Vector3 {
    Vector3::new(x, y, z)
}

fn single_sphere_world() -> HittableList {
    let mut world = HittableList::new();
    world.objects.push(Sphere::new(
        v(0, 0, 0),
        SCALE / 2,
        Material::Lambertian(Lambertian { albedo: v(SCALE / 2, SCALE / 2, SCALE / 2) }),
    ));
    world
}

#[test]
fn zero_depth_is_black_whatever_the_scene() {
    let world = single_sphere_world();
    let mut src = RandomSource::new(5);
    let rays = [
        Ray::new(v(0, 0, 2 * SCALE), v(0, 0, -SCALE)),
        Ray::new(v(SCALE, -SCALE, 0), v(123, 456, 789)),
    ];
    for ray in rays {
        let c = ray_color(&ray, &world, 0, &mut src);
        assert_eq!(c, v(0, 0, 0));
    }
}

#[test]
fn empty_scene_gives_exact_background_gradient() {
    let world = HittableList::new();
    let mut src = RandomSource::new(6);
    // horizontal ray: t == 0.5, halfway between white and sky blue
    let c = ray_color(&Ray::new(v(0, 0, 0), v(0, 0, -SCALE)), &world, 8, &mut src);
    assert_eq!(c, v(49152, 55705, 65536));
    // straight up: exactly the sky blue (0.5, 0.7, 1.0)
    let c = ray_color(&Ray::new(v(0, 0, 0), v(0, SCALE, 0)), &world, 8, &mut src);
    assert_eq!(c, v(32768, 45875, 65536));
    // straight down: exactly white
    let c = ray_color(&Ray::new(v(0, 0, 0), v(0, -SCALE, 0)), &world, 8, &mut src);
    assert_eq!(c, v(SCALE, SCALE, SCALE));
}

#[test]
fn depth_one_hit_is_black_because_the_bounce_budget_ends() {
    // the scattered ray is evaluated at depth zero, so the attenuated result
    // is exactly black whatever was drawn
    let world = single_sphere_world();
    let mut src = RandomSource::new(7);
    let c = ray_color(&Ray::new(v(0, 0, 2 * SCALE), v(0, 0, -SCALE)), &world, 1, &mut src);
    assert_eq!(c, v(0, 0, 0));
}

#[test]
fn finalize_color_gamma_corrects_exactly() {
    // full white stays just under one and maps to 255
    assert_eq!(finalize_color(&v(SCALE, SCALE, SCALE), 1), (255, 255, 255));
    assert_eq!(finalize_color(&v(0, 0, 0), 1), (0, 0, 0));
    // intensity 0.25 gamma-corrects to 0.5: byte 128
    assert_eq!(finalize_color(&v(SCALE / 4, SCALE / 4, SCALE / 4), 1), (128, 128, 128));
    // four samples of full white average back to full white
    assert_eq!(finalize_color(&v(4 * SCALE, 4 * SCALE, 4 * SCALE), 4), (255, 255, 255));
}

fn demo_camera() -> Camera {
    // looking at the origin from (13, 2, 3), vfov 20 degrees: tan(10deg) as a
    // scaled scalar, aspect 3:2, pinhole, focus 10
    Camera::new(
        v(13 * SCALE, 2 * SCALE, 3 * SCALE),
        v(0, 0, 0),
        v(0, SCALE, 0),
        11556,
        3 * SCALE / 2,
        0,
        10 * SCALE,
    )
}

#[test]
fn pinhole_camera_is_deterministic() {
    let cam = demo_camera();
    assert_eq!(cam.lens_radius, 0);
    let mut src = RandomSource::new(8);
    let a = cam.get_ray(SCALE / 2, SCALE / 2, &mut src);
    let b = cam.get_ray(SCALE / 2, SCALE / 2, &mut src);
    assert_eq!(a.origin, b.origin);
    assert_eq!(a.direction, b.direction);
    assert_eq!(a.origin, v(13 * SCALE, 2 * SCALE, 3 * SCALE));
}

#[test]
fn camera_frame_is_orthogonal_up_to_rounding() {
    let cam = demo_camera();
    let small = 64;
    assert!(raytracer::vec3::dot_product(&cam.u, &cam.w).abs() <= small);
    assert!(raytracer::vec3::dot_product(&cam.v, &cam.w).abs() <= small);
    assert!(raytracer::vec3::dot_product(&cam.u, &cam.v).abs() <= small);
}

fn demo_world() -> HittableList {
    let mut world = HittableList::new();
    // ground sphere below, lambertian sphere at the focus
    world.objects.push(Sphere::new(
        v(0, -100 * SCALE, 0),
        100 * SCALE - SCALE / 2,
        Material::Lambertian(Lambertian { albedo: v(SCALE / 2, SCALE / 2, SCALE / 2) }),
    ));
    world.objects.push(Sphere::new(
        v(0, 0, 0),
        SCALE / 2,
        Material::Metal(Metal::new(v(SCALE / 2, SCALE / 2, SCALE / 2), 0)),
    ));
    world
}

#[test]
fn render_emits_one_rgb_triple_per_pixel() {
    let img = render(&demo_world(), &demo_camera(), 8, 6, 2, 8, 42);
    assert_eq!(img.len(), 3 * 8 * 6);
}

#[test]
fn seeded_renders_are_reproducible() {
    let a = render(&demo_world(), &demo_camera(), 8, 6, 2, 8, 42);
    let b = render(&demo_world(), &demo_camera(), 8, 6, 2, 8, 42);
    assert_eq!(a, b);
}

#[test]
fn zero_depth_renders_an_all_black_image() {
    let img = render(&demo_world(), &demo_camera(), 8, 6, 3, 0, 21);
    assert!(img.iter().all(|&b| b == 0));
}

#[test]
fn empty_scene_saturates_every_blue_channel() {
    // the background's blue channel is exactly one for every direction, so
    // after gamma correction every third byte is 255
    let img = render(&HittableList::new(), &demo_camera(), 8, 6, 2, 8, 22);
    for (k, &b) in img.iter().enumerate() {
        if k % 3 == 2 {
            assert_eq!(b, 255);
        }
    }
}

#[test]
fn the_sphere_is_visible_against_the_background() {
    let with_sphere = render(&demo_world(), &demo_camera(), 9, 9, 1, 4, 3);
    let empty = render(&HittableList::new(), &demo_camera(), 9, 9, 1, 4, 3);
    assert_eq!(with_sphere.len(), empty.len());
    assert_ne!(with_sphere, empty);
}
