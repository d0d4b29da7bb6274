use raytracer::hittable::{Hit, HittableList};
use raytracer::material::{Lambertian, Material};
use raytracer::ray::Ray;
use raytracer::sphere::Sphere;
use raytracer::vec3::{dot_product, Vector3};
use raytracer::SCALE;

fn v(x: i64, y: i64, z: i64) -> Vector3 {
    Vector3::new(x, y, z)
}

fn gray() -> Material {
    Material::Lambertian(Lambertian { albedo: v(SCALE / 2, SCALE / 2, SCALE / 2) })
}

fn unit_sphere_at_origin(radius: i64) -> Sphere {
    Sphere::new(v(0, 0, 0), radius, gray())
}

const FAR: i64 = 0x40_0000;

#[test]
fn axis_ray_hits_at_distance_minus_radius() {
    // a sphere of radius 0.5 at the origin, seen from (0, 0, 2): t == 1.5
    let s = unit_sphere_at_origin(SCALE / 2);
    let ray = Ray::new(v(0, 0, 2 * SCALE), v(0, 0, -SCALE));
    let hit = s.hit(&ray, 65, FAR).expect("front hit");
    assert_eq!(hit.t, 2 * SCALE - SCALE / 2);
    assert!(hit.front_face);
    assert_eq!(hit.normal, v(0, 0, SCALE));
    assert_eq!(hit.point, v(0, 0, SCALE / 2));
}

#[test]
fn wide_ray_misses() {
    // closest approach 2.0 exceeds the radius 0.5
    let s = unit_sphere_at_origin(SCALE / 2);
    let ray = Ray::new(v(2 * SCALE, 0, 2 * SCALE), v(0, 0, -SCALE));
    assert!(s.hit(&ray, 65, FAR).is_none());
}

#[test]
fn tangent_ray_counts_as_miss() {
    // grazing exactly at lateral offset == radius: the discriminant is zero
    let s = unit_sphere_at_origin(SCALE / 2);
    let ray = Ray::new(v(SCALE / 2, 0, 2 * SCALE), v(0, 0, -SCALE));
    assert!(s.hit(&ray, 65, FAR).is_none());
}

#[test]
fn hit_from_inside_flips_the_normal() {
    let s = unit_sphere_at_origin(SCALE);
    let ray = Ray::new(v(0, 0, 0), v(0, 0, -SCALE));
    let hit = s.hit(&ray, 65, FAR).expect("back hit");
    assert_eq!(hit.t, SCALE);
    assert!(!hit.front_face);
    // outward normal (0, 0, -1) flipped to point against the ray
    assert_eq!(hit.normal, v(0, 0, SCALE));
    assert_eq!(hit.point, v(0, 0, -SCALE));
}

#[test]
fn returned_normal_points_against_the_ray() {
    let s = unit_sphere_at_origin(SCALE / 2);
    let rays = [
        Ray::new(v(0, 0, 2 * SCALE), v(0, 0, -SCALE)),
        Ray::new(v(2 * SCALE, SCALE / 4, -SCALE / 4), v(-SCALE, 0, 0)),
        Ray::new(v(0, 0, 0), v(0, SCALE, 0)),
        Ray::new(v(-3 * SCALE, 100, 50), v(SCALE, 0, 0)),
    ];
    for ray in rays {
        if let Some(hit) = s.hit(&ray, 65, FAR) {
            assert!(dot_product(&ray.direction, &hit.normal) < 0);
        }
    }
}

#[test]
fn min_t_skips_the_near_root() {
    // from (0,0,2) against the unit sphere: roots at t == 1 and t == 3
    let s = unit_sphere_at_origin(SCALE);
    let ray = Ray::new(v(0, 0, 2 * SCALE), v(0, 0, -SCALE));
    let near = s.hit(&ray, 65, FAR).expect("near root");
    assert_eq!(near.t, SCALE);
    let far = s.hit(&ray, 2 * SCALE, FAR).expect("far root");
    assert_eq!(far.t, 3 * SCALE);
    assert!(!far.front_face);
    assert!(s.hit(&ray, 4 * SCALE, FAR).is_none());
}

#[test]
fn scene_returns_the_nearest_hit() {
    let near = Sphere::new(v(0, 0, -2 * SCALE), SCALE / 2, gray());
    let far = Sphere::new(v(0, 0, -6 * SCALE), SCALE / 2, gray());
    let ray = Ray::new(v(0, 0, 0), v(0, 0, -SCALE));

    let mut world = HittableList::new();
    world.objects.push(near);
    world.objects.push(far);
    let hit = world.hit(&ray, 65, FAR).expect("hit");
    assert_eq!(hit.t, 2 * SCALE - SCALE / 2);
}

#[test]
fn scene_result_does_not_depend_on_insertion_order() {
    let a = Sphere::new(v(0, 0, -2 * SCALE), SCALE / 2, gray());
    let b = Sphere::new(v(0, 0, -6 * SCALE), SCALE / 2, gray());
    let ray = Ray::new(v(0, 0, 0), v(0, 0, -SCALE));

    let mut w1 = HittableList::new();
    w1.objects.push(a);
    w1.objects.push(b);
    let mut w2 = HittableList::new();
    w2.objects.push(b);
    w2.objects.push(a);

    let h1 = w1.hit(&ray, 65, FAR).expect("hit");
    let h2 = w2.hit(&ray, 65, FAR).expect("hit");
    assert_eq!(h1.t, h2.t);
    assert_eq!(h1.point, h2.point);
    assert_eq!(h1.normal, h2.normal);
    assert_eq!(h1.front_face, h2.front_face);
}

#[test]
fn empty_scene_has_no_hit() {
    let world = HittableList::new();
    let ray = Ray::new(v(0, 0, 0), v(0, 0, -SCALE));
    assert!(world.hit(&ray, 65, FAR).is_none());
}
