use raytracer::rng::RandomSource;
use raytracer::vec3::{
    clamp, cross, dot_product, random_in_unit_disk, random_in_unit_sphere, unit_vector, Vector3,
};
use raytracer::SCALE;

fn v(x: i64, y: i64, z: i64) -> Vector3 {
    Vector3::new(x, y, z)
}

#[test]
fn add_sub_are_componentwise() {
    let a = v(SCALE, 2 * SCALE, -SCALE);
    let b = v(3, -7, 11);
    assert_eq!(a.add(b), v(SCALE + 3, 2 * SCALE - 7, -SCALE + 11));
    assert_eq!(a.sub(b), v(SCALE - 3, 2 * SCALE + 7, -SCALE - 11));
}

#[test]
fn add_assign_accumulates() {
    let mut a = v(1, 2, 3);
    a.add_assign(v(10, 20, 30));
    assert_eq!(a, v(11, 22, 33));
}

#[test]
fn mul_is_scaled_componentwise() {
    // 0.5 * 0.5 == 0.25 in every lane
    let h = v(SCALE / 2, SCALE / 2, SCALE / 2);
    assert_eq!(h.mul(h), v(SCALE / 4, SCALE / 4, SCALE / 4));
    // multiplying by one is exact
    let a = v(12345, -678, 9);
    assert_eq!(a.mul(v(SCALE, SCALE, SCALE)), a);
}

#[test]
fn scale_and_div_are_inverses_on_powers_of_two() {
    let a = v(4 * SCALE, -8 * SCALE, 16);
    assert_eq!(a.scale(2 * SCALE), v(8 * SCALE, -16 * SCALE, 32));
    assert_eq!(a.div(2 * SCALE), v(2 * SCALE, -4 * SCALE, 8));
}

#[test]
fn length_of_three_four_five_triangle() {
    let a = v(3 * SCALE, 4 * SCALE, 0);
    assert_eq!(a.length(), 5 * SCALE);
    assert_eq!(a.length_squared(), 25 * SCALE);
}

#[test]
fn dot_product_exact_values() {
    assert_eq!(dot_product(&v(SCALE, 0, 0), &v(SCALE, 0, 0)), SCALE);
    assert_eq!(dot_product(&v(SCALE, 0, 0), &v(0, SCALE, 0)), 0);
    assert_eq!(dot_product(&v(2 * SCALE, SCALE, 0), &v(SCALE, -SCALE, 7)), SCALE);
}

#[test]
fn cross_of_axes_is_third_axis() {
    let x = v(SCALE, 0, 0);
    let y = v(0, SCALE, 0);
    let z = v(0, 0, SCALE);
    assert_eq!(cross(&x, &y), z);
    assert_eq!(cross(&y, &z), x);
    assert_eq!(cross(&z, &x), y);
}

#[test]
fn unit_vector_exact_components() {
    let a = v(3 * SCALE, 4 * SCALE, 0);
    // 0.6 and 0.8, rounded down once
    assert_eq!(unit_vector(&a), v(39321, 52428, 0));
    assert_eq!(unit_vector(&v(0, 0, -5 * SCALE)), v(0, 0, -SCALE));
}

#[test]
fn unit_vector_has_length_one_within_tolerance() {
    let samples = [
        v(SCALE, SCALE, SCALE),
        v(17, 200000, -90000),
        v(-3 * SCALE, 5 * SCALE, 7 * SCALE),
        v(123456, -654321, 999),
    ];
    for a in samples {
        let u = unit_vector(&a);
        let raw = u.x as i128 * u.x as i128 + u.y as i128 * u.y as i128 + u.z as i128
            * u.z as i128;
        let s = SCALE as i128;
        assert!(raw >= s * s - 6 * s, "{raw}");
        assert!(raw <= s * s + 18 * s + 3, "{raw}");
    }
}

#[test]
fn cross_is_orthogonal_to_both_factors() {
    let us = [v(SCALE, 2 * SCALE, 3 * SCALE), v(-70000, 1234, 500000)];
    let vs = [v(-SCALE, SCALE, 4 * SCALE), v(31415, -92653, 58979)];
    for a in us {
        for b in vs {
            let c = cross(&a, &b);
            // the scaled dot is a few units at most, vanishing relative to the factors
            assert!(dot_product(&c, &a).abs() <= 40);
            assert!(dot_product(&c, &b).abs() <= 40);
        }
    }
}

#[test]
fn cross_is_antisymmetric_within_one_unit() {
    let us = [v(SCALE, 2 * SCALE, 3 * SCALE), v(-70000, 1234, 500000), v(7, -13, 29)];
    let vs = [v(-SCALE, SCALE, 4 * SCALE), v(31415, -92653, 58979)];
    for a in us {
        for b in vs {
            let ab = cross(&a, &b);
            let ba = cross(&b, &a);
            // each component of cross(b, a) is -cross(a, b) or one unit below
            for (p, q) in [(ab.x, ba.x), (ab.y, ba.y), (ab.z, ba.z)] {
                assert!(-p - 1 <= q && q <= -p, "{p} {q}");
            }
        }
    }
}

#[test]
fn clamp_forces_into_interval() {
    assert_eq!(clamp(5, 0, 10), 5);
    assert_eq!(clamp(-5, 0, 10), 0);
    assert_eq!(clamp(15, 0, 10), 10);
    assert_eq!(clamp(10, 0, 10), 10);
}

#[test]
fn random_vector_stays_in_box() {
    let mut src = RandomSource::new(1);
    for _ in 0..200 {
        let a = Vector3::random(-SCALE, SCALE, &mut src);
        assert!(a.x >= -SCALE && a.x < SCALE);
        assert!(a.y >= -SCALE && a.y < SCALE);
        assert!(a.z >= -SCALE && a.z < SCALE);
    }
}

#[test]
fn random_in_unit_sphere_stays_inside() {
    let mut src = RandomSource::new(2);
    for _ in 0..200 {
        let a = random_in_unit_sphere(&mut src);
        let raw = a.x as i128 * a.x as i128 + a.y as i128 * a.y as i128 + a.z as i128
            * a.z as i128;
        assert!(raw < (SCALE as i128) * (SCALE as i128));
    }
}

#[test]
fn random_unit_vector_is_nearly_unit() {
    let mut src = RandomSource::new(3);
    let s = SCALE as i128;
    for _ in 0..200 {
        let a = Vector3::new_random_unit(&mut src);
        let raw = a.x as i128 * a.x as i128 + a.y as i128 * a.y as i128 + a.z as i128
            * a.z as i128;
        assert!(raw >= s * s - 6 * s);
        assert!(raw <= s * s + 18 * s + 3);
    }
}

#[test]
fn random_in_unit_disk_is_flat_and_inside() {
    let mut src = RandomSource::new(4);
    for _ in 0..200 {
        let a = random_in_unit_disk(&mut src);
        assert_eq!(a.z, 0);
        let raw = a.x as i128 * a.x as i128 + a.y as i128 * a.y as i128;
        assert!(raw < (SCALE as i128) * (SCALE as i128));
    }
}

#[test]
fn ray_at_walks_the_ray() {
    let r = raytracer::ray::Ray::new(v(SCALE, 0, 0), v(0, 0, -SCALE));
    assert_eq!(r.at(2 * SCALE), v(SCALE, 0, -2 * SCALE));
    assert_eq!(r.at(0), v(SCALE, 0, 0));
    assert_eq!(r.at(-SCALE), v(SCALE, 0, SCALE));
}

#[test]
fn random_draws_vary_and_respect_bounds() {
    let mut src = RandomSource::new(9);
    let mut values = Vec::new();
    for _ in 0..64 {
        let x = src.next_in(-SCALE, SCALE);
        assert!(x >= -SCALE && x < SCALE);
        values.push(x);
    }
    // a uniform stream is not constant
    assert!(values.iter().any(|&x| x != values[0]));
    // different seeds give different streams
    let mut other = RandomSource::new(10);
    let different: Vec<i64> = (0..64).map(|_| other.next_in(-SCALE, SCALE)).collect();
    assert_ne!(values, different);
}
