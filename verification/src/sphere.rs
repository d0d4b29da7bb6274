//! The sphere primitive and its closed-form ray intersection.
//!
//! The discriminant of the quadratic is formed from unrounded component sums
//! (scale `SCALE^4`), so rounding enters only at the square root and at the
//! division that produces each root.  Tangent rays (discriminant zero) count
//! as misses, a deliberate boundary policy kept throughout the crate.

use crate::fixed::{
    clamp_fx, div_fx, div_floor_i128, isqrt_u128, lemma_div_mag, lemma_mul_range,
    lemma_sqrt_floor_unique, mul_fx, sqrt_floor, SCALE,
};
use crate::hittable::{face_normal, hit_rec_wf, Hit, HitRecI, HitRecord};
use crate::material::Material;
use crate::ray::{ray_at, ray_wf, Ray, Rayi};
use crate::vec3::{raw_dot, vsub, within, Point3, Vec3i};
use vstd::prelude::*;

verus! {

#[derive(Clone, Copy)]
pub struct Sphere {
    pub center: Point3,
    pub radius: i64,
    pub material: Material,
}

/// Mathematical value of a `Sphere`.
pub struct Spherei {
    pub center: Vec3i,
    pub radius: int,
    pub material: Material,
}

impl View for Sphere {
    type V = Spherei;

    open spec fn view(&self) -> Spherei {
        Spherei { center: self.center@, radius: self.radius as int, material: self.material }
    }
}

/// A sphere the tracer can work with: centered in the world cube, with a
/// positive bounded radius and a valid material.
pub open spec fn sphere_wf(s: Spherei) -> bool {
    &&& within(s.center, 0x10_0000_0000int)
    &&& 1 <= s.radius <= 0x10_0000_0000int
    &&& s.material.wf()
}

/// Largest parameter interval bound the intersection accepts.
pub open spec fn t_limit() -> int {
    0x4000_0000int
}

/// Offset of the ray origin from the center.
pub open spec fn sph_oc(s: Spherei, r: Rayi) -> Vec3i {
    vsub(r.origin, s.center)
}

/// Unrounded squared length of the direction (`SCALE^2` times the real one).
pub open spec fn sph_a(r: Rayi) -> int {
    raw_dot(r.direction, r.direction)
}

/// Unrounded half-b coefficient of the quadratic.
pub open spec fn sph_half_b(s: Spherei, r: Rayi) -> int {
    raw_dot(r.direction, sph_oc(s, r))
}

/// Unrounded constant coefficient of the quadratic.
pub open spec fn sph_c(s: Spherei, r: Rayi) -> int {
    raw_dot(sph_oc(s, r), sph_oc(s, r)) - s.radius * s.radius
}

/// Unrounded discriminant (scale `SCALE^4`).
pub open spec fn sph_disc(s: Spherei, r: Rayi) -> int {
    sph_half_b(s, r) * sph_half_b(s, r) - sph_a(r) * sph_c(s, r)
}

/// Floor square root of the discriminant (scale `SCALE^2`).
pub open spec fn sph_sqrt_disc(s: Spherei, r: Rayi) -> int {
    sqrt_floor(sph_disc(s, r) as nat) as int
}

/// The nearer root of the quadratic, as a scaled parameter.
pub open spec fn sph_root1(s: Spherei, r: Rayi) -> int {
    (-sph_half_b(s, r) - sph_sqrt_disc(s, r)) * (SCALE as int) / sph_a(r)
}

/// The farther root of the quadratic, as a scaled parameter.
pub open spec fn sph_root2(s: Spherei, r: Rayi) -> int {
    (-sph_half_b(s, r) + sph_sqrt_disc(s, r)) * (SCALE as int) / sph_a(r)
}

/// The parameter at which the ray first meets the sphere strictly inside
/// `(min_t, max_t)`: the nearer root if it qualifies, else the farther root,
/// else none.  A non-positive discriminant (tangency included) and a
/// degenerate direction are misses.
pub open spec fn sphere_hit_t(s: Spherei, r: Rayi, min_t: int, max_t: int) -> Option<int> {
    if sph_a(r) <= 0 {
        None
    } else if sph_disc(s, r) <= 0 {
        None
    } else if min_t < sph_root1(s, r) && sph_root1(s, r) < max_t {
        Some(sph_root1(s, r))
    } else if min_t < sph_root2(s, r) && sph_root2(s, r) < max_t {
        Some(sph_root2(s, r))
    } else {
        None
    }
}

/// The outward normal at the point reached by `t`: the offset from the center
/// divided by the radius, each component kept within one unit.
pub open spec fn sphere_outward(s: Spherei, r: Rayi, t: int) -> Vec3i {
    let p = ray_at(r, t);
    Vec3i {
        x: clamp_fx(div_fx(p.x - s.center.x, s.radius), -(SCALE as int), SCALE as int),
        y: clamp_fx(div_fx(p.y - s.center.y, s.radius), -(SCALE as int), SCALE as int),
        z: clamp_fx(div_fx(p.z - s.center.z, s.radius), -(SCALE as int), SCALE as int),
    }
}

/// The full record of a hit at parameter `t`, normal oriented by the
/// front-face rule.
pub open spec fn sphere_record(s: Spherei, r: Rayi, t: int) -> HitRecI {
    let p = ray_at(r, t);
    let outward = sphere_outward(s, r, t);
    face_normal(
        HitRecI { point: p, normal: outward, t: t, front_face: false, material: s.material },
        r,
        outward,
    )
}

/// The optional record of the first qualifying hit.
pub open spec fn sphere_hit_rec(s: Spherei, r: Rayi, min_t: int, max_t: int) -> Option<HitRecI> {
    match sphere_hit_t(s, r, min_t, max_t) {
        Some(t) => Some(sphere_record(s, r, t)),
        None => None,
    }
}

/// The nearer root never exceeds the farther one.
pub proof fn lemma_root_order(s: Spherei, r: Rayi)
    requires
        sph_a(r) >= 1,
    ensures
        sph_root1(s, r) <= sph_root2(s, r),
{
    let hb = sph_half_b(s, r);
    let sq = sph_sqrt_disc(s, r);
    assert(sq >= 0);
    assert((-hb - sq) * (SCALE as int) <= (-hb + sq) * (SCALE as int)) by (nonlinear_arith)
        requires
            sq >= 0,
    ;
    vstd::arithmetic::div_mod::lemma_div_is_ordered(
        (-hb - sq) * (SCALE as int),
        (-hb + sq) * (SCALE as int),
        sph_a(r),
    );
}

/// How the accepted parameter responds to a shrunken upper bound: a hit below
/// the new bound survives, a hit above it disappears, and a hit found under
/// the tight bound is the hit of the loose one.
pub proof fn lemma_hit_shrink(s: Spherei, r: Rayi, mn: int, m1: int, m2: int)
    requires
        m2 <= m1,
    ensures
        (match sphere_hit_t(s, r, mn, m1) {
            None => sphere_hit_t(s, r, mn, m2) is None,
            Some(t) => {
                &&& (t < m2 ==> sphere_hit_t(s, r, mn, m2) == Some(t))
                &&& (t >= m2 ==> sphere_hit_t(s, r, mn, m2) is None)
            },
        }),
        (match sphere_hit_t(s, r, mn, m2) {
            None => true,
            Some(t) => sphere_hit_t(s, r, mn, m1) == Some(t),
        }),
{
    if sph_a(r) >= 1 {
        lemma_root_order(s, r);
    }
}

/// Shared algebra of the axis-aligned scenarios: a sphere of radius `r` at
/// the origin and a ray from `(b, 0, d)` pointing along negative `z`.
proof fn lemma_axis_coeffs(b: int, d: int, r: int, mat: Material)
    ensures
        ({
            let s = Spherei { center: (Vec3i { x: 0, y: 0, z: 0 }), radius: r, material: mat };
            let ray = Rayi {
                origin: (Vec3i { x: b, y: 0, z: d }),
                direction: (Vec3i { x: 0, y: 0, z: -(SCALE as int) }),
            };
            &&& sph_a(ray) == (SCALE as int) * (SCALE as int)
            &&& sph_half_b(s, ray) == -((SCALE as int) * d)
            &&& sph_c(s, ray) == b * b + d * d - r * r
            &&& sph_disc(s, ray) == ((SCALE as int) * (SCALE as int)) * (r * r - b * b)
        }),
{
    let sc = SCALE as int;
    let s = Spherei { center: (Vec3i { x: 0, y: 0, z: 0 }), radius: r, material: mat };
    let ray = Rayi {
        origin: (Vec3i { x: b, y: 0, z: d }),
        direction: (Vec3i { x: 0, y: 0, z: -sc }),
    };
    assert((-sc) * (-sc) == sc * sc) by (nonlinear_arith);
    assert(0int * 0 == 0) by (nonlinear_arith);
    assert(0int * b == 0 && 0int * d == 0 && b * 0 == 0 && d * 0 == 0) by (nonlinear_arith);
    assert((-sc) * d == -(sc * d)) by (nonlinear_arith);
    assert(sph_a(ray) == sc * sc);
    assert(sph_half_b(s, ray) == -(sc * d));
    assert(sph_c(s, ray) == b * b + d * d - r * r);
    assert((-(sc * d)) * (-(sc * d)) - (sc * sc) * (b * b + d * d - r * r) == (sc * sc) * (r * r
        - b * b)) by (nonlinear_arith);
}

/// A ray fired from distance `d` straight at a sphere of radius `r` centered
/// at the origin hits its front face at parameter exactly `d - r`, whenever
/// that parameter lies strictly inside the search interval.  The unrounded
/// discriminant makes this exact for every integer `d` and `r`.
pub proof fn lemma_axis_hit(d: int, r: int, mat: Material, min_t: int, max_t: int)
    requires
        0 < r < d,
        min_t < d - r < max_t,
    ensures
        ({
            let s = Spherei { center: (Vec3i { x: 0, y: 0, z: 0 }), radius: r, material: mat };
            let ray = Rayi {
                origin: (Vec3i { x: 0, y: 0, z: d }),
                direction: (Vec3i { x: 0, y: 0, z: -(SCALE as int) }),
            };
            sphere_hit_rec(s, ray, min_t, max_t) == Some(
                HitRecI {
                    point: (Vec3i { x: 0, y: 0, z: r }),
                    normal: (Vec3i { x: 0, y: 0, z: SCALE as int }),
                    t: d - r,
                    front_face: true,
                    material: mat,
                },
            )
        }),
{
    let sc = SCALE as int;
    let s = Spherei { center: (Vec3i { x: 0, y: 0, z: 0 }), radius: r, material: mat };
    let ray = Rayi {
        origin: (Vec3i { x: 0, y: 0, z: d }),
        direction: (Vec3i { x: 0, y: 0, z: -sc }),
    };
    lemma_axis_coeffs(0, d, r, mat);
    assert(0int * 0 == 0) by (nonlinear_arith);
    assert(sph_disc(s, ray) == (sc * sc) * (r * r));
    assert((sc * r) * (sc * r) == (sc * sc) * (r * r)) by (nonlinear_arith);
    assert(sph_disc(s, ray) > 0 && (sc * r) >= 0 && sph_disc(s, ray) < (sc * r + 1) * (sc * r
        + 1)) by (nonlinear_arith)
        requires
            sph_disc(s, ray) == (sc * r) * (sc * r),
            sc == 65536,
            r >= 1,
    ;
    crate::fixed::lemma_sqrt_floor_unique(sph_disc(s, ray) as nat, (sc * r) as nat);
    assert(sph_sqrt_disc(s, ray) == sc * r);
    assert((-sph_half_b(s, ray) - sph_sqrt_disc(s, ray)) * sc == (sc * sc) * (d - r))
        by (nonlinear_arith)
        requires
            sph_half_b(s, ray) == -(sc * d),
            sph_sqrt_disc(s, ray) == sc * r,
    ;
    assert(sc * sc > 0) by (nonlinear_arith)
        requires
            sc == 65536,
    ;
    assert(sph_root1(s, ray) == d - r) by {
        vstd::arithmetic::div_mod::lemma_div_multiples_vanish(d - r, sc * sc);
    }
    assert(sphere_hit_t(s, ray, min_t, max_t) == Some(d - r));
    let p = ray_at(ray, d - r);
    assert(mul_fx(-sc, d - r) == -(d - r)) by {
        assert((-sc) * (d - r) == sc * (-(d - r))) by (nonlinear_arith);
        vstd::arithmetic::div_mod::lemma_div_multiples_vanish(-(d - r), sc);
    }
    assert(mul_fx(0, d - r) == 0) by {
        assert(0int * (d - r) == 0) by (nonlinear_arith);
        vstd::arithmetic::div_mod::lemma_div_of0(sc);
    }
    assert(p == (Vec3i { x: 0, y: 0, z: r }));
    assert(div_fx(0, r) == 0) by {
        assert(0int * sc == 0) by (nonlinear_arith);
        vstd::arithmetic::div_mod::lemma_div_of0(r);
    }
    assert(div_fx(r, r) == sc) by {
        assert(r * sc == r * sc);
        vstd::arithmetic::div_mod::lemma_div_multiples_vanish(sc, r);
    }
    let outward = sphere_outward(s, ray, d - r);
    assert(outward == (Vec3i { x: 0, y: 0, z: sc }));
    assert(raw_dot(ray.direction, outward) == -(sc * sc)) by (nonlinear_arith)
        requires
            outward == (Vec3i { x: 0, y: 0, z: sc }),
            ray.direction == (Vec3i { x: 0, y: 0, z: -sc }),
    ;
    assert(crate::vec3::dot3(ray.direction, outward) == -sc) by {
        assert(-(sc * sc) == sc * (-sc)) by (nonlinear_arith);
        vstd::arithmetic::div_mod::lemma_div_multiples_vanish(-sc, sc);
    }
    assert(crate::vec3::dot3(ray.direction, outward) < 0) by (nonlinear_arith)
        requires
            crate::vec3::dot3(ray.direction, outward) == -sc,
            sc == 65536,
    ;
}

/// A ray whose closest approach to the center exceeds the radius misses: the
/// discriminant is negative.  Stated along an axis: the ray runs parallel to
/// `z` at lateral offset `b > r`.
pub proof fn lemma_axis_miss(b: int, d: int, r: int, mat: Material, min_t: int, max_t: int)
    requires
        1 <= r < b,
    ensures
        ({
            let s = Spherei { center: (Vec3i { x: 0, y: 0, z: 0 }), radius: r, material: mat };
            let ray = Rayi {
                origin: (Vec3i { x: b, y: 0, z: d }),
                direction: (Vec3i { x: 0, y: 0, z: -(SCALE as int) }),
            };
            &&& sph_disc(s, ray) < 0
            &&& sphere_hit_t(s, ray, min_t, max_t) is None
        }),
{
    let sc = SCALE as int;
    lemma_axis_coeffs(b, d, r, mat);
    let s = Spherei { center: (Vec3i { x: 0, y: 0, z: 0 }), radius: r, material: mat };
    let ray = Rayi {
        origin: (Vec3i { x: b, y: 0, z: d }),
        direction: (Vec3i { x: 0, y: 0, z: -sc }),
    };
    assert(sph_disc(s, ray) < 0) by (nonlinear_arith)
        requires
            sph_disc(s, ray) == (sc * sc) * (r * r - b * b),
            sc == 65536,
            1 <= r < b,
    ;
}

/// A ray exactly tangent to the sphere (discriminant zero) also misses: the
/// documented boundary policy counts tangency as no hit.
pub proof fn lemma_axis_tangent(d: int, r: int, mat: Material, min_t: int, max_t: int)
    requires
        1 <= r,
    ensures
        ({
            let s = Spherei { center: (Vec3i { x: 0, y: 0, z: 0 }), radius: r, material: mat };
            let ray = Rayi {
                origin: (Vec3i { x: r, y: 0, z: d }),
                direction: (Vec3i { x: 0, y: 0, z: -(SCALE as int) }),
            };
            &&& sph_disc(s, ray) == 0
            &&& sphere_hit_t(s, ray, min_t, max_t) is None
        }),
{
    let sc = SCALE as int;
    lemma_axis_coeffs(r, d, r, mat);
    let s = Spherei { center: (Vec3i { x: 0, y: 0, z: 0 }), radius: r, material: mat };
    let ray = Rayi {
        origin: (Vec3i { x: r, y: 0, z: d }),
        direction: (Vec3i { x: 0, y: 0, z: -sc }),
    };
    assert(sph_disc(s, ray) == 0) by (nonlinear_arith)
        requires
            sph_disc(s, ray) == (sc * sc) * (r * r - r * r),
    ;
}

impl Sphere {
    pub fn new(center: Point3, radius: i64, material: Material) -> (r: Self)
        ensures
            r.center == center,
            r.radius == radius,
            r.material == material,
    {
        Self { center, radius, material }
    }

    /// Builds the record for an accepted parameter; exact per
    /// `sphere_record`.
    fn create_hit_record_from_hit(&self, ray: &Ray, distance: i64) -> (r: HitRecord)
        requires
            sphere_wf(self@),
            ray_wf(ray@),
            -t_limit() <= distance <= t_limit(),
        ensures
            r@ == sphere_record(self@, ray@, distance as int),
            hit_rec_wf(r@),
            r@.material == self@.material,
            r@.t == distance,
    {
        let ghost s = SCALE as int;
        proof {
            lemma_mul_range(ray@.direction.x, distance as int, 0x80_0000int, 0x4000_0000int);
            lemma_mul_range(ray@.direction.y, distance as int, 0x80_0000int, 0x4000_0000int);
            lemma_mul_range(ray@.direction.z, distance as int, 0x80_0000int, 0x4000_0000int);
            lemma_div_mag(ray@.direction.x * (distance as int), s, 0x80_0000int * 0x4000_0000);
            lemma_div_mag(ray@.direction.y * (distance as int), s, 0x80_0000int * 0x4000_0000);
            lemma_div_mag(ray@.direction.z * (distance as int), s, 0x80_0000int * 0x4000_0000);
        }
        let point = ray.at(distance);
        let ox = outward_component(point.x, self.center.x, self.radius);
        let oy = outward_component(point.y, self.center.y, self.radius);
        let oz = outward_component(point.z, self.center.z, self.radius);
        let outward_normal = crate::vec3::Vector3 { x: ox, y: oy, z: oz };
        let mut hit_record = HitRecord {
            t: distance,
            point,
            normal: outward_normal,
            front_face: false,
            material: self.material,
        };
        hit_record.set_face_normal(ray, outward_normal);
        proof {
            crate::hittable::lemma_scale_neg_one(outward_normal@);
        }
        hit_record
    }
}

/// One component of the outward normal: the centered coordinate divided by
/// the radius, kept within one unit.
fn outward_component(p: i64, c: i64, radius: i64) -> (r: i64)
    requires
        1 <= radius,
        -0x80_0000_0000int <= p <= 0x80_0000_0000int,
        -0x10_0000_0000int <= c <= 0x10_0000_0000int,
    ensures
        r == clamp_fx(div_fx(p - c, radius as int), -(SCALE as int), SCALE as int),
{
    let diff: i128 = (p as i128) - (c as i128);
    proof {
        lemma_mul_range(diff as int, SCALE as int, 0x90_0000_0000int, 65536);
    }
    let q = div_floor_i128(diff * (SCALE as i128), radius as i128);
    let clamped: i128 = if q < -(SCALE as i128) {
        -(SCALE as i128)
    } else if q > SCALE as i128 {
        SCALE as i128
    } else {
        q
    };
    clamped as i64
}

impl Hit for Sphere {
    open spec fn hit_req(&self, ray: Ray, min_t: int, max_t: int) -> bool {
        &&& sphere_wf(self@)
        &&& ray_wf(ray@)
        &&& -t_limit() <= min_t
        &&& max_t <= t_limit()
    }

    open spec fn hit_spec(&self, ray: Ray, min_t: int, max_t: int) -> Option<HitRecI> {
        sphere_hit_rec(self@, ray@, min_t, max_t)
    }

    fn hit(&self, ray: &Ray, min_t: i64, max_t: i64) -> (r: Option<HitRecord>)
        ensures
            (match r {
                Some(h) => {
                    &&& sphere_hit_t(self@, ray@, min_t as int, max_t as int) == Some(h@.t)
                    &&& h@ == sphere_record(self@, ray@, h@.t)
                    &&& min_t < h@.t < max_t
                    &&& hit_rec_wf(h@)
                    &&& h@.material == self@.material
                },
                None => sphere_hit_t(self@, ray@, min_t as int, max_t as int) is None,
            }),
    {
        let ghost sv = self@;
        let ghost rv = ray@;
        let dx = ray.direction.x as i128;
        let dy = ray.direction.y as i128;
        let dz = ray.direction.z as i128;
        let ocx = (ray.origin.x as i128) - (self.center.x as i128);
        let ocy = (ray.origin.y as i128) - (self.center.y as i128);
        let ocz = (ray.origin.z as i128) - (self.center.z as i128);
        proof {
            lemma_mul_range(dx as int, dx as int, 0x80_0000int, 0x80_0000int);
            lemma_mul_range(dy as int, dy as int, 0x80_0000int, 0x80_0000int);
            lemma_mul_range(dz as int, dz as int, 0x80_0000int, 0x80_0000int);
            lemma_mul_range(dx as int, ocx as int, 0x80_0000int, 0x40_0000_0000int);
            lemma_mul_range(dy as int, ocy as int, 0x80_0000int, 0x40_0000_0000int);
            lemma_mul_range(dz as int, ocz as int, 0x80_0000int, 0x40_0000_0000int);
            lemma_mul_range(ocx as int, ocx as int, 0x40_0000_0000int, 0x40_0000_0000int);
            lemma_mul_range(ocy as int, ocy as int, 0x40_0000_0000int, 0x40_0000_0000int);
            lemma_mul_range(ocz as int, ocz as int, 0x40_0000_0000int, 0x40_0000_0000int);
            lemma_mul_range(
                self@.radius,
                self@.radius,
                0x10_0000_0000int,
                0x10_0000_0000int,
            );
        }
        let a: i128 = dx * dx + dy * dy + dz * dz;
        let half_b: i128 = dx * ocx + dy * ocy + dz * ocz;
        let c: i128 = ocx * ocx + ocy * ocy + ocz * ocz - (self.radius as i128) * (
        self.radius as i128);
        proof {
            lemma_mul_range(
                half_b as int,
                half_b as int,
                0x6000_0000_0000_0000int,
                0x6000_0000_0000_0000int,
            );
            lemma_mul_range(
                a as int,
                c as int,
                0xC000_0000_0000int,
                0x3100_0000_0000_0000_0000int,
            );
        }
        let disc: i128 = half_b * half_b - a * c;
        if a <= 0 {
            return None;
        }
        if disc <= 0 {
            return None;
        }
        let sq128 = isqrt_u128(disc as u128);
        proof {
            lemma_sqrt_floor_unique((disc as u128) as nat, sq128 as nat);
        }
        let sq: i128 = sq128 as i128;
        proof {
            assert((sq as int) <= 0xC000_0000_0000_0000int) by (nonlinear_arith)
                requires
                    (sq as int) * (sq as int) <= disc as int,
                    0 <= sq as int,
                    (disc as int) < 0x7000_0000_0000_0000_0000_0000_0000_0000int,
            ;
            assert(sq128 as int == sq as int);
        }
        let t1 = div_floor_i128((-half_b - sq) * (SCALE as i128), a);
        proof {
            assert(t1 == sph_root1(sv, rv));
        }
        if t1 < max_t as i128 && t1 > min_t as i128 {
            Some(self.create_hit_record_from_hit(ray, t1 as i64))
        } else {
            let t2 = div_floor_i128((-half_b + sq) * (SCALE as i128), a);
            proof {
                assert(t2 == sph_root2(sv, rv));
            }
            if t2 < max_t as i128 && t2 > min_t as i128 {
                Some(self.create_hit_record_from_hit(ray, t2 as i64))
            } else {
                None
            }
        }
    }
}

} // verus!
