//! Surface materials and their scattering rules.
//!
//! A material turns an incoming ray and a hit into an attenuation color and a
//! scattered ray, or absorbs the ray.  The sampling draw of each stochastic
//! choice is an explicit argument of the `scatter_with` functions, whose
//! contracts are exact; the `scatter` functions draw it from a
//! [`RandomSource`] and guarantee what holds of every outcome.

use crate::fixed::{
    clamp_fx, div_fx, fx_div, fx_mul, fx_sqrt, lemma_color_attenuate, lemma_div_fx_range,
    lemma_div_mag, lemma_mul_fx_range, lemma_mul_range, mul_fx, sqrt_fx, SCALE,
};
use crate::hittable::{hit_rec_wf, HitRecI, HitRecord};
use crate::ray::{ray_wf, Ray, Rayi};
use crate::rng::RandomSource;
use crate::vec3::{
    dot3, dot_product, raw_dot, unit3, unit_vector, vadd, vscale, vsub, within, Color, Vec3i,
    Vector3,
};
use vstd::prelude::*;

verus! {

/// What a scattering surface hands back: the color scaling and the new ray.
pub struct MaterialInfo {
    pub attenuation: Color,
    pub scattered: Ray,
}

/// Mathematical value of a `MaterialInfo`.
pub struct MatInfoI {
    pub attenuation: Vec3i,
    pub scattered: Rayi,
}

impl View for MaterialInfo {
    type V = MatInfoI;

    open spec fn view(&self) -> MatInfoI {
        MatInfoI { attenuation: self.attenuation@, scattered: self.scattered@ }
    }
}

/// The view of an optional scattering result.
pub open spec fn info_view(r: Option<MaterialInfo>) -> Option<MatInfoI> {
    match r {
        Some(i) => Some(i@),
        None => None,
    }
}

/// An RGB intensity with every channel between zero and one.
pub open spec fn color_wf(c: Vec3i) -> bool {
    &&& 0 <= c.x <= SCALE as int
    &&& 0 <= c.y <= SCALE as int
    &&& 0 <= c.z <= SCALE as int
}

/// A diffuse surface: scatters around the normal, tinting by its albedo.
#[derive(Clone, Copy)]
pub struct Lambertian {
    pub albedo: Color,
}

/// A reflective surface with a roughness (`fuzz`) perturbation.
#[derive(Clone, Copy)]
pub struct Metal {
    pub albedo: Color,
    pub fuzz: i64,
}

/// A refractive surface described by its refractive index.
#[derive(Clone, Copy)]
pub struct Dielectric {
    pub ref_idx: i64,
}

/// The closed set of surface kinds a scene object can carry.
#[derive(Clone, Copy)]
pub enum Material {
    Lambertian(Lambertian),
    Metal(Metal),
    Dielectric(Dielectric),
}

impl Lambertian {
    pub open spec fn wf(&self) -> bool {
        color_wf(self.albedo@)
    }
}

impl Metal {
    pub open spec fn wf(&self) -> bool {
        &&& color_wf(self.albedo@)
        &&& 0 <= self.fuzz <= SCALE
    }
}

impl Dielectric {
    /// The representable band of refractive indices: a quarter to eight.
    pub open spec fn wf(&self) -> bool {
        (SCALE as int) / 4 <= self.ref_idx <= 8 * (SCALE as int)
    }
}

impl Material {
    pub open spec fn wf(&self) -> bool {
        match *self {
            Material::Lambertian(l) => l.wf(),
            Material::Metal(m) => m.wf(),
            Material::Dielectric(d) => d.wf(),
        }
    }
}

/// Mirror reflection: `v - 2 (v . n) n`, rounded as computed.
pub open spec fn reflect3(v: Vec3i, n: Vec3i) -> Vec3i {
    vsub(v, vscale(vscale(n, 2 * (SCALE as int)), dot3(v, n)))
}

/// `v - 2 (v . n) n`, for a unit `v` and a unit-bounded `n`.
fn reflect(vec: &Vector3, normal: &Vector3) -> (r: Vector3)
    requires
        within(vec@, SCALE as int),
        within(normal@, SCALE as int),
    ensures
        r@ == reflect3(vec@, normal@),
        within(r@, 8 * (SCALE as int)),
{
    let ghost s = SCALE as int;
    proof {
        lemma_mul_range(vec@.x, normal@.x, 65536, 65536);
        lemma_mul_range(vec@.y, normal@.y, 65536, 65536);
        lemma_mul_range(vec@.z, normal@.z, 65536, 65536);
        lemma_div_mag(raw_dot(vec@, normal@), s, 3 * (65536int * 65536));
        lemma_mul_fx_range(normal@.x, 2 * s, 65536, 131072);
        lemma_mul_fx_range(normal@.y, 2 * s, 65536, 131072);
        lemma_mul_fx_range(normal@.z, 2 * s, 65536, 131072);
        lemma_mul_fx_range(mul_fx(normal@.x, 2 * s), dot3(vec@, normal@), 131073, 196609);
        lemma_mul_fx_range(mul_fx(normal@.y, 2 * s), dot3(vec@, normal@), 131073, 196609);
        lemma_mul_fx_range(mul_fx(normal@.z, 2 * s), dot3(vec@, normal@), 131073, 196609);
    }
    let d = dot_product(vec, normal);
    vec.sub(normal.scale(2 * SCALE).scale(d))
}

/// Snell refraction of the unit direction `uv` at a surface with unit-bounded
/// normal `n`: the perpendicular part is scaled by the index ratio, the
/// parallel part restores unit length.
pub open spec fn refract3(uv: Vec3i, n: Vec3i, eta: int) -> Vec3i {
    let cos = dot3(vscale(uv, -(SCALE as int)), n);
    let perp = vscale(vadd(uv, vscale(n, cos)), eta);
    let arg = (SCALE as int) - dot3(perp, perp);
    let par = vscale(vscale(n, -(SCALE as int)), sqrt_fx(if arg < 0 {
        -arg
    } else {
        arg
    }));
    vadd(perp, par)
}

/// Refraction, exact per `refract3`.
fn refract(uv: &Vector3, normal: &Vector3, etai_over_etat: i64) -> (r: Vector3)
    requires
        within(uv@, SCALE as int),
        within(normal@, SCALE as int),
        0 < etai_over_etat <= 8 * (SCALE as int),
    ensures
        r@ == refract3(uv@, normal@, etai_over_etat as int),
        within(r@, 0x80_0000int),
{
    let ghost s = SCALE as int;
    proof {
        crate::hittable::lemma_scale_neg_one(uv@);
        lemma_mul_range(-uv@.x, normal@.x, 65536, 65536);
        lemma_mul_range(-uv@.y, normal@.y, 65536, 65536);
        lemma_mul_range(-uv@.z, normal@.z, 65536, 65536);
        lemma_div_mag(raw_dot(vscale(uv@, -s), normal@), s, 3 * (65536int * 65536));
    }
    let cos = dot_product(&uv.scale(-SCALE), normal);
    proof {
        lemma_mul_fx_range(normal@.x, cos as int, 65536, 196609);
        lemma_mul_fx_range(normal@.y, cos as int, 65536, 196609);
        lemma_mul_fx_range(normal@.z, cos as int, 65536, 196609);
    }
    let scaled_n = normal.scale(cos);
    let perp_in = uv.add(scaled_n);
    proof {
        lemma_mul_fx_range(perp_in@.x, etai_over_etat as int, 262146, 524288);
        lemma_mul_fx_range(perp_in@.y, etai_over_etat as int, 262146, 524288);
        lemma_mul_fx_range(perp_in@.z, etai_over_etat as int, 262146, 524288);
    }
    let out_perp = perp_in.scale(etai_over_etat);
    proof {
        assert(within(out_perp@, 2097169));
        lemma_mul_range(out_perp@.x, out_perp@.x, 2097169, 2097169);
        lemma_mul_range(out_perp@.y, out_perp@.y, 2097169, 2097169);
        lemma_mul_range(out_perp@.z, out_perp@.z, 2097169, 2097169);
        lemma_div_mag(raw_dot(out_perp@, out_perp@), s, 3 * (2097169int * 2097169));
    }
    let len2 = dot_product(&out_perp, &out_perp);
    let arg = if SCALE - len2 < 0 {
        -(SCALE - len2)
    } else {
        SCALE - len2
    };
    let sq = fx_sqrt(arg);
    proof {
        assert((sq as int) * (sq as int) <= (arg as int) * s) by {
            crate::fixed::lemma_sqrt_floor_bounds(((arg as int) * s) as nat);
        }
        assert(sq <= 3700000) by (nonlinear_arith)
            requires
                (sq as int) * (sq as int) <= (arg as int) * (s as int),
                0 <= arg as int <= 201395393,
                0 <= sq,
                s == 65536,
        ;
        crate::hittable::lemma_scale_neg_one(normal@);
        lemma_mul_fx_range(-normal@.x, sq as int, 65536, 3700000);
        lemma_mul_fx_range(-normal@.y, sq as int, 65536, 3700000);
        lemma_mul_fx_range(-normal@.z, sq as int, 65536, 3700000);
    }
    let out_parallel = normal.scale(-SCALE).scale(sq);
    out_perp.add(out_parallel)
}

/// Fifth power with scaled rounding at every multiplication.
pub open spec fn pow5_fx(x: int) -> int {
    mul_fx(mul_fx(mul_fx(mul_fx(x, x), x), x), x)
}

/// Schlick's approximation of the reflected fraction at a dielectric
/// boundary: `r0 + (1 - r0) (1 - cos)^5` with `r0 = ((1 - ri)/(1 + ri))^2`.
pub open spec fn reflectance_fx(cosine: int, ref_idx: int) -> int {
    let r0 = div_fx((SCALE as int) - ref_idx, (SCALE as int) + ref_idx);
    let r0sq = mul_fx(r0, r0);
    r0sq + mul_fx((SCALE as int) - r0sq, pow5_fx((SCALE as int) - cosine))
}

/// Schlick reflectance, exact per `reflectance_fx`.
pub fn reflectance(cosine: i64, ref_idx: i64) -> (r: i64)
    requires
        -(SCALE as int) <= cosine <= SCALE as int,
        0 <= ref_idx <= 8 * (SCALE as int),
    ensures
        r == reflectance_fx(cosine as int, ref_idx as int),
{
    let ghost s = SCALE as int;
    proof {
        lemma_mul_range(s - ref_idx as int, s, 458752, 65536);
        lemma_div_mag((s - ref_idx as int) * s, s + ref_idx as int, 458752int * 65536);
        vstd::arithmetic::div_mod::lemma_div_is_ordered_by_denominator(
            458752int * 65536,
            65536,
            s + ref_idx as int,
        );
        assert(div_fx(s - ref_idx as int, s + ref_idx as int) <= 458752);
    }
    let mut r0 = fx_div(SCALE - ref_idx, SCALE + ref_idx);
    proof {
        lemma_mul_fx_range(r0 as int, r0 as int, 458753, 458753);
    }
    r0 = fx_mul(r0, r0);
    let base = SCALE - cosine;
    proof {
        lemma_mul_fx_range(base as int, base as int, 131072, 131072);
        lemma_mul_fx_range(mul_fx(base as int, base as int), base as int, 262145, 131072);
        lemma_mul_fx_range(
            mul_fx(mul_fx(base as int, base as int), base as int),
            base as int,
            524291,
            131072,
        );
        lemma_mul_fx_range(
            mul_fx(mul_fx(mul_fx(base as int, base as int), base as int), base as int),
            base as int,
            1048583,
            131072,
        );
        lemma_mul_fx_range(s - r0 as int, pow5_fx(base as int), 3276815, 2097167);
    }
    let p5 = fx_mul(fx_mul(fx_mul(fx_mul(base, base), base), base), base);
    r0 + fx_mul(SCALE - r0, p5)
}

/// Diffuse scattering: the direction is the normal plus a unit sample, with
/// the normal itself as fallback when they cancel; the attenuation is the
/// albedo.
pub open spec fn lambertian_spec(l: Lambertian, hit: HitRecI, sample: Vec3i) -> MatInfoI {
    let d = vadd(hit.normal, sample);
    let dir = if d.x == 0 && d.y == 0 && d.z == 0 {
        hit.normal
    } else {
        d
    };
    MatInfoI {
        attenuation: l.albedo@,
        scattered: Rayi { origin: hit.point, direction: dir },
    }
}

impl Lambertian {
    /// Diffuse scattering from a given unit sample; exact per
    /// `lambertian_spec`.
    pub fn scatter_with(&self, hit_record: &HitRecord, unit_sample: Vector3) -> (r: MaterialInfo)
        requires
            hit_rec_wf(hit_record@),
            within(unit_sample@, SCALE as int),
        ensures
            r@ == lambertian_spec(*self, hit_record@, unit_sample@),
            within(r@.scattered.direction, 2 * (SCALE as int)),
    {
        let d = hit_record.normal.add(unit_sample);
        let dir = if d.x == 0 && d.y == 0 && d.z == 0 {
            hit_record.normal
        } else {
            d
        };
        MaterialInfo { attenuation: self.albedo, scattered: Ray::new(hit_record.point, dir) }
    }

    /// Diffuse scattering; never absorbs.  The incoming ray plays no part:
    /// the new direction depends only on the normal and the drawn sample.
    pub fn scatter(&self, _ray: &Ray, hit_record: &HitRecord, src: &mut RandomSource) -> (r: Option<
        MaterialInfo,
    >)
        requires
            hit_rec_wf(hit_record@),
        ensures
            r is Some,
            (match r {
                Some(i) => {
                    &&& i@.attenuation == self.albedo@
                    &&& i@.scattered.origin == hit_record@.point
                    &&& within(i@.scattered.direction, 2 * (SCALE as int))
                },
                None => false,
            }),
    {
        let unit_sample = Vector3::new_random_unit(src);
        Some(self.scatter_with(hit_record, unit_sample))
    }
}

/// Metallic scattering: mirror reflection of the unit incoming direction,
/// perturbed by `fuzz` times a ball sample; absorbed if the perturbed
/// direction points into the surface.
pub open spec fn metal_spec(m: Metal, ray: Rayi, hit: HitRecI, sample: Vec3i) -> Option<MatInfoI> {
    let reflected = reflect3(unit3(ray.direction), hit.normal);
    let dir = vadd(reflected, vscale(sample, m.fuzz as int));
    if dot3(dir, hit.normal) > 0 {
        Some(
            MatInfoI {
                attenuation: m.albedo@,
                scattered: Rayi { origin: hit.point, direction: dir },
            },
        )
    } else {
        None
    }
}

impl Metal {
    /// Clamps the roughness into `[0, 1]`.
    pub fn new(albedo: Color, fuzz: i64) -> (r: Self)
        ensures
            r.albedo == albedo,
            r.fuzz == clamp_fx(fuzz as int, 0, SCALE as int),
    {
        Self { albedo, fuzz: crate::vec3::clamp(fuzz, 0, SCALE) }
    }

    /// Metallic scattering from a given ball sample; exact per `metal_spec`:
    /// absorbed exactly when the perturbed reflection does not point out of
    /// the surface, and the attenuation of a scattered ray is the albedo.
    pub fn scatter_with(&self, ray: &Ray, hit_record: &HitRecord, sphere_sample: Vector3) -> (r:
        Option<MaterialInfo>)
        requires
            self.wf(),
            ray_wf(ray@),
            raw_dot(ray@.direction, ray@.direction) >= 1,
            hit_rec_wf(hit_record@),
            within(sphere_sample@, SCALE as int),
        ensures
            info_view(r) == metal_spec(*self, ray@, hit_record@, sphere_sample@),
            (match r {
                Some(i) => within(i@.scattered.direction, 0x80_0000int),
                None => true,
            }),
    {
        let ghost s = SCALE as int;
        let unit_dir = unit_vector(&ray.direction);
        let reflected = reflect(&unit_dir, &hit_record.normal);
        proof {
            lemma_mul_fx_range(sphere_sample@.x, self.fuzz as int, 65536, 65536);
            lemma_mul_fx_range(sphere_sample@.y, self.fuzz as int, 65536, 65536);
            lemma_mul_fx_range(sphere_sample@.z, self.fuzz as int, 65536, 65536);
        }
        let dir = reflected.add(sphere_sample.scale(self.fuzz));
        let scattered = Ray::new(hit_record.point, dir);
        if dot_product(&scattered.direction, &hit_record.normal) > 0 {
            Some(MaterialInfo { scattered, attenuation: self.albedo })
        } else {
            None
        }
    }

    /// Metallic scattering; absorbs exactly when the fuzz perturbation turns
    /// the reflection inward.
    pub fn scatter(&self, ray: &Ray, hit_record: &HitRecord, src: &mut RandomSource) -> (r: Option<
        MaterialInfo,
    >)
        requires
            self.wf(),
            ray_wf(ray@),
            raw_dot(ray@.direction, ray@.direction) >= 1,
            hit_rec_wf(hit_record@),
        ensures
            (match r {
                Some(i) => {
                    &&& i@.attenuation == self.albedo@
                    &&& i@.scattered.origin == hit_record@.point
                    &&& within(i@.scattered.direction, 0x80_0000int)
                    &&& dot3(i@.scattered.direction, hit_record@.normal) > 0
                },
                None => true,
            }),
    {
        let sample = crate::vec3::random_in_unit_sphere(src);
        self.scatter_with(ray, hit_record, sample)
    }
}

/// Dielectric scattering: refract by Snell's law unless total internal
/// reflection forces, or the Schlick reflectance draw chooses, a reflection.
/// The cosine is forced into `[-1, 1]`: the upper side as in the reference
/// formula, the lower side guarding degenerate normals.
pub open spec fn dielectric_spec(d: Dielectric, ray: Rayi, hit: HitRecI, draw: int) -> MatInfoI {
    let ghost s = SCALE as int;
    let eta = if hit.front_face {
        div_fx(s, d.ref_idx as int)
    } else {
        d.ref_idx as int
    };
    let unit_dir = unit3(ray.direction);
    let cos = clamp_fx(dot3(vscale(unit_dir, -s), hit.normal), -s, s);
    let sin = sqrt_fx(s - mul_fx(cos, cos));
    let dir = if mul_fx(eta, sin) > s || reflectance_fx(cos, eta) > draw {
        reflect3(unit_dir, hit.normal)
    } else {
        refract3(unit_dir, hit.normal, eta)
    };
    MatInfoI {
        attenuation: Vec3i { x: s, y: s, z: s },
        scattered: Rayi { origin: hit.point, direction: dir },
    }
}

impl Dielectric {
    pub fn new(ref_idx: i64) -> (r: Self)
        requires
            (SCALE as int) / 4 <= ref_idx <= 8 * (SCALE as int),
        ensures
            r.ref_idx == ref_idx,
            r.wf(),
    {
        Self { ref_idx }
    }

    /// Dielectric scattering from a given reflectance draw; exact per
    /// `dielectric_spec`.  Glass absorbs nothing: the attenuation is one.
    pub fn scatter_with(&self, ray: &Ray, hit_record: &HitRecord, draw: i64) -> (r: MaterialInfo)
        requires
            self.wf(),
            ray_wf(ray@),
            raw_dot(ray@.direction, ray@.direction) >= 1,
            hit_rec_wf(hit_record@),
        ensures
            r@ == dielectric_spec(*self, ray@, hit_record@, draw as int),
            within(r@.scattered.direction, 0x80_0000int),
    {
        let ghost s = SCALE as int;
        proof {
            lemma_div_fx_range(s, self.ref_idx as int, s);
            vstd::arithmetic::div_mod::lemma_div_is_ordered_by_denominator(
                s * s,
                16384,
                self.ref_idx as int,
            );
            assert((s * s) / 16384 == 4 * s) by (nonlinear_arith)
                requires
                    s == 65536,
            ;
            assert(s * s >= (self.ref_idx as int) * 8192) by (nonlinear_arith)
                requires
                    (SCALE as int) / 4 <= self.ref_idx as int <= 8 * (SCALE as int),
                    s == 65536,
            ;
            crate::fixed::lemma_div_ge_multiple(s * s, self.ref_idx as int, 8192);
            assert(8192 <= div_fx(s, self.ref_idx as int) <= 4 * s);
        }
        let etai_over_etat = if hit_record.front_face {
            fx_div(SCALE, self.ref_idx)
        } else {
            self.ref_idx
        };
        let unit_dir = unit_vector(&ray.direction);
        proof {
            crate::hittable::lemma_scale_neg_one(unit_dir@);
            lemma_mul_range(-unit_dir@.x, hit_record@.normal.x, 65536, 65536);
            lemma_mul_range(-unit_dir@.y, hit_record@.normal.y, 65536, 65536);
            lemma_mul_range(-unit_dir@.z, hit_record@.normal.z, 65536, 65536);
            lemma_div_mag(
                raw_dot(vscale(unit_dir@, -s), hit_record@.normal),
                s,
                3 * (65536int * 65536),
            );
        }
        let cos_unclamped = dot_product(&unit_dir.scale(-SCALE), &hit_record.normal);
        let cos_theta = crate::vec3::clamp(cos_unclamped, -SCALE, SCALE);
        proof {
            lemma_mul_fx_range(cos_theta as int, cos_theta as int, 65536, 65536);
            let a = if cos_theta as int >= 0 {
                cos_theta as int
            } else {
                -(cos_theta as int)
            };
            lemma_color_attenuate(a, a);
            assert((cos_theta as int) * (cos_theta as int) == a * a) by (nonlinear_arith)
                requires
                    a == cos_theta as int || a == -(cos_theta as int),
            ;
            assert(0 <= mul_fx(cos_theta as int, cos_theta as int) <= s);
        }
        let sin_theta = fx_sqrt(SCALE - fx_mul(cos_theta, cos_theta));
        proof {
            let m = (SCALE as int) - mul_fx(cos_theta as int, cos_theta as int);
            assert(0 <= m <= s);
            crate::fixed::lemma_sqrt_floor_bounds((m * (SCALE as int)) as nat);
            assert((sin_theta as int) * (sin_theta as int) <= m * s);
            assert(m * s <= s * s) by (nonlinear_arith)
                requires
                    0 <= m <= s,
            ;
            assert(sin_theta as int <= 2 * s) by (nonlinear_arith)
                requires
                    (sin_theta as int) * (sin_theta as int) <= (s as int) * (s as int),
                    0 <= sin_theta,
                    s == 65536,
            ;
            lemma_mul_fx_range(etai_over_etat as int, sin_theta as int, 524288, 131072);
        }
        let direction = if fx_mul(etai_over_etat, sin_theta) > SCALE || reflectance(
            cos_theta,
            etai_over_etat,
        ) > draw {
            reflect(&unit_dir, &hit_record.normal)
        } else {
            refract(&unit_dir, &hit_record.normal, etai_over_etat)
        };
        MaterialInfo {
            attenuation: Color::new(SCALE, SCALE, SCALE),
            scattered: Ray::new(hit_record.point, direction),
        }
    }

    /// Dielectric scattering; never absorbs, attenuation is exactly one.
    pub fn scatter(&self, ray: &Ray, hit_record: &HitRecord, src: &mut RandomSource) -> (r: Option<
        MaterialInfo,
    >)
        requires
            self.wf(),
            ray_wf(ray@),
            raw_dot(ray@.direction, ray@.direction) >= 1,
            hit_rec_wf(hit_record@),
        ensures
            (match r {
                Some(i) => {
                    &&& i@.attenuation == (Vec3i {
                        x: SCALE as int,
                        y: SCALE as int,
                        z: SCALE as int,
                    })
                    &&& i@.scattered.origin == hit_record@.point
                    &&& within(i@.scattered.direction, 0x80_0000int)
                },
                None => false,
            }),
    {
        let draw = src.next_in(0, SCALE);
        Some(self.scatter_with(ray, hit_record, draw))
    }
}

/// Decomposition of the rounded reflection's alignment with the normal:
/// `SCALE * (reflect3(u, n) . n)` equals `(u . n)_scaled * (SCALE^2 - 2 (n . n))`
/// up to at most four scaled-square units of rounding.
proof fn lemma_reflect_alignment(u: Vec3i, n: Vec3i)
    requires
        within(n, SCALE as int),
    ensures
        ({
            let s = SCALE as int;
            let main = dot3(u, n) * (s * s - 2 * raw_dot(n, n));
            &&& main - 3 * (s * s) <= s * raw_dot(reflect3(u, n), n)
            &&& s * raw_dot(reflect3(u, n), n) <= main + 4 * (s * s)
        }),
{
    let s = SCALE as int;
    let nn = raw_dot(n, n);
    let raw = raw_dot(u, n);
    let c = dot3(u, n);
    vstd::arithmetic::div_mod::lemma_fundamental_div_mod(raw, s);
    vstd::arithmetic::div_mod::lemma_mod_bound(raw, s);
    let mm = raw % s;
    // doubling the normal is exact
    assert(n.x * (2 * s) == s * (2 * n.x)) by (nonlinear_arith);
    assert(n.y * (2 * s) == s * (2 * n.y)) by (nonlinear_arith);
    assert(n.z * (2 * s) == s * (2 * n.z)) by (nonlinear_arith);
    vstd::arithmetic::div_mod::lemma_div_multiples_vanish(2 * n.x, s);
    vstd::arithmetic::div_mod::lemma_div_multiples_vanish(2 * n.y, s);
    vstd::arithmetic::div_mod::lemma_div_multiples_vanish(2 * n.z, s);
    assert(vscale(n, 2 * s) == (Vec3i { x: 2 * n.x, y: 2 * n.y, z: 2 * n.z }));
    // decompose each rounded reflection term
    let px = (2 * n.x) * c;
    let py = (2 * n.y) * c;
    let pz = (2 * n.z) * c;
    vstd::arithmetic::div_mod::lemma_fundamental_div_mod(px, s);
    vstd::arithmetic::div_mod::lemma_fundamental_div_mod(py, s);
    vstd::arithmetic::div_mod::lemma_fundamental_div_mod(pz, s);
    vstd::arithmetic::div_mod::lemma_mod_bound(px, s);
    vstd::arithmetic::div_mod::lemma_mod_bound(py, s);
    vstd::arithmetic::div_mod::lemma_mod_bound(pz, s);
    let fxx = px / s;
    let fyy = py / s;
    let fzz = pz / s;
    let rx = px % s;
    let ry = py % s;
    let rz = pz % s;
    let refl = reflect3(u, n);
    assert(refl == (Vec3i { x: u.x - fxx, y: u.y - fyy, z: u.z - fzz }));
    // one rounded term at a time: s (f n) == 2 c n^2 - r n
    assert(s * (fxx * n.x) == 2 * c * (n.x * n.x) - rx * n.x) by (nonlinear_arith)
        requires
            px == s * fxx + rx,
            px == (2 * n.x) * c,
    ;
    assert(s * (fyy * n.y) == 2 * c * (n.y * n.y) - ry * n.y) by (nonlinear_arith)
        requires
            py == s * fyy + ry,
            py == (2 * n.y) * c,
    ;
    assert(s * (fzz * n.z) == 2 * c * (n.z * n.z) - rz * n.z) by (nonlinear_arith)
        requires
            pz == s * fzz + rz,
            pz == (2 * n.z) * c,
    ;
    let rd = raw_dot(refl, n);
    assert(s * rd == s * ((u.x - fxx) * n.x) + s * ((u.y - fyy) * n.y) + s * ((u.z - fzz)
        * n.z)) by (nonlinear_arith)
        requires
            rd == (u.x - fxx) * n.x + (u.y - fyy) * n.y + (u.z - fzz) * n.z,
    ;
    assert(s * ((u.x - fxx) * n.x) == s * (u.x * n.x) - s * (fxx * n.x)) by (nonlinear_arith);
    assert(s * ((u.y - fyy) * n.y) == s * (u.y * n.y) - s * (fyy * n.y)) by (nonlinear_arith);
    assert(s * ((u.z - fzz) * n.z) == s * (u.z * n.z) - s * (fzz * n.z)) by (nonlinear_arith);
    assert(s * (u.x * n.x) + s * (u.y * n.y) + s * (u.z * n.z) == s * raw) by (nonlinear_arith)
        requires
            raw == u.x * n.x + u.y * n.y + u.z * n.z,
    ;
    assert(s * raw == c * (s * s) + s * mm) by (nonlinear_arith)
        requires
            raw == s * c + mm,
    ;
    assert(2 * c * (n.x * n.x) + 2 * c * (n.y * n.y) + 2 * c * (n.z * n.z) == c * (2 * nn))
        by (nonlinear_arith)
        requires
            nn == n.x * n.x + n.y * n.y + n.z * n.z,
    ;
    assert(c * (s * s) - c * (2 * nn) == c * (s * s - 2 * nn)) by (nonlinear_arith);
    assert(s * rd == c * (s * s - 2 * nn) + s * mm + (rx * n.x + ry * n.y + rz * n.z));
    // the rounding terms lie in [-3 s^2, 4 s^2)
    assert(-(s * s) <= rx * n.x <= s * s && -(s * s) <= ry * n.y <= s * s && -(s * s) <= rz
        * n.z <= s * s) by (nonlinear_arith)
        requires
            0 <= rx < s,
            0 <= ry < s,
            0 <= rz < s,
            -s <= n.x <= s,
            -s <= n.y <= s,
            -s <= n.z <= s,
    ;
    assert(0 <= s * mm <= s * s) by (nonlinear_arith)
        requires
            0 <= mm < s,
            s == 65536,
    ;
}

/// A fuzz-free metal never absorbs a ray that arrives clearly from the
/// front: with a normal within twenty rounding units of unit length and the
/// unit direction's scaled dot with the normal at most minus five units, the
/// rounded reflection still points out of the surface, so scattering is
/// guaranteed whatever ball sample was drawn.  (At grazing incidence, within
/// a few units of perpendicular, rounding can drive the reflection's dot
/// with the normal to zero and the ray is absorbed.)
pub proof fn lemma_mirror_scatters(m: Metal, ray: Rayi, hit: HitRecI, sample: Vec3i)
    requires
        m.fuzz == 0,
        within(hit.normal, SCALE as int),
        (SCALE as int) * (SCALE as int) - 20 * (SCALE as int) <= raw_dot(hit.normal, hit.normal)
            <= (SCALE as int) * (SCALE as int) + 20 * (SCALE as int),
        dot3(unit3(ray.direction), hit.normal) <= -5,
    ensures
        metal_spec(m, ray, hit, sample) is Some,
{
    let s = SCALE as int;
    let u = unit3(ray.direction);
    let n = hit.normal;
    let nn = raw_dot(n, n);
    let c = dot3(u, n);
    lemma_reflect_alignment(u, n);
    let refl = reflect3(u, n);
    let rd = raw_dot(refl, n);
    assert(c * (s * s - 2 * nn) >= 5 * (s * s - 40 * s)) by (nonlinear_arith)
        requires
            c <= -5,
            s * s - 20 * s <= nn <= s * s + 20 * s,
            s == 65536,
    ;
    assert(rd >= s) by (nonlinear_arith)
        requires
            s * rd >= 5 * (s * s - 40 * s) - 3 * (s * s),
            s == 65536,
    ;
    // with zero fuzz the perturbation vanishes and the dot stays positive
    assert(sample.x * 0 == 0 && sample.y * 0 == 0 && sample.z * 0 == 0) by (nonlinear_arith);
    vstd::arithmetic::div_mod::lemma_div_of0(s);
    assert(vadd(refl, vscale(sample, 0)) == refl);
    crate::fixed::lemma_div_ge_multiple(rd, s, 1);
    assert(dot3(vadd(refl, vscale(sample, m.fuzz as int)), n) > 0);
}

/// Reflecting off a near-unit normal flips the alignment with that normal up
/// to rounding: the raw dot of the reflection with the normal is the
/// negation of the incoming raw dot, within forty units per scaled unit of
/// incoming alignment plus five scaled units -- about one part in ten
/// thousand for unit-scale inputs.
pub proof fn lemma_reflect_dot_flip(u: Vec3i, n: Vec3i)
    requires
        within(n, SCALE as int),
        (SCALE as int) * (SCALE as int) - 20 * (SCALE as int) <= raw_dot(n, n) <= (SCALE as int)
            * (SCALE as int) + 20 * (SCALE as int),
    ensures
        ({
            let s = SCALE as int;
            let flip = raw_dot(reflect3(u, n), n) + raw_dot(u, n);
            let mag = if dot3(u, n) >= 0 {
                dot3(u, n)
            } else {
                -dot3(u, n)
            };
            -(40 * mag + 5 * s) <= flip <= 40 * mag + 5 * s
        }),
{
    let s = SCALE as int;
    let nn = raw_dot(n, n);
    let raw = raw_dot(u, n);
    let c = dot3(u, n);
    let mag = if c >= 0 {
        c
    } else {
        -c
    };
    lemma_reflect_alignment(u, n);
    let rd = raw_dot(reflect3(u, n), n);
    vstd::arithmetic::div_mod::lemma_fundamental_div_mod(raw, s);
    vstd::arithmetic::div_mod::lemma_mod_bound(raw, s);
    assert(s * raw == c * (s * s) + s * (raw % s)) by (nonlinear_arith)
        requires
            raw == s * c + raw % s,
    ;
    assert(0 <= s * (raw % s) <= s * s) by (nonlinear_arith)
        requires
            0 <= raw % s < s,
            s == 65536,
    ;
    assert(c * (s * s - 2 * nn) + c * (s * s) == c * (2 * (s * s) - 2 * nn)) by (nonlinear_arith);
    assert(-(40 * s * mag) <= c * (2 * (s * s) - 2 * nn) <= 40 * s * mag) by (nonlinear_arith)
        requires
            mag == c || mag == -c,
            0 <= mag,
            s * s - 20 * s <= nn <= s * s + 20 * s,
            s == 65536,
    ;
    assert(-(s * (40 * mag + 5 * s)) <= s * (rd + raw) <= s * (40 * mag + 5 * s))
        by (nonlinear_arith)
        requires
            s * (rd + raw) == s * rd + s * raw,
            c * (s * s - 2 * nn) - 3 * (s * s) <= s * rd <= c * (s * s - 2 * nn) + 4 * (s * s),
            s * raw == c * (s * s) + s * (raw % s),
            0 <= s * (raw % s) <= s * s,
            -(40 * s * mag) <= c * (s * s - 2 * nn) + c * (s * s) <= 40 * s * mag,
            c * (s * s - 2 * nn) + c * (s * s) == c * (2 * (s * s) - 2 * nn),
            s == 65536,
    ;
    assert(-(40 * mag + 5 * s) <= rd + raw <= 40 * mag + 5 * s) by (nonlinear_arith)
        requires
            -(s * (40 * mag + 5 * s)) <= s * (rd + raw) <= s * (40 * mag + 5 * s),
            s == 65536,
    ;
}

/// Reflecting a unit-bounded vector off a near-unit normal preserves its raw
/// squared length up to nine hundred scaled units -- under two percent of the
/// squared length of a unit vector.
pub proof fn lemma_reflect_length(u: Vec3i, n: Vec3i)
    requires
        within(u, SCALE as int),
        within(n, SCALE as int),
        (SCALE as int) * (SCALE as int) - 20 * (SCALE as int) <= raw_dot(n, n) <= (SCALE as int)
            * (SCALE as int) + 20 * (SCALE as int),
    ensures
        ({
            let s = SCALE as int;
            let refl = reflect3(u, n);
            raw_dot(u, u) - 900 * s <= raw_dot(refl, refl) <= raw_dot(u, u) + 900 * s
        }),
{
    let s = SCALE as int;
    let nn = raw_dot(n, n);
    let uu = raw_dot(u, u);
    let raw = raw_dot(u, n);
    let c = dot3(u, n);
    vstd::arithmetic::div_mod::lemma_fundamental_div_mod(raw, s);
    vstd::arithmetic::div_mod::lemma_mod_bound(raw, s);
    let mm = raw % s;
    // the incoming alignment is at most three units in magnitude
    assert(-(3 * (s * s)) <= raw <= 3 * (s * s)) by (nonlinear_arith)
        requires
            raw == u.x * n.x + u.y * n.y + u.z * n.z,
            -s <= u.x <= s,
            -s <= u.y <= s,
            -s <= u.z <= s,
            -s <= n.x <= s,
            -s <= n.y <= s,
            -s <= n.z <= s,
    ;
    assert(-(3 * s) - 1 <= c <= 3 * s) by (nonlinear_arith)
        requires
            raw == s * c + mm,
            0 <= mm < s,
            -(3 * (s * s)) <= raw <= 3 * (s * s),
            s == 65536,
    ;
    // doubling the normal is exact
    assert(n.x * (2 * s) == s * (2 * n.x)) by (nonlinear_arith);
    assert(n.y * (2 * s) == s * (2 * n.y)) by (nonlinear_arith);
    assert(n.z * (2 * s) == s * (2 * n.z)) by (nonlinear_arith);
    vstd::arithmetic::div_mod::lemma_div_multiples_vanish(2 * n.x, s);
    vstd::arithmetic::div_mod::lemma_div_multiples_vanish(2 * n.y, s);
    vstd::arithmetic::div_mod::lemma_div_multiples_vanish(2 * n.z, s);
    assert(vscale(n, 2 * s) == (Vec3i { x: 2 * n.x, y: 2 * n.y, z: 2 * n.z }));
    // decompose each rounded reflection term
    let px = (2 * n.x) * c;
    let py = (2 * n.y) * c;
    let pz = (2 * n.z) * c;
    vstd::arithmetic::div_mod::lemma_fundamental_div_mod(px, s);
    vstd::arithmetic::div_mod::lemma_fundamental_div_mod(py, s);
    vstd::arithmetic::div_mod::lemma_fundamental_div_mod(pz, s);
    vstd::arithmetic::div_mod::lemma_mod_bound(px, s);
    vstd::arithmetic::div_mod::lemma_mod_bound(py, s);
    vstd::arithmetic::div_mod::lemma_mod_bound(pz, s);
    let fxx = px / s;
    let fyy = py / s;
    let fzz = pz / s;
    let rx = px % s;
    let ry = py % s;
    let rz = pz % s;
    let refl = reflect3(u, n);
    assert(refl == (Vec3i { x: u.x - fxx, y: u.y - fyy, z: u.z - fzz }));
    let rr = raw_dot(refl, refl);
    // squared component by squared component
    assert((s * s) * ((u.x - fxx) * (u.x - fxx)) == (s * s) * (u.x * u.x) - 2 * s * (u.x * (2
        * n.x * c - rx)) + (2 * n.x * c - rx) * (2 * n.x * c - rx)) by (nonlinear_arith)
        requires
            s * fxx == 2 * n.x * c - rx,
            px == s * fxx + rx,
            px == (2 * n.x) * c,
    ;
    assert((s * s) * ((u.y - fyy) * (u.y - fyy)) == (s * s) * (u.y * u.y) - 2 * s * (u.y * (2
        * n.y * c - ry)) + (2 * n.y * c - ry) * (2 * n.y * c - ry)) by (nonlinear_arith)
        requires
            s * fyy == 2 * n.y * c - ry,
            py == s * fyy + ry,
            py == (2 * n.y) * c,
    ;
    assert((s * s) * ((u.z - fzz) * (u.z - fzz)) == (s * s) * (u.z * u.z) - 2 * s * (u.z * (2
        * n.z * c - rz)) + (2 * n.z * c - rz) * (2 * n.z * c - rz)) by (nonlinear_arith)
        requires
            s * fzz == 2 * n.z * c - rz,
            pz == s * fzz + rz,
            pz == (2 * n.z) * c,
    ;
    assert((s * s) * rr == (s * s) * ((u.x - fxx) * (u.x - fxx)) + (s * s) * ((u.y - fyy) * (u.y
        - fyy)) + (s * s) * ((u.z - fzz) * (u.z - fzz))) by (nonlinear_arith)
        requires
            rr == (u.x - fxx) * (u.x - fxx) + (u.y - fyy) * (u.y - fyy) + (u.z - fzz) * (u.z
                - fzz),
    ;
    assert((s * s) * (u.x * u.x) + (s * s) * (u.y * u.y) + (s * s) * (u.z * u.z) == (s * s) * uu)
        by (nonlinear_arith)
        requires
            uu == u.x * u.x + u.y * u.y + u.z * u.z,
    ;
    // the cross term, one component at a time
    assert(2 * s * (u.x * (2 * n.x * c - rx)) == 4 * s * (c * (u.x * n.x)) - 2 * s * (u.x * rx))
        by (nonlinear_arith);
    assert(2 * s * (u.y * (2 * n.y * c - ry)) == 4 * s * (c * (u.y * n.y)) - 2 * s * (u.y * ry))
        by (nonlinear_arith);
    assert(2 * s * (u.z * (2 * n.z * c - rz)) == 4 * s * (c * (u.z * n.z)) - 2 * s * (u.z * rz))
        by (nonlinear_arith);
    assert(4 * s * (c * (u.x * n.x)) + 4 * s * (c * (u.y * n.y)) + 4 * s * (c * (u.z * n.z)) == 4
        * s * (c * raw)) by (nonlinear_arith)
        requires
            raw == u.x * n.x + u.y * n.y + u.z * n.z,
    ;
    assert(2 * s * (u.x * rx) + 2 * s * (u.y * ry) + 2 * s * (u.z * rz) == 2 * s * (u.x * rx + u.y
        * ry + u.z * rz)) by (nonlinear_arith);
    // the quadratic term, one component at a time
    assert((2 * n.x * c - rx) * (2 * n.x * c - rx) == 4 * (c * c) * (n.x * n.x) - 4 * c * (n.x
        * rx) + rx * rx) by (nonlinear_arith);
    assert((2 * n.y * c - ry) * (2 * n.y * c - ry) == 4 * (c * c) * (n.y * n.y) - 4 * c * (n.y
        * ry) + ry * ry) by (nonlinear_arith);
    assert((2 * n.z * c - rz) * (2 * n.z * c - rz) == 4 * (c * c) * (n.z * n.z) - 4 * c * (n.z
        * rz) + rz * rz) by (nonlinear_arith);
    assert(4 * (c * c) * (n.x * n.x) + 4 * (c * c) * (n.y * n.y) + 4 * (c * c) * (n.z * n.z) == 4
        * (c * c) * nn) by (nonlinear_arith)
        requires
            nn == n.x * n.x + n.y * n.y + n.z * n.z,
    ;
    assert(4 * c * (n.x * rx) + 4 * c * (n.y * ry) + 4 * c * (n.z * rz) == 4 * c * (n.x * rx + n.y
        * ry + n.z * rz)) by (nonlinear_arith);
    assert((s * s) * rr == (s * s) * uu - 4 * s * (c * raw) + 2 * s * (u.x * rx + u.y * ry + u.z
        * rz) + 4 * (c * c) * nn - 4 * c * (n.x * rx + n.y * ry + n.z * rz) + (rx * rx + ry * ry
        + rz * rz));
    // the two leading terms nearly cancel
    assert(4 * (c * c) * nn - 4 * s * (c * raw) == 4 * (c * c) * (nn - s * s) - 4 * s * (c * mm))
        by (nonlinear_arith)
        requires
            raw == s * c + mm,
    ;
    // bound every remainder
    assert(-(80 * s * ((3 * s + 1) * (3 * s + 1))) <= 4 * (c * c) * (nn - s * s) <= 80 * s * ((3
        * s + 1) * (3 * s + 1))) by (nonlinear_arith)
        requires
            -(3 * s) - 1 <= c <= 3 * s,
            -(20 * s) <= nn - s * s <= 20 * s,
            s == 65536,
    ;
    assert(-(4 * (s * s) * (3 * s + 1)) <= 4 * s * (c * mm) <= 4 * (s * s) * (3 * s + 1))
        by (nonlinear_arith)
        requires
            -(3 * s) - 1 <= c <= 3 * s,
            0 <= mm < s,
            s == 65536,
    ;
    assert(-(6 * s * (s * s)) <= 2 * s * (u.x * rx + u.y * ry + u.z * rz) <= 6 * s * (s * s))
        by (nonlinear_arith)
        requires
            0 <= rx < s,
            0 <= ry < s,
            0 <= rz < s,
            -s <= u.x <= s,
            -s <= u.y <= s,
            -s <= u.z <= s,
            s == 65536,
    ;
    assert(-(4 * (3 * s + 1) * (3 * (s * s))) <= 4 * c * (n.x * rx + n.y * ry + n.z * rz) <= 4
        * (3 * s + 1) * (3 * (s * s))) by (nonlinear_arith)
        requires
            0 <= rx < s,
            0 <= ry < s,
            0 <= rz < s,
            -s <= n.x <= s,
            -s <= n.y <= s,
            -s <= n.z <= s,
            -(3 * s) - 1 <= c <= 3 * s,
            s == 65536,
    ;
    assert(0 <= rx * rx + ry * ry + rz * rz <= 3 * (s * s)) by (nonlinear_arith)
        requires
            0 <= rx < s,
            0 <= ry < s,
            0 <= rz < s,
    ;
    assert((s * s) * (uu - 900 * s) <= (s * s) * rr <= (s * s) * (uu + 900 * s))
        by (nonlinear_arith)
        requires
            (s * s) * rr == (s * s) * uu - 4 * s * (c * mm) + 2 * s * (u.x * rx + u.y * ry + u.z
                * rz) + 4 * (c * c) * (nn - s * s) - 4 * c * (n.x * rx + n.y * ry + n.z * rz) + (
            rx * rx + ry * ry + rz * rz),
            -(80 * s * ((3 * s + 1) * (3 * s + 1))) <= 4 * (c * c) * (nn - s * s) <= 80 * s * ((3
                * s + 1) * (3 * s + 1)),
            -(4 * (s * s) * (3 * s + 1)) <= 4 * s * (c * mm) <= 4 * (s * s) * (3 * s + 1),
            -(6 * s * (s * s)) <= 2 * s * (u.x * rx + u.y * ry + u.z * rz) <= 6 * s * (s * s),
            -(4 * (3 * s + 1) * (3 * (s * s))) <= 4 * c * (n.x * rx + n.y * ry + n.z * rz) <= 4
                * (3 * s + 1) * (3 * (s * s)),
            0 <= rx * rx + ry * ry + rz * rz <= 3 * (s * s),
            s == 65536,
    ;
    assert(uu - 900 * s <= rr <= uu + 900 * s) by (nonlinear_arith)
        requires
            (s * s) * (uu - 900 * s) <= (s * s) * rr <= (s * s) * (uu + 900 * s),
            s == 65536,
    ;
}

/// A dielectric whose index matches the surrounding medium passes a head-on
/// ray through undeviated, for every reflectance draw: with `ref_idx` one and
/// the unit direction exactly opposite an exactly unit-length normal, the
/// scattered direction is the incoming unit direction itself, and the
/// attenuation is one.
pub proof fn lemma_dielectric_matched_head_on(d: Dielectric, ray: Rayi, hit: HitRecI, draw: int)
    requires
        d.ref_idx == SCALE as int,
        0 <= draw,
        hit.normal == (Vec3i {
            x: -unit3(ray.direction).x,
            y: -unit3(ray.direction).y,
            z: -unit3(ray.direction).z,
        }),
        raw_dot(hit.normal, hit.normal) == (SCALE as int) * (SCALE as int),
    ensures
        dielectric_spec(d, ray, hit, draw).scattered.direction == unit3(ray.direction),
        dielectric_spec(d, ray, hit, draw).scattered.origin == hit.point,
        dielectric_spec(d, ray, hit, draw).attenuation == (Vec3i {
            x: SCALE as int,
            y: SCALE as int,
            z: SCALE as int,
        }),
{
    let s = SCALE as int;
    let u = unit3(ray.direction);
    let n = hit.normal;
    assert(s * s > 0) by (nonlinear_arith)
        requires
            s == 65536,
    ;
    // both index ratios are one
    assert(div_fx(s, s) == s) by {
        vstd::arithmetic::div_mod::lemma_div_multiples_vanish(s, s);
    }
    // the cosine is exactly one
    crate::hittable::lemma_scale_neg_one(u);
    assert(raw_dot(vscale(u, -s), n) == raw_dot(n, n)) by (nonlinear_arith)
        requires
            vscale(u, -s) == (Vec3i { x: -u.x, y: -u.y, z: -u.z }),
            n == (Vec3i { x: -u.x, y: -u.y, z: -u.z }),
    ;
    assert(dot3(vscale(u, -s), n) == s) by {
        assert(s * s == s * s);
        vstd::arithmetic::div_mod::lemma_div_multiples_vanish(s, s);
    }
    let cos = clamp_fx(dot3(vscale(u, -s), n), -s, s);
    assert(cos == s);
    // the sine term vanishes
    assert(mul_fx(s, s) == s) by {
        vstd::arithmetic::div_mod::lemma_div_multiples_vanish(s, s);
    }
    assert(sqrt_fx(0) == 0) by {
        assert(0int * s == 0) by (nonlinear_arith);
        assert((0nat + 1) * (0nat + 1) > 0) by (nonlinear_arith);
        crate::fixed::lemma_sqrt_floor_unique(0, 0);
    }
    let sin = sqrt_fx(s - mul_fx(cos, cos));
    assert(sin == 0);
    assert(mul_fx(s, 0) == 0) by {
        assert(s * 0 == 0) by (nonlinear_arith);
        vstd::arithmetic::div_mod::lemma_div_of0(s);
    }
    // the reflectance at cosine one is zero, so every draw refracts
    assert(reflectance_fx(s, s) == 0) by {
        assert(div_fx(0, 2 * s) == 0) by {
            assert(0int * s == 0) by (nonlinear_arith);
            vstd::arithmetic::div_mod::lemma_div_of0(2 * s);
        }
        assert(mul_fx(0, 0) == 0) by {
            assert(0int * 0 == 0) by (nonlinear_arith);
            vstd::arithmetic::div_mod::lemma_div_of0(s);
        }
        assert(pow5_fx(0) == 0) by {
            assert(0int * 0 == 0) by (nonlinear_arith);
            vstd::arithmetic::div_mod::lemma_div_of0(s);
        }
        assert(mul_fx(s - 0, 0) == 0) by {
            assert((s - 0) * 0 == 0) by (nonlinear_arith);
            vstd::arithmetic::div_mod::lemma_div_of0(s);
        }
    }
    // refraction returns the incoming unit direction exactly
    assert(refract3(u, n, s) == u) by {
        lemma_scale_one(n);
        lemma_scale_one(u);
        assert(vscale(n, s) == n);
        assert(vadd(u, n) == (Vec3i { x: 0, y: 0, z: 0 }));
        lemma_scale_zero_vec(s);
        assert(vscale(vadd(u, vscale(n, dot3(vscale(u, -s), n))), s) == (Vec3i {
            x: 0,
            y: 0,
            z: 0,
        }));
        assert(raw_dot(Vec3i { x: 0, y: 0, z: 0 }, Vec3i { x: 0, y: 0, z: 0 }) == 0)
            by (nonlinear_arith);
        assert(dot3(Vec3i { x: 0, y: 0, z: 0 }, Vec3i { x: 0, y: 0, z: 0 }) == 0) by {
            vstd::arithmetic::div_mod::lemma_div_of0(s);
        }
        assert(sqrt_fx(s) == s) by {
            assert(0 <= s * s && s * s < (s + 1) * (s + 1)) by (nonlinear_arith)
                requires
                    s == 65536,
            ;
            crate::fixed::lemma_sqrt_floor_unique((s * s) as nat, s as nat);
        }
        crate::hittable::lemma_scale_neg_one(n);
        lemma_scale_one(Vec3i { x: -n.x, y: -n.y, z: -n.z });
        assert(vscale(vscale(n, -s), s) == (Vec3i { x: -n.x, y: -n.y, z: -n.z }));
        assert(vadd(Vec3i { x: 0, y: 0, z: 0 }, Vec3i { x: -n.x, y: -n.y, z: -n.z }) == u);
    }
}

/// Scaling by one is the identity.
proof fn lemma_scale_one(v: Vec3i)
    ensures
        vscale(v, SCALE as int) == v,
{
    vstd::arithmetic::div_mod::lemma_div_multiples_vanish(v.x, SCALE as int);
    vstd::arithmetic::div_mod::lemma_div_multiples_vanish(v.y, SCALE as int);
    vstd::arithmetic::div_mod::lemma_div_multiples_vanish(v.z, SCALE as int);
    assert(v.x * (SCALE as int) == (SCALE as int) * v.x) by (nonlinear_arith);
    assert(v.y * (SCALE as int) == (SCALE as int) * v.y) by (nonlinear_arith);
    assert(v.z * (SCALE as int) == (SCALE as int) * v.z) by (nonlinear_arith);
}

/// Scaling the zero vector gives the zero vector.
proof fn lemma_scale_zero_vec(t: int)
    ensures
        vscale(Vec3i { x: 0, y: 0, z: 0 }, t) == (Vec3i { x: 0, y: 0, z: 0 }),
{
    assert(0int * t == 0) by (nonlinear_arith);
    vstd::arithmetic::div_mod::lemma_div_of0(SCALE as int);
}

impl Material {
    /// Scattering of whichever surface kind this is.  Every scattered ray
    /// starts at the hit point, has a bounded direction, and carries a valid
    /// attenuation color; only a metal can absorb.
    pub fn scatter(&self, ray: &Ray, hit_record: &HitRecord, src: &mut RandomSource) -> (r: Option<
        MaterialInfo,
    >)
        requires
            self.wf(),
            ray_wf(ray@),
            raw_dot(ray@.direction, ray@.direction) >= 1,
            hit_rec_wf(hit_record@),
        ensures
            (match r {
                Some(i) => {
                    &&& i@.scattered.origin == hit_record@.point
                    &&& within(i@.scattered.direction, 0x80_0000int)
                    &&& color_wf(i@.attenuation)
                },
                None => self matches Material::Metal(_),
            }),
    {
        match self {
            Material::Lambertian(l) => l.scatter(ray, hit_record, src),
            Material::Metal(m) => m.scatter(ray, hit_record, src),
            Material::Dielectric(d) => d.scatter(ray, hit_record, src),
        }
    }
}

} // verus!
