//! Hit records and the intersection capability.
//!
//! A `HitRecord` describes the closest intersection of a ray with geometry:
//! the point, the parameter `t`, the surface normal oriented against the ray
//! by the front-face rule, and the material of the surface.

use crate::fixed::SCALE;
use crate::material::Material;
use crate::ray::{ray_wf, Ray, Rayi};
use crate::sphere::{
    sphere_hit_rec, sphere_hit_t, sphere_record, sphere_wf, t_limit, Sphere,
};
use crate::vec3::{dot3, dot_product, raw_dot, vscale, within, Point3, Vec3i, Vector3};
use vstd::prelude::*;

verus! {

pub struct HitRecord {
    pub point: Point3,
    pub normal: Vector3,
    pub t: i64,
    pub front_face: bool,
    pub material: Material,
}

/// Mathematical value of a `HitRecord`.
pub struct HitRecI {
    pub point: Vec3i,
    pub normal: Vec3i,
    pub t: int,
    pub front_face: bool,
    pub material: Material,
}

impl View for HitRecord {
    type V = HitRecI;

    open spec fn view(&self) -> HitRecI {
        HitRecI {
            point: self.point@,
            normal: self.normal@,
            t: self.t as int,
            front_face: self.front_face,
            material: self.material,
        }
    }
}

/// Bounds every hit record of this crate meets: the point lies in the
/// traceable world and the normal is at most one unit per component.
pub open spec fn hit_rec_wf(h: HitRecI) -> bool {
    &&& within(h.point, 0x60_0000_0000int)
    &&& within(h.normal, SCALE as int)
}

/// The front-face rule: the stored normal is the outward normal if that one
/// points against the ray, else its negation; `front_face` records which.
pub open spec fn face_normal(rec: HitRecI, ray: Rayi, outward: Vec3i) -> HitRecI {
    let ff = dot3(ray.direction, outward) < 0;
    HitRecI {
        front_face: ff,
        normal: if ff {
            outward
        } else {
            vscale(outward, -(SCALE as int))
        },
        ..rec
    }
}

/// Scaling by minus one negates exactly.
pub proof fn lemma_scale_neg_one(v: Vec3i)
    ensures
        vscale(v, -(SCALE as int)) == (Vec3i { x: -v.x, y: -v.y, z: -v.z }),
{
    let s = SCALE as int;
    assert(v.x * (-s) == s * (-v.x)) by (nonlinear_arith);
    assert(v.y * (-s) == s * (-v.y)) by (nonlinear_arith);
    assert(v.z * (-s) == s * (-v.z)) by (nonlinear_arith);
    vstd::arithmetic::div_mod::lemma_div_multiples_vanish(-v.x, s);
    vstd::arithmetic::div_mod::lemma_div_multiples_vanish(-v.y, s);
    vstd::arithmetic::div_mod::lemma_div_multiples_vanish(-v.z, s);
}

/// The normal produced by the front-face rule never points with the ray: its
/// scaled dot with the direction is never positive, and is strictly negative
/// whenever direction and outward normal are not perpendicular.
pub proof fn lemma_front_face_rule(rec: HitRecI, ray: Rayi, outward: Vec3i)
    ensures
        dot3(ray.direction, face_normal(rec, ray, outward).normal) <= 0,
        raw_dot(ray.direction, outward) != 0 ==> dot3(
            ray.direction,
            face_normal(rec, ray, outward).normal,
        ) < 0,
{
    let s = SCALE as int;
    let d = ray.direction;
    let raw = raw_dot(d, outward);
    if dot3(d, outward) < 0 {
    } else {
        assert(raw >= 0) by {
            if raw < 0 {
                vstd::arithmetic::div_mod::lemma_div_is_ordered(raw, -1, s);
                vstd::arithmetic::div_mod::lemma_fundamental_div_mod_converse(-1, s, -1, s - 1);
            }
        }
        lemma_scale_neg_one(outward);
        let m = face_normal(rec, ray, outward).normal;
        assert(d.x * m.x + d.y * m.y + d.z * m.z == -(d.x * outward.x + d.y * outward.y + d.z
            * outward.z)) by (nonlinear_arith)
            requires
                m.x == -outward.x,
                m.y == -outward.y,
                m.z == -outward.z,
        ;
        assert(raw_dot(d, m) == -raw);
        vstd::arithmetic::div_mod::lemma_div_is_ordered(-raw, 0, s);
        vstd::arithmetic::div_mod::lemma_div_of0(s);
        if raw != 0 {
            vstd::arithmetic::div_mod::lemma_div_is_ordered(-raw, -1, s);
            vstd::arithmetic::div_mod::lemma_fundamental_div_mod_converse(-1, s, -1, s - 1);
        }
    }
}

impl HitRecord {
    /// Orients the stored normal against the ray; exact per `face_normal`.
    pub fn set_face_normal(&mut self, ray: &Ray, outward_normal: Vector3)
        requires
            within(ray@.direction, 0x40_0000_0000int),
            within(outward_normal@, 0x40_0000_0000int),
        ensures
            final(self)@ == face_normal(old(self)@, ray@, outward_normal@),
    {
        self.front_face = dot_product(&ray.direction, &outward_normal) < 0;
        proof {
            lemma_scale_neg_one(outward_normal@);
        }
        self.normal = if self.front_face {
            outward_normal
        } else {
            outward_normal.scale(-SCALE)
        };
    }
}

/// The view of an optional hit.
pub open spec fn hit_view(r: Option<HitRecord>) -> Option<HitRecI> {
    match r {
        Some(h) => Some(h@),
        None => None,
    }
}

/// The capability of being intersected: given a ray and an open parameter
/// interval, report the closest hit inside the interval or none.  Each
/// implementor fixes the result by its own `hit_spec`.
pub trait Hit {
    /// What the implementor asks of its caller.
    spec fn hit_req(&self, ray: Ray, min_t: int, max_t: int) -> bool;

    /// The exact result of `hit`.
    spec fn hit_spec(&self, ray: Ray, min_t: int, max_t: int) -> Option<HitRecI>;

    fn hit(&self, ray: &Ray, min_t: i64, max_t: i64) -> (r: Option<HitRecord>)
        requires
            self.hit_req(*ray, min_t as int, max_t as int),
        ensures
            hit_view(r) == self.hit_spec(*ray, min_t as int, max_t as int),
    ;
}

/// The scene: a sequence of spheres searched for the nearest hit.
pub struct HittableList {
    pub objects: Vec<Sphere>,
}

impl HittableList {
    /// Every member is a well-formed sphere.
    pub open spec fn wf(&self) -> bool {
        forall|j: int|
            0 <= j < self.objects@.len() ==> sphere_wf(#[trigger] self.objects@[j]@)
    }

    pub fn new() -> (r: Self)
        ensures
            r.objects@.len() == 0,
            r.wf(),
    {
        Self { objects: Vec::new() }
    }
}

/// The scene result as the scan computes it: each member may shrink the
/// search interval and replace the best hit.
pub open spec fn list_hit_fold(
    objs: Seq<Sphere>,
    ray: Ray,
    min_t: int,
    closest: int,
    best: Option<HitRecI>,
) -> Option<HitRecI>
    decreases objs.len(),
{
    if objs.len() == 0 {
        best
    } else {
        match sphere_hit_rec(objs[0]@, ray@, min_t, closest) {
            Some(h) => list_hit_fold(objs.drop_first(), ray, min_t, h.t, Some(h)),
            None => list_hit_fold(objs.drop_first(), ray, min_t, closest, best),
        }
    }
}

impl Hit for HittableList {
    open spec fn hit_req(&self, ray: Ray, min_t: int, max_t: int) -> bool {
        &&& self.wf()
        &&& ray_wf(ray@)
        &&& -t_limit() <= min_t
        &&& max_t <= t_limit()
    }

    open spec fn hit_spec(&self, ray: Ray, min_t: int, max_t: int) -> Option<HitRecI> {
        list_hit_fold(self.objects@, ray, min_t, max_t, Option::None)
    }

    /// Scans all members, shrinking the search interval to the closest hit
    /// found so far.  The result does not depend on the order of the members:
    /// it is the hit with the least parameter among all of them, or none when
    /// no member is hit inside `(min_t, max_t)`.
    fn hit(&self, ray: &Ray, min_t: i64, max_t: i64) -> (r: Option<HitRecord>)
        ensures
            (match r {
                Some(h) => {
                    &&& min_t < h@.t < max_t
                    &&& hit_rec_wf(h@)
                    &&& exists|j: int|
                        0 <= j < self.objects@.len() && #[trigger] sphere_hit_t(
                            self.objects@[j]@,
                            ray@,
                            min_t as int,
                            max_t as int,
                        ) == Some(h@.t) && h@ == sphere_record(self.objects@[j]@, ray@, h@.t)
                    &&& forall|j: int|
                        0 <= j < self.objects@.len() ==> (match #[trigger] sphere_hit_t(
                            self.objects@[j]@,
                            ray@,
                            min_t as int,
                            max_t as int,
                        ) {
                            Some(tj) => h@.t <= tj,
                            None => true,
                        })
                },
                None => forall|j: int|
                    0 <= j < self.objects@.len() ==> (#[trigger] sphere_hit_t(
                        self.objects@[j]@,
                        ray@,
                        min_t as int,
                        max_t as int,
                    )) is None,
            }),
    {
        let ghost rv = *ray;
        let ghost mn = min_t as int;
        let ghost mx = max_t as int;
        let ghost objs = self.objects@;
        let mut closest_so_far: i64 = max_t;
        let mut hit_record: Option<HitRecord> = None;
        let mut k: usize = 0;
        let n = self.objects.len();
        proof {
            assert(objs.skip(0) =~= objs);
        }
        while k < n
            invariant
                n == objs.len(),
                0 <= k <= n,
                objs == self.objects@,
                self.wf(),
                ray_wf(rv@),
                rv == *ray,
                -t_limit() <= mn,
                mx <= t_limit(),
                mn == min_t as int,
                mx == max_t as int,
                closest_so_far as int <= mx,
                list_hit_fold(objs.skip(k as int), rv, mn, closest_so_far as int, hit_view(hit_record))
                    == list_hit_fold(objs, rv, mn, mx, Option::None),
                (match hit_record {
                    Some(h) => {
                        &&& mn < h@.t < mx
                        &&& closest_so_far == h@.t
                        &&& hit_rec_wf(h@)
                        &&& exists|j: int|
                            0 <= j < k && #[trigger] sphere_hit_t(objs[j]@, rv@, mn, mx) == Some(
                                h@.t,
                            ) && h@ == sphere_record(objs[j]@, rv@, h@.t)
                        &&& forall|j: int|
                            0 <= j < k ==> (match #[trigger] sphere_hit_t(objs[j]@, rv@, mn, mx) {
                                Some(tj) => h@.t <= tj,
                                None => true,
                            })
                    },
                    None => closest_so_far == max_t && forall|j: int|
                        0 <= j < k ==> (#[trigger] sphere_hit_t(objs[j]@, rv@, mn, mx)) is None,
                }),
            decreases n - k,
        {
            let obj = &self.objects[k];
            let res = obj.hit(ray, min_t, closest_so_far);
            proof {
                assert(objs.skip(k as int)[0] == objs[k as int]);
                assert(objs.skip(k as int).drop_first() =~= objs.skip(k as int + 1));
                crate::sphere::lemma_hit_shrink(objs[k as int]@, rv@, mn, mx, closest_so_far as int);
            }
            if let Some(h) = res {
                closest_so_far = h.t;
                hit_record = Some(h);
            }
            k = k + 1;
        }
        proof {
            assert(objs.skip(n as int) =~= Seq::<Sphere>::empty());
        }
        hit_record
    }
}

} // verus!
