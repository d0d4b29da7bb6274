//! The camera: maps normalized image-plane coordinates to world rays, with an
//! optional lens aperture for depth of field.
//!
//! The vertical field of view enters as `tan(vfov / 2)`, already a scaled
//! scalar: the integer core carries no trigonometry, so the caller supplies
//! the tangent.  Scalar products (viewport extent times focus distance) are
//! formed before scaling the basis vectors, keeping every component exact per
//! `camera_make`.

use crate::fixed::{fx_mul, lemma_mul_fx_range, mul_fx, SCALE};
use crate::ray::{ray_wf, Ray, Rayi};
use crate::rng::RandomSource;
use crate::vec3::{
    cross, cross3, dot3, random_in_unit_disk, raw_dot, unit3, unit_vector, vadd, vdiv, vscale,
    vsub,
    within, Point3, Vec3i, Vector3,
};
use vstd::prelude::*;

verus! {

pub struct Camera {
    pub origin: Point3,
    pub lower_left_corner: Point3,
    pub horizontal: Vector3,
    pub vertical: Vector3,
    pub lens_radius: i64,
    pub u: Vector3,
    pub v: Vector3,
    pub w: Vector3,
}

/// Mathematical value of a `Camera`.
pub struct Camerai {
    pub origin: Vec3i,
    pub lower_left_corner: Vec3i,
    pub horizontal: Vec3i,
    pub vertical: Vec3i,
    pub lens_radius: int,
    pub u: Vec3i,
    pub v: Vec3i,
    pub w: Vec3i,
}

impl View for Camera {
    type V = Camerai;

    open spec fn view(&self) -> Camerai {
        Camerai {
            origin: self.origin@,
            lower_left_corner: self.lower_left_corner@,
            horizontal: self.horizontal@,
            vertical: self.vertical@,
            lens_radius: self.lens_radius as int,
            u: self.u@,
            v: self.v@,
            w: self.w@,
        }
    }
}

/// Bounds every constructed camera meets; they keep each generated ray
/// inside the traceable range.
pub open spec fn cam_wf(c: Camerai) -> bool {
    &&& within(c.origin, 0x4000_0000int)
    &&& within(vsub(c.lower_left_corner, c.origin), 0x30_0000int)
    &&& within(c.horizontal, 0x10_0000int)
    &&& within(c.vertical, 0x10_0000int)
    &&& 0 <= c.lens_radius <= 0x2_0000int
    &&& within(c.u, SCALE as int)
    &&& within(c.v, 2 * (SCALE as int) + 1)
    &&& within(c.w, SCALE as int)
}

/// The orthonormal-frame basis of the camera: `w` looks backward along the
/// view direction, `u` spans the right of the image, `v` its up.  If the
/// view-up vector is parallel to the view direction (a caller error the
/// construction survives), `u` falls back to the `x` axis.
pub open spec fn camera_basis(lookfrom: Vec3i, lookat: Vec3i, vup: Vec3i) -> (Vec3i, Vec3i, Vec3i) {
    let w = unit3(vsub(lookfrom, lookat));
    let cr = cross3(vup, w);
    let u = if cr.x == 0 && cr.y == 0 && cr.z == 0 {
        Vec3i { x: SCALE as int, y: 0, z: 0 }
    } else {
        unit3(cr)
    };
    let v = cross3(w, u);
    (u, v, w)
}

/// The full camera derived from its configuration.
pub open spec fn camera_make(
    lookfrom: Vec3i,
    lookat: Vec3i,
    vup: Vec3i,
    tan_half_vfov: int,
    aspect_ratio: int,
    aperture: int,
    focus_dist: int,
) -> Camerai {
    let s = SCALE as int;
    let viewport_height = 2 * tan_half_vfov;
    let viewport_width = mul_fx(aspect_ratio, viewport_height);
    let (u, v, w) = camera_basis(lookfrom, lookat, vup);
    let horizontal = vscale(u, mul_fx(viewport_width, focus_dist));
    let vertical = vscale(v, mul_fx(viewport_height, focus_dist));
    let lower_left_corner = vsub(
        vsub(vsub(lookfrom, vdiv(horizontal, 2 * s)), vdiv(vertical, 2 * s)),
        vscale(w, focus_dist),
    );
    Camerai {
        origin: lookfrom,
        lower_left_corner,
        horizontal,
        vertical,
        lens_radius: aperture / 2,
        u,
        v,
        w,
    }
}

/// The ray through plane coordinates `(s, t)` for a given lens-disk sample.
/// A camera so degenerate that the plane point coincides with the lens point
/// (the direction would be the zero vector) falls back to the backward axis,
/// so every generated ray can be traced.
pub open spec fn camera_ray(c: Camerai, s: int, t: int, disk: Vec3i) -> Rayi {
    let rd = vscale(disk, c.lens_radius);
    let offset = vadd(vscale(c.u, rd.x), vscale(c.v, rd.y));
    let dir = vsub(
        vsub(
            vadd(vadd(c.lower_left_corner, vscale(c.horizontal, s)), vscale(c.vertical, t)),
            c.origin,
        ),
        offset,
    );
    Rayi {
        origin: vadd(c.origin, offset),
        direction: if dir.x == 0 && dir.y == 0 && dir.z == 0 {
            Vec3i { x: 0, y: 0, z: -(SCALE as int) }
        } else {
            dir
        },
    }
}

impl Camera {
    /// Builds the camera.  The field of view is `tan(vfov / 2)` as a scaled
    /// scalar; the two product caps keep the viewport times the focus
    /// distance inside the working range.
    pub fn new(
        lookfrom: Point3,
        lookat: Point3,
        vup: Vector3,
        tan_half_vfov: i64,
        aspect_ratio: i64,
        aperture: i64,
        focus_dist: i64,
    ) -> (r: Self)
        requires
            within(lookfrom@, 0x4000_0000int),
            within(lookat@, 0x4000_0000int),
            within(vup@, 0x10_0000int),
            !(lookfrom@ == lookat@),
            0 <= tan_half_vfov <= 0x40_0000int,
            0 < aspect_ratio <= 0x80_0000int,
            0 <= aperture <= 0x4_0000int,
            0 < focus_dist <= 0x10_0000int,
            mul_fx(mul_fx(aspect_ratio as int, 2 * tan_half_vfov as int), focus_dist as int)
                <= 0x8_0000,
            mul_fx(2 * tan_half_vfov as int, focus_dist as int) <= 0x4_0000,
        ensures
            r@ == camera_make(
                lookfrom@,
                lookat@,
                vup@,
                tan_half_vfov as int,
                aspect_ratio as int,
                aperture as int,
                focus_dist as int,
            ),
            cam_wf(r@),
            -4 <= dot3(r@.v, r@.w) <= 3,
            -4 <= dot3(r@.v, r@.u) <= 3,
            ({
                let cr = cross3(vup@, unit3(vsub(lookfrom@, lookat@)));
                raw_dot(cr, cr) >= 0x1000_0000 ==> -204 <= dot3(r@.u, r@.w) <= 203
            }),
            ({
                let cr = cross3(vup@, unit3(vsub(lookfrom@, lookat@)));
                raw_dot(cr, cr) >= 0x1000_0000 ==> crate::vec3::unit_sq_lo() <= raw_dot(
                    r@.u,
                    r@.u,
                ) <= crate::vec3::unit_sq_hi()
            }),
            raw_dot(vsub(lookfrom@, lookat@), vsub(lookfrom@, lookat@)) >= 0x1000_0000
                ==> crate::vec3::unit_sq_lo() <= raw_dot(r@.w, r@.w) <= crate::vec3::unit_sq_hi(),
    {
        let ghost s = SCALE as int;
        let viewport_height = 2 * tan_half_vfov;
        proof {
            lemma_mul_fx_range(aspect_ratio as int, viewport_height as int, 0x80_0000, 0x80_0000);
        }
        let viewport_width = fx_mul(aspect_ratio, viewport_height);

        let diff = lookfrom.sub(lookat);
        proof {
            crate::vec3::lemma_raw_dot_self_pos(diff@);
        }
        let w = unit_vector(&diff);
        let cr = cross(&vup, &w);
        proof {
            crate::fixed::lemma_mul_range(vup@.y, w@.z, 0x10_0000int, 65536);
            crate::fixed::lemma_mul_range(vup@.z, w@.y, 0x10_0000int, 65536);
            crate::fixed::lemma_mul_range(vup@.z, w@.x, 0x10_0000int, 65536);
            crate::fixed::lemma_mul_range(vup@.x, w@.z, 0x10_0000int, 65536);
            crate::fixed::lemma_mul_range(vup@.x, w@.y, 0x10_0000int, 65536);
            crate::fixed::lemma_mul_range(vup@.y, w@.x, 0x10_0000int, 65536);
            crate::fixed::lemma_div_mag(vup@.y * w@.z - vup@.z * w@.y, s, 2 * (0x10_0000int * 65536));
            crate::fixed::lemma_div_mag(vup@.z * w@.x - vup@.x * w@.z, s, 2 * (0x10_0000int * 65536));
            crate::fixed::lemma_div_mag(vup@.x * w@.y - vup@.y * w@.x, s, 2 * (0x10_0000int * 65536));
        }
        let u = if cr.x == 0 && cr.y == 0 && cr.z == 0 {
            Vector3 { x: SCALE, y: 0, z: 0 }
        } else {
            proof {
                crate::vec3::lemma_raw_dot_self_pos(cr@);
            }
            unit_vector(&cr)
        };
        let v = cross(&w, &u);
        proof {
            // `v` is orthogonal to both `w` and `u` up to a few units
            crate::vec3::lemma_cross_orthogonal(w@, u@, 65536);
            // and so is `u` to `w`, whenever the cross product that produced
            // it is long enough to normalize faithfully
            if raw_dot(diff@, diff@) >= 0x1000_0000 {
                crate::vec3::lemma_unit_vector_length(diff@);
            }
            if raw_dot(cr@, cr@) >= 0x1000_0000 {
                assert(!(cr@.x == 0 && cr@.y == 0 && cr@.z == 0)) by {
                    assert(0int * 0 == 0) by (nonlinear_arith);
                }
                crate::vec3::lemma_unit_vector_length(cr@);
                crate::vec3::lemma_cross_orthogonal(vup@, w@, 0x10_0000);
                let craw = raw_dot(cr@, w@);
                vstd::arithmetic::div_mod::lemma_fundamental_div_mod(craw, s);
                vstd::arithmetic::div_mod::lemma_mod_bound(craw, s);
                assert(-3276800 <= craw <= 3276800) by (nonlinear_arith)
                    requires
                        craw == s * (craw / s) + craw % s,
                        -49 <= craw / s <= 48,
                        0 <= craw % s < s,
                        s == 65536,
                ;
                crate::vec3::lemma_unit_orthogonal(cr@, w@, 3276800);
                crate::fixed::lemma_div_mag(raw_dot(u@, w@), s, 13303808);
            }
            assert(within(v@, 2 * s + 1)) by {
                crate::fixed::lemma_mul_range(w@.y, u@.z, 65536, 65536);
                crate::fixed::lemma_mul_range(w@.z, u@.y, 65536, 65536);
                crate::fixed::lemma_mul_range(w@.z, u@.x, 65536, 65536);
                crate::fixed::lemma_mul_range(w@.x, u@.z, 65536, 65536);
                crate::fixed::lemma_mul_range(w@.x, u@.y, 65536, 65536);
                crate::fixed::lemma_mul_range(w@.y, u@.x, 65536, 65536);
                crate::fixed::lemma_div_mag(w@.y * u@.z - w@.z * u@.y, s, 2 * (65536int * 65536));
                crate::fixed::lemma_div_mag(w@.z * u@.x - w@.x * u@.z, s, 2 * (65536int * 65536));
                crate::fixed::lemma_div_mag(w@.x * u@.y - w@.y * u@.x, s, 2 * (65536int * 65536));
            }
            assert(0 <= (aspect_ratio as int) * (viewport_height as int)) by (nonlinear_arith)
                requires
                    0 < aspect_ratio,
                    0 <= viewport_height,
            ;
            vstd::arithmetic::div_mod::lemma_div_pos_is_pos(
                (aspect_ratio as int) * (viewport_height as int),
                s,
            );
            assert(0 <= (viewport_width as int) * (focus_dist as int)) by (nonlinear_arith)
                requires
                    0 <= viewport_width,
                    0 < focus_dist,
            ;
            vstd::arithmetic::div_mod::lemma_div_pos_is_pos(
                (viewport_width as int) * (focus_dist as int),
                s,
            );
            assert(0 <= (viewport_height as int) * (focus_dist as int)) by (nonlinear_arith)
                requires
                    0 <= viewport_height,
                    0 < focus_dist,
            ;
            vstd::arithmetic::div_mod::lemma_div_pos_is_pos(
                (viewport_height as int) * (focus_dist as int),
                s,
            );
        }
        let hspan = fx_mul(viewport_width, focus_dist);
        let vspan = fx_mul(viewport_height, focus_dist);
        proof {
            lemma_mul_fx_range(u@.x, hspan as int, 65536, 0x8_0000);
            lemma_mul_fx_range(u@.y, hspan as int, 65536, 0x8_0000);
            lemma_mul_fx_range(u@.z, hspan as int, 65536, 0x8_0000);
            lemma_mul_fx_range(v@.x, vspan as int, 131073, 0x4_0000);
            lemma_mul_fx_range(v@.y, vspan as int, 131073, 0x4_0000);
            lemma_mul_fx_range(v@.z, vspan as int, 131073, 0x4_0000);
        }
        let horizontal = u.scale(hspan);
        let vertical = v.scale(vspan);
        proof {
            crate::fixed::lemma_div_fx_range(horizontal@.x, 2 * s, 0x8_0001);
            crate::fixed::lemma_div_fx_range(horizontal@.y, 2 * s, 0x8_0001);
            crate::fixed::lemma_div_fx_range(horizontal@.z, 2 * s, 0x8_0001);
            crate::fixed::lemma_div_fx_range(vertical@.x, 2 * s, 0x8_0005);
            crate::fixed::lemma_div_fx_range(vertical@.y, 2 * s, 0x8_0005);
            crate::fixed::lemma_div_fx_range(vertical@.z, 2 * s, 0x8_0005);
            lemma_mul_fx_range(w@.x, focus_dist as int, 65536, 0x10_0000);
            lemma_mul_fx_range(w@.y, focus_dist as int, 65536, 0x10_0000);
            lemma_mul_fx_range(w@.z, focus_dist as int, 65536, 0x10_0000);
        }
        let lower_left_corner = lookfrom.sub(horizontal.div(2 * SCALE)).sub(
            vertical.div(2 * SCALE),
        ).sub(w.scale(focus_dist));
        Self {
            origin: lookfrom,
            lower_left_corner,
            horizontal,
            vertical,
            lens_radius: aperture / 2,
            u,
            v,
            w,
        }
    }

    /// The ray for plane coordinates `(s, t)` and a given lens sample; exact
    /// per `camera_ray`.
    pub fn get_ray_with(&self, s: i64, t: i64, disk_sample: Vector3) -> (r: Ray)
        requires
            cam_wf(self@),
            0 <= s <= 2 * (SCALE as int),
            0 <= t <= 2 * (SCALE as int),
            within(disk_sample@, SCALE as int),
        ensures
            r@ == camera_ray(self@, s as int, t as int, disk_sample@),
            ray_wf(r@),
            within(r@.origin, 0x4008_0000int),
            !(r@.direction.x == 0 && r@.direction.y == 0 && r@.direction.z == 0),
    {
        proof {
            lemma_mul_fx_range(disk_sample@.x, self@.lens_radius, 65536, 0x2_0000);
            lemma_mul_fx_range(disk_sample@.y, self@.lens_radius, 65536, 0x2_0000);
            lemma_mul_fx_range(disk_sample@.z, self@.lens_radius, 65536, 0x2_0000);
        }
        let rd = disk_sample.scale(self.lens_radius);
        proof {
            lemma_mul_fx_range(self@.u.x, rd@.x, 65536, 0x2_0001);
            lemma_mul_fx_range(self@.u.y, rd@.x, 65536, 0x2_0001);
            lemma_mul_fx_range(self@.u.z, rd@.x, 65536, 0x2_0001);
            lemma_mul_fx_range(self@.v.x, rd@.y, 131073, 0x2_0001);
            lemma_mul_fx_range(self@.v.y, rd@.y, 131073, 0x2_0001);
            lemma_mul_fx_range(self@.v.z, rd@.y, 131073, 0x2_0001);
        }
        let offset = self.u.scale(rd.x).add(self.v.scale(rd.y));
        proof {
            lemma_mul_fx_range(self@.horizontal.x, s as int, 0x10_0000, 0x2_0000);
            lemma_mul_fx_range(self@.horizontal.y, s as int, 0x10_0000, 0x2_0000);
            lemma_mul_fx_range(self@.horizontal.z, s as int, 0x10_0000, 0x2_0000);
            lemma_mul_fx_range(self@.vertical.x, t as int, 0x10_0000, 0x2_0000);
            lemma_mul_fx_range(self@.vertical.y, t as int, 0x10_0000, 0x2_0000);
            lemma_mul_fx_range(self@.vertical.z, t as int, 0x10_0000, 0x2_0000);
        }
        let raw_direction = self.lower_left_corner.add(self.horizontal.scale(s)).add(
            self.vertical.scale(t),
        ).sub(self.origin).sub(offset);
        let direction = if raw_direction.x == 0 && raw_direction.y == 0 && raw_direction.z == 0 {
            Vector3 { x: 0, y: 0, z: -SCALE }
        } else {
            raw_direction
        };
        Ray::new(self.origin.add(offset), direction)
    }

    /// The ray for plane coordinates `(s, t)`, sampling the lens disk.  With
    /// aperture zero the lens offset vanishes and the pinhole ray is exact.
    pub fn get_ray(&self, s: i64, t: i64, src: &mut RandomSource) -> (r: Ray)
        requires
            cam_wf(self@),
            0 <= s <= 2 * (SCALE as int),
            0 <= t <= 2 * (SCALE as int),
        ensures
            ray_wf(r@),
            within(r@.origin, 0x4008_0000int),
            !(r@.direction.x == 0 && r@.direction.y == 0 && r@.direction.z == 0),
            self@.lens_radius == 0 ==> r@ == camera_ray(
                self@,
                s as int,
                t as int,
                (Vec3i { x: 0, y: 0, z: 0 }),
            ),
    {
        let disk = random_in_unit_disk(src);
        let r = self.get_ray_with(s, t, disk);
        proof {
            if self@.lens_radius == 0 {
                lemma_scale_zero(disk@);
                lemma_scale_zero(Vec3i { x: 0, y: 0, z: 0 });
            }
        }
        r
    }
}

/// Scaling any vector by zero gives the zero vector.
proof fn lemma_scale_zero(v: Vec3i)
    ensures
        vscale(v, 0) == (Vec3i { x: 0, y: 0, z: 0 }),
{
    assert(v.x * 0 == 0) by (nonlinear_arith);
    assert(v.y * 0 == 0) by (nonlinear_arith);
    assert(v.z * 0 == 0) by (nonlinear_arith);
    assert(0int / (SCALE as int) == 0) by {
        vstd::arithmetic::div_mod::lemma_div_of0(SCALE as int);
    }
}

} // verus!
