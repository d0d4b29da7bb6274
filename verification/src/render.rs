//! The path integrator and the frame driver.
//!
//! `ray_color` estimates the light arriving along a ray by recursive
//! Monte-Carlo sampling of the materials, stopping at a depth budget;
//! `render` fires jittered camera rays for every pixel and gamma-corrects
//! the average into byte channels.

use crate::camera::{cam_wf, Camera};
use crate::fixed::{clamp_fx, fx_sqrt, lemma_color_attenuate, lemma_mul_fx_range, mul_fx, sqrt_fx,
    SCALE};
use crate::hittable::{Hit, HittableList};
use crate::material::color_wf;
use crate::ray::{Ray, Rayi};
use crate::rng::RandomSource;
use crate::sphere::{sphere_record, sphere_wf};
use crate::vec3::{unit3, within, Color, Vec3i, Vector3};
use vstd::prelude::*;

verus! {

/// Parameter below which an intersection counts as a self-intersection and
/// is ignored (shadow-acne guard, one thousandth of a unit).
pub const T_EPS: i64 = 65;

/// The far horizon of the tracer: intersections beyond this parameter count
/// as misses and yield the background.  The horizon is a documented limit of
/// the fixed-point model: it is the largest parameter for which sixty-four
/// bounces of drifting ray origins still fit the traceable world cube.
pub const T_FAR: i64 = 0x100_0000;

/// How far a traced origin may drift per remaining bounce.
pub open spec fn origin_budget(depth: int) -> int {
    0x4100_0000 + (64 - depth) * 0x8000_0004
}

/// The background gradient: white below, sky blue above, blended along the
/// vertical of the unit direction.
pub open spec fn background(r: Rayi) -> Vec3i {
    let s = SCALE as int;
    let t = (unit3(r.direction).y + s) / 2;
    let base = s - t;
    Vec3i {
        x: base + mul_fx(32768, t),
        y: base + mul_fx(45875, t),
        z: base + t,
    }
}

/// The estimated color arriving along `ray`.  An exhausted depth budget and
/// an absorbed ray yield black; a miss yields the background gradient; a hit
/// scatters and attenuates the recursive estimate.  Every channel of the
/// result lies between zero and one.
pub fn ray_color(ray: &Ray, world: &HittableList, depth: i8, src: &mut RandomSource) -> (c: Color)
    requires
        world.wf(),
        0 <= depth <= 64,
        within(ray@.direction, 0x80_0000int),
        within(ray@.origin, origin_budget(depth as int)),
    ensures
        color_wf(c@),
        depth == 0 ==> c@ == (Vec3i { x: 0, y: 0, z: 0 }),
        (ray@.direction.x == 0 && ray@.direction.y == 0 && ray@.direction.z == 0) ==> c@ == (
        Vec3i { x: 0, y: 0, z: 0 }),
        (depth > 0 && !(ray@.direction.x == 0 && ray@.direction.y == 0 && ray@.direction.z == 0)
            && world.hit_spec(*ray, T_EPS as int, T_FAR as int) is None) ==> c@ == background(
            ray@,
        ),
        (depth == 1 && world.hit_spec(*ray, T_EPS as int, T_FAR as int) is Some) ==> c@ == (
        Vec3i { x: 0, y: 0, z: 0 }),
    decreases depth,
{
    let ghost s = SCALE as int;
    if depth == 0 {
        return Vector3::new(0, 0, 0);
    }
    if ray.direction.x == 0 && ray.direction.y == 0 && ray.direction.z == 0 {
        // a degenerate direction has no meaningful color
        return Vector3::new(0, 0, 0);
    }
    proof {
        assert(origin_budget(depth as int) <= 0x4100_0000 + 64 * 0x8000_0004);
        crate::vec3::lemma_raw_dot_self_pos(ray@.direction);
    }
    if let Some(hit) = world.hit(ray, T_EPS, T_FAR) {
        proof {
            let j = choose|j: int|
                0 <= j < world.objects@.len() && #[trigger] crate::sphere::sphere_hit_t(
                    world.objects@[j]@,
                    ray@,
                    T_EPS as int,
                    T_FAR as int,
                ) == Some(hit@.t) && hit@ == sphere_record(world.objects@[j]@, ray@, hit@.t);
            assert(sphere_wf(world.objects@[j]@));
            assert(hit@.material == world.objects@[j]@.material);
            lemma_mul_fx_range(ray@.direction.x, hit@.t, 0x80_0000, 0x100_0000);
            lemma_mul_fx_range(ray@.direction.y, hit@.t, 0x80_0000, 0x100_0000);
            lemma_mul_fx_range(ray@.direction.z, hit@.t, 0x80_0000, 0x100_0000);
            assert(hit@.point == crate::ray::ray_at(ray@, hit@.t));
            assert(within(hit@.point, origin_budget(depth as int) + 0x8000_0001));
        }
        if let Some(info) = hit.material.scatter(ray, &hit, src) {
            let rec = ray_color(&info.scattered, world, depth - 1, src);
            proof {
                lemma_color_attenuate(info@.attenuation.x, rec@.x);
                lemma_color_attenuate(info@.attenuation.y, rec@.y);
                lemma_color_attenuate(info@.attenuation.z, rec@.z);
                if depth == 1 {
                    lemma_attenuate_black(info@.attenuation);
                }
            }
            info.attenuation.mul(rec)
        } else {
            Vector3::new(0, 0, 0)
        }
    } else {
        let unit_direction = unit_vector_of(ray);
        let t = (unit_direction.y + SCALE) / 2;
        let color_base = SCALE - t;
        proof {
            lemma_color_attenuate(32768, t as int);
            lemma_color_attenuate(45875, t as int);
        }
        Vector3::new(
            color_base + crate::fixed::fx_mul(32768, t),
            color_base + crate::fixed::fx_mul(45875, t),
            color_base + t,
        )
    }
}

/// Attenuating black gives black.
proof fn lemma_attenuate_black(a: Vec3i)
    ensures
        crate::vec3::vmul(a, Vec3i { x: 0, y: 0, z: 0 }) == (Vec3i { x: 0, y: 0, z: 0 }),
{
    assert(a.x * 0 == 0 && a.y * 0 == 0 && a.z * 0 == 0) by (nonlinear_arith);
    vstd::arithmetic::div_mod::lemma_div_of0(SCALE as int);
}

/// The normalized direction of a ray.
fn unit_vector_of(ray: &Ray) -> (r: Vector3)
    requires
        within(ray@.direction, 0x80_0000int),
        !(ray@.direction.x == 0 && ray@.direction.y == 0 && ray@.direction.z == 0),
    ensures
        r@ == unit3(ray@.direction),
        within(r@, SCALE as int),
{
    proof {
        crate::vec3::lemma_raw_dot_self_pos(ray@.direction);
    }
    crate::vec3::unit_vector(&ray.direction)
}

/// One gamma-corrected output channel: the accumulated intensity averaged
/// over the samples, square-rooted, clamped just under one and mapped to an
/// eight-bit value.
pub open spec fn finalize_channel(c: int, samples: int) -> int {
    clamp_fx(sqrt_fx(c / samples), 0, 65470) / 256
}

/// Averages an accumulated pixel color and gamma-corrects it into byte
/// channels; exact per `finalize_channel`.
pub fn finalize_color(color: &Color, samples: u64) -> (r: (u8, u8, u8))
    requires
        1 <= samples <= 0x10000,
        0 <= color@.x <= samples * (SCALE as int),
        0 <= color@.y <= samples * (SCALE as int),
        0 <= color@.z <= samples * (SCALE as int),
    ensures
        r.0 == finalize_channel(color@.x, samples as int),
        r.1 == finalize_channel(color@.y, samples as int),
        r.2 == finalize_channel(color@.z, samples as int),
{
    (
        finalize_one(color.x, samples),
        finalize_one(color.y, samples),
        finalize_one(color.z, samples),
    )
}

/// One channel of `finalize_color`.
fn finalize_one(c: i64, samples: u64) -> (r: u8)
    requires
        1 <= samples <= 0x10000,
        0 <= c <= samples * (SCALE as int),
    ensures
        r == finalize_channel(c as int, samples as int),
{
    let scaled = c / (samples as i64);
    proof {
        crate::fixed::lemma_div_mag(c as int, samples as int, 0x10000 * (SCALE as int));
        crate::fixed::lemma_div_ge_multiple(c as int, samples as int, 0);
        assert((c as int) / (samples as int) <= SCALE as int) by {
            vstd::arithmetic::div_mod::lemma_div_multiples_vanish(SCALE as int, samples as int);
            vstd::arithmetic::div_mod::lemma_div_is_ordered(
                c as int,
                (samples as int) * (SCALE as int),
                samples as int,
            );
            assert((samples as int) * (SCALE as int) == (samples as int) * (SCALE as int));
        }
    }
    let g = fx_sqrt(scaled);
    proof {
        crate::fixed::lemma_sqrt_floor_bounds(((scaled as int) * (SCALE as int)) as nat);
        assert((g as int) <= SCALE as int) by (nonlinear_arith)
            requires
                (g as int) * (g as int) <= (scaled as int) * (SCALE as int),
                0 <= g,
                0 <= scaled <= SCALE as int,
                SCALE as int == 65536,
        ;
    }
    let cl = crate::vec3::clamp(g, 0, 65470);
    (cl / 256) as u8
}

/// A depth budget of zero makes every channel of every sample black, so the
/// finalized channel is zero.
proof fn lemma_finalize_zero(samples: int)
    requires
        1 <= samples,
    ensures
        finalize_channel(0, samples) == 0,
{
    vstd::arithmetic::div_mod::lemma_div_of0(samples);
    assert(0int * (SCALE as int) == 0) by (nonlinear_arith);
    vstd::arithmetic::div_mod::lemma_div_of0(256);
}

/// A channel saturated on every sample averages back to intensity one, whose
/// gamma-corrected byte is 255.
proof fn lemma_finalize_full(samples: int)
    requires
        1 <= samples,
    ensures
        finalize_channel(samples * (SCALE as int), samples) == 255,
{
    let s = SCALE as int;
    vstd::arithmetic::div_mod::lemma_div_multiples_vanish(s, samples);
    assert(0 <= s * s && s * s < (s + 1) * (s + 1)) by (nonlinear_arith)
        requires
            s == 65536,
    ;
    crate::fixed::lemma_sqrt_floor_unique((s * s) as nat, s as nat);
    assert(sqrt_fx(s) == s);
    vstd::arithmetic::div_mod::lemma_fundamental_div_mod_converse(65470, 256, 255, 190);
}

/// Renders the scene: for every pixel, averages `samples_per_pixel` jittered
/// camera rays traced to `max_depth`, and emits gamma-corrected RGB bytes in
/// row-major order, top row first.  The generator is seeded explicitly so a
/// render can be reproduced.
///
/// Two slices of the behaviour are independent of every draw and are pinned
/// exactly: with no depth budget the whole image is black, and over an empty
/// scene every pixel shows the background gradient, whose blue channel is
/// exactly one, so every third byte is 255.
pub fn render(
    world: &HittableList,
    camera: &Camera,
    image_width: u64,
    image_height: u64,
    samples_per_pixel: u64,
    max_depth: i8,
    seed: u64,
) -> (img: Vec<u8>)
    requires
        world.wf(),
        cam_wf(camera@),
        2 <= image_width <= 4096,
        2 <= image_height <= 4096,
        1 <= samples_per_pixel <= 0x10000,
        0 <= max_depth <= 64,
    ensures
        img@.len() == 3 * image_width * image_height,
        max_depth == 0 ==> (forall|k: int| 0 <= k < img@.len() ==> img@[k] == 0),
        (world.objects@.len() == 0 && max_depth > 0) ==> (forall|k: int|
            0 <= k < img@.len() && k % 3 == 2 ==> img@[k] == 255),
{
    let mut img: Vec<u8> = Vec::new();
    let mut src = RandomSource::new(seed);
    let mut j: u64 = image_height;
    while j > 0
        invariant
            j <= image_height,
            img@.len() == 3 * image_width * (image_height - j),
            img@.len() % 3 == 0,
            max_depth == 0 ==> (forall|k: int| 0 <= k < img@.len() ==> img@[k] == 0),
            (world.objects@.len() == 0 && max_depth > 0) ==> (forall|k: int|
                0 <= k < img@.len() && k % 3 == 2 ==> img@[k] == 255),
            world.wf(),
            cam_wf(camera@),
            2 <= image_width <= 4096,
            2 <= image_height <= 4096,
            1 <= samples_per_pixel <= 0x10000,
            0 <= max_depth <= 64,
        decreases j,
    {
        j = j - 1;
        let mut i: u64 = 0;
        while i < image_width
            invariant
                i <= image_width,
                j < image_height,
                img@.len() == 3 * image_width * (image_height - 1 - j) + 3 * i,
                img@.len() % 3 == 0,
                max_depth == 0 ==> (forall|k: int| 0 <= k < img@.len() ==> img@[k] == 0),
                (world.objects@.len() == 0 && max_depth > 0) ==> (forall|k: int|
                    0 <= k < img@.len() && k % 3 == 2 ==> img@[k] == 255),
                world.wf(),
                cam_wf(camera@),
                2 <= image_width <= 4096,
                2 <= image_height <= 4096,
                1 <= samples_per_pixel <= 0x10000,
                0 <= max_depth <= 64,
            decreases image_width - i,
        {
            let mut pixel_color = Vector3::new(0, 0, 0);
            let mut sample: u64 = 0;
            while sample < samples_per_pixel
                invariant
                    sample <= samples_per_pixel,
                    0 <= pixel_color@.x <= sample * (SCALE as int),
                    0 <= pixel_color@.y <= sample * (SCALE as int),
                    0 <= pixel_color@.z <= sample * (SCALE as int),
                    max_depth == 0 ==> pixel_color@ == (Vec3i { x: 0, y: 0, z: 0 }),
                    (world.objects@.len() == 0 && max_depth > 0) ==> pixel_color@.z == sample * (
                    SCALE as int),
                    i < image_width,
                    j < image_height,
                    world.wf(),
                    cam_wf(camera@),
                    2 <= image_width <= 4096,
                    2 <= image_height <= 4096,
                    samples_per_pixel <= 0x10000,
                    0 <= max_depth <= 64,
                decreases samples_per_pixel - sample,
            {
                let u = plane_coord(i, image_width, &mut src);
                let v = plane_coord(j, image_height, &mut src);
                let ray = camera.get_ray(u, v, &mut src);
                proof {
                    if world.objects@.len() == 0 {
                        assert(world.hit_spec(ray, T_EPS as int, T_FAR as int) is None);
                    }
                }
                let color = ray_color(&ray, world, max_depth, &mut src);
                proof {
                    if world.objects@.len() == 0 && max_depth > 0 {
                        assert(color@.z == SCALE as int);
                    }
                }
                pixel_color.add_assign(color);
                sample = sample + 1;
            }
            proof {
                if max_depth == 0 {
                    lemma_finalize_zero(samples_per_pixel as int);
                }
                if world.objects@.len() == 0 && max_depth > 0 {
                    lemma_finalize_full(samples_per_pixel as int);
                }
            }
            let (r, g, b) = finalize_color(&pixel_color, samples_per_pixel);
            let ghost n0 = img@.len() as int;
            img.push(r);
            img.push(g);
            img.push(b);
            proof {
                if max_depth == 0 {
                    assert forall|k: int| 0 <= k < img@.len() implies img@[k] == 0 by {
                        if k >= n0 {
                            assert(k == n0 || k == n0 + 1 || k == n0 + 2);
                        }
                    }
                }
                if world.objects@.len() == 0 && max_depth > 0 {
                    assert forall|k: int|
                        0 <= k < img@.len() && k % 3 == 2 implies img@[k] == 255 by {
                        if k >= n0 {
                            assert(k == n0 + 2);
                        }
                    }
                }
            }
            i = i + 1;
        }
        proof {
            assert(3 * image_width * (image_height - 1 - j) + 3 * image_width == 3 * image_width
                * (image_height - j)) by (nonlinear_arith);
        }
    }
    proof {
        assert(img@.len() == 3 * image_width * image_height);
    }
    img
}

/// The jittered normalized plane coordinate of pixel index `i` out of `n`:
/// `(i + x) / (n - 1)` for a uniform draw `x` in `[0, 1)`.
fn plane_coord(i: u64, n: u64, src: &mut RandomSource) -> (r: i64)
    requires
        2 <= n <= 4096,
        i < n,
    ensures
        0 <= r <= 2 * (SCALE as int),
        exists|x: int|
            0 <= x < SCALE as int && r == #[trigger] (((i as int) * (SCALE as int) + x) / ((
            n as int) - 1)),
{
    let xi = src.next_in(0, SCALE);
    let num: i64 = (i as i64) * SCALE + xi;
    let r = num / ((n - 1) as i64);
    proof {
        crate::fixed::lemma_div_ge_multiple(num as int, (n - 1) as int, 0);
        assert(num as int <= ((n - 1) as int) * (2 * (SCALE as int))) by (nonlinear_arith)
            requires
                num as int <= (i as int) * (SCALE as int) + (SCALE as int),
                i as int <= (n as int) - 1,
                2 <= n as int,
                SCALE as int == 65536,
        ;
        assert((num as int) / ((n - 1) as int) <= 2 * (SCALE as int)) by {
            vstd::arithmetic::div_mod::lemma_div_multiples_vanish(
                2 * (SCALE as int),
                (n - 1) as int,
            );
            vstd::arithmetic::div_mod::lemma_div_is_ordered(
                num as int,
                ((n - 1) as int) * (2 * (SCALE as int)),
                (n - 1) as int,
            );
        }
        assert(0 <= (xi as int) < (SCALE as int) && (r as int) == ((i as int) * (SCALE as int)
            + xi as int) / ((n as int) - 1));
    }
    r
}

} // verus!
