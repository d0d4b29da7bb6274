//! Three-component vectors over fixed-point scalars.
//!
//! `Vector3` carries positions (`Point3`), directions and RGB intensities
//! (`Color`).  Its mathematical view is `Vec3i`, a triple of unbounded
//! integers in scaled units; every operation's contract is stated over that
//! view with the exact rounding of the `fixed` module.

use crate::fixed::{
    div_fx, div_floor_i128, fx_mul, isqrt_u128, lemma_sqrt_floor_unique, mul_fx, sqrt_floor,
    clamp_fx, SCALE,
};
use crate::rng::RandomSource;
use vstd::prelude::*;

verus! {

#[derive(Debug, Clone, Copy, PartialEq, Eq, Structural)]
pub struct Vector3 {
    pub x: i64,
    pub y: i64,
    pub z: i64,
}

/// Color is an RGB intensity, Point3 a position; all share the representation.
pub type Color = Vector3;

pub type Point3 = Vector3;

/// Mathematical value of a `Vector3`: unbounded integers in scaled units.
pub struct Vec3i {
    pub x: int,
    pub y: int,
    pub z: int,
}

impl View for Vector3 {
    type V = Vec3i;

    open spec fn view(&self) -> Vec3i {
        Vec3i { x: self.x as int, y: self.y as int, z: self.z as int }
    }
}

/// Every component of `v` lies in `[-b, b]`.
pub open spec fn within(v: Vec3i, b: int) -> bool {
    &&& -b <= v.x <= b
    &&& -b <= v.y <= b
    &&& -b <= v.z <= b
}

pub open spec fn vadd(a: Vec3i, b: Vec3i) -> Vec3i {
    Vec3i { x: a.x + b.x, y: a.y + b.y, z: a.z + b.z }
}

pub open spec fn vsub(a: Vec3i, b: Vec3i) -> Vec3i {
    Vec3i { x: a.x - b.x, y: a.y - b.y, z: a.z - b.z }
}

/// Component-wise scaled product (attenuation of a color by a color).
pub open spec fn vmul(a: Vec3i, b: Vec3i) -> Vec3i {
    Vec3i { x: mul_fx(a.x, b.x), y: mul_fx(a.y, b.y), z: mul_fx(a.z, b.z) }
}

/// Product with a scalar.
pub open spec fn vscale(a: Vec3i, t: int) -> Vec3i {
    Vec3i { x: mul_fx(a.x, t), y: mul_fx(a.y, t), z: mul_fx(a.z, t) }
}

/// Quotient by a positive scalar.
pub open spec fn vdiv(a: Vec3i, t: int) -> Vec3i {
    Vec3i { x: div_fx(a.x, t), y: div_fx(a.y, t), z: div_fx(a.z, t) }
}

/// Unscaled sum of component products; `SCALE * SCALE` times the real dot.
pub open spec fn raw_dot(a: Vec3i, b: Vec3i) -> int {
    a.x * b.x + a.y * b.y + a.z * b.z
}

/// Scaled dot product: the raw sum divided once by `SCALE`.
pub open spec fn dot3(a: Vec3i, b: Vec3i) -> int {
    raw_dot(a, b) / (SCALE as int)
}

/// Scaled cross product, each component rounded once.
pub open spec fn cross3(a: Vec3i, b: Vec3i) -> Vec3i {
    Vec3i {
        x: (a.y * b.z - a.z * b.y) / (SCALE as int),
        y: (a.z * b.x - a.x * b.z) / (SCALE as int),
        z: (a.x * b.y - a.y * b.x) / (SCALE as int),
    }
}

/// Scaled length: the square root of the raw self-dot is already scaled.
pub open spec fn len_fx(v: Vec3i) -> int {
    sqrt_floor(raw_dot(v, v) as nat) as int
}

/// The unit vector of `v`: each component divided by the length.
pub open spec fn unit3(v: Vec3i) -> Vec3i {
    Vec3i {
        x: v.x * (SCALE as int) / len_fx(v),
        y: v.y * (SCALE as int) / len_fx(v),
        z: v.z * (SCALE as int) / len_fx(v),
    }
}

/// A non-zero integer vector has a raw self-dot of at least one.
pub proof fn lemma_raw_dot_self_pos(v: Vec3i)
    requires
        !(v.x == 0 && v.y == 0 && v.z == 0),
    ensures
        raw_dot(v, v) >= 1,
{
    assert(v.x * v.x + v.y * v.y + v.z * v.z >= 1) by (nonlinear_arith)
        requires
            v.x != 0 || v.y != 0 || v.z != 0,
    ;
}

/// The raw self-dot is a sum of squares.
pub proof fn lemma_raw_dot_self_nonneg(v: Vec3i)
    ensures
        raw_dot(v, v) >= 0,
        v.x * v.x <= raw_dot(v, v),
        v.y * v.y <= raw_dot(v, v),
        v.z * v.z <= raw_dot(v, v),
{
    assert(v.x * v.x >= 0 && v.y * v.y >= 0 && v.z * v.z >= 0) by (nonlinear_arith);
}

impl Default for Vector3 {
    /// The zero vector.
    fn default() -> (r: Vector3)
        ensures
            r@ == (Vec3i { x: 0, y: 0, z: 0 }),
    {
        Vector3 { x: 0, y: 0, z: 0 }
    }
}

impl Vector3 {
    pub fn new(x: i64, y: i64, z: i64) -> (r: Self)
        ensures
            r@ == (Vec3i { x: x as int, y: y as int, z: z as int }),
    {
        Self { x, y, z }
    }

    pub fn add(self, other: Vector3) -> (r: Vector3)
        requires
            i64::MIN <= self@.x + other@.x <= i64::MAX,
            i64::MIN <= self@.y + other@.y <= i64::MAX,
            i64::MIN <= self@.z + other@.z <= i64::MAX,
        ensures
            r@ == vadd(self@, other@),
    {
        Vector3 { x: self.x + other.x, y: self.y + other.y, z: self.z + other.z }
    }

    pub fn add_assign(&mut self, other: Vector3)
        requires
            i64::MIN <= old(self)@.x + other@.x <= i64::MAX,
            i64::MIN <= old(self)@.y + other@.y <= i64::MAX,
            i64::MIN <= old(self)@.z + other@.z <= i64::MAX,
        ensures
            final(self)@ == vadd(old(self)@, other@),
    {
        *self = Vector3 { x: self.x + other.x, y: self.y + other.y, z: self.z + other.z };
    }

    pub fn sub(self, other: Vector3) -> (r: Vector3)
        requires
            i64::MIN <= self@.x - other@.x <= i64::MAX,
            i64::MIN <= self@.y - other@.y <= i64::MAX,
            i64::MIN <= self@.z - other@.z <= i64::MAX,
        ensures
            r@ == vsub(self@, other@),
    {
        Vector3 { x: self.x - other.x, y: self.y - other.y, z: self.z - other.z }
    }

    /// Component-wise product, as colors attenuate colors.
    pub fn mul(self, other: Vector3) -> (r: Vector3)
        requires
            i64::MIN <= mul_fx(self@.x, other@.x) <= i64::MAX,
            i64::MIN <= mul_fx(self@.y, other@.y) <= i64::MAX,
            i64::MIN <= mul_fx(self@.z, other@.z) <= i64::MAX,
        ensures
            r@ == vmul(self@, other@),
    {
        Vector3 {
            x: fx_mul(self.x, other.x),
            y: fx_mul(self.y, other.y),
            z: fx_mul(self.z, other.z),
        }
    }

    /// Product with a scalar.
    pub fn scale(self, t: i64) -> (r: Vector3)
        requires
            i64::MIN <= mul_fx(self@.x, t as int) <= i64::MAX,
            i64::MIN <= mul_fx(self@.y, t as int) <= i64::MAX,
            i64::MIN <= mul_fx(self@.z, t as int) <= i64::MAX,
        ensures
            r@ == vscale(self@, t as int),
    {
        Vector3 { x: fx_mul(self.x, t), y: fx_mul(self.y, t), z: fx_mul(self.z, t) }
    }

    /// Quotient by a positive scalar.
    pub fn div(self, t: i64) -> (r: Vector3)
        requires
            0 < t,
            i64::MIN <= div_fx(self@.x, t as int) <= i64::MAX,
            i64::MIN <= div_fx(self@.y, t as int) <= i64::MAX,
            i64::MIN <= div_fx(self@.z, t as int) <= i64::MAX,
        ensures
            r@ == vdiv(self@, t as int),
    {
        Vector3 {
            x: crate::fixed::fx_div(self.x, t),
            y: crate::fixed::fx_div(self.y, t),
            z: crate::fixed::fx_div(self.z, t),
        }
    }

    pub fn length_squared(&self) -> (r: i64)
        requires
            within(self@, 0x40_0000_0000int),
        ensures
            r == dot3(self@, self@),
    {
        dot_product(self, self)
    }

    pub fn length(&self) -> (r: i64)
        requires
            within(self@, 0x1000_0000_0000_0000int),
        ensures
            r == len_fx(self@),
            0 <= r,
    {
        let x = self.x as i128;
        let y = self.y as i128;
        let z = self.z as i128;
        proof {
            crate::fixed::lemma_mul_range(x as int, x as int, 0x1000_0000_0000_0000int, 0x1000_0000_0000_0000int);
            crate::fixed::lemma_mul_range(y as int, y as int, 0x1000_0000_0000_0000int, 0x1000_0000_0000_0000int);
            crate::fixed::lemma_mul_range(z as int, z as int, 0x1000_0000_0000_0000int, 0x1000_0000_0000_0000int);
            lemma_raw_dot_self_nonneg(self@);
        }
        let raw: i128 = x * x + y * y + z * z;
        let s = isqrt_u128(raw as u128);
        proof {
            lemma_sqrt_floor_unique((raw as u128) as nat, s as nat);
            assert((s as int) < 0x2000_0000_0000_0000) by (nonlinear_arith)
                requires
                    (s as int) * (s as int) <= raw as int,
                    (raw as int) <= 3 * ((0x1000_0000_0000_0000int) * (0x1000_0000_0000_0000int)),
            ;
        }
        s as i64
    }
}

/// Scaled dot product of two vectors; exact per `dot3`.
pub fn dot_product(u: &Vector3, v: &Vector3) -> (r: i64)
    requires
        within(u@, 0x40_0000_0000int),
        within(v@, 0x40_0000_0000int),
    ensures
        r == dot3(u@, v@),
{
    proof {
        crate::fixed::lemma_mul_range(u@.x, v@.x, 0x40_0000_0000int, 0x40_0000_0000int);
        crate::fixed::lemma_mul_range(u@.y, v@.y, 0x40_0000_0000int, 0x40_0000_0000int);
        crate::fixed::lemma_mul_range(u@.z, v@.z, 0x40_0000_0000int, 0x40_0000_0000int);
    }
    let raw: i128 = (u.x as i128) * (v.x as i128) + (u.y as i128) * (v.y as i128) + (u.z as i128)
        * (v.z as i128);
    proof {
        crate::fixed::lemma_div_mag(raw as int, SCALE as int, 3 * ((0x40_0000_0000int) * (0x40_0000_0000int)));
    }
    let q = div_floor_i128(raw, SCALE as i128);
    q as i64
}

/// Scaled cross product; exact per `cross3`.
pub fn cross(u: &Vector3, v: &Vector3) -> (r: Vector3)
    requires
        within(u@, 0x40_0000_0000int),
        within(v@, 0x40_0000_0000int),
    ensures
        r@ == cross3(u@, v@),
{
    proof {
        crate::fixed::lemma_mul_range(u@.y, v@.z, 0x40_0000_0000int, 0x40_0000_0000int);
        crate::fixed::lemma_mul_range(u@.z, v@.y, 0x40_0000_0000int, 0x40_0000_0000int);
        crate::fixed::lemma_mul_range(u@.z, v@.x, 0x40_0000_0000int, 0x40_0000_0000int);
        crate::fixed::lemma_mul_range(u@.x, v@.z, 0x40_0000_0000int, 0x40_0000_0000int);
        crate::fixed::lemma_mul_range(u@.x, v@.y, 0x40_0000_0000int, 0x40_0000_0000int);
        crate::fixed::lemma_mul_range(u@.y, v@.x, 0x40_0000_0000int, 0x40_0000_0000int);
        crate::fixed::lemma_div_mag(
            u@.y * v@.z - u@.z * v@.y,
            SCALE as int,
            2 * ((0x40_0000_0000int) * (0x40_0000_0000int)),
        );
        crate::fixed::lemma_div_mag(
            u@.z * v@.x - u@.x * v@.z,
            SCALE as int,
            2 * ((0x40_0000_0000int) * (0x40_0000_0000int)),
        );
        crate::fixed::lemma_div_mag(
            u@.x * v@.y - u@.y * v@.x,
            SCALE as int,
            2 * ((0x40_0000_0000int) * (0x40_0000_0000int)),
        );
    }
    let cx = div_floor_i128(
        (u.y as i128) * (v.z as i128) - (u.z as i128) * (v.y as i128),
        SCALE as i128,
    );
    let cy = div_floor_i128(
        (u.z as i128) * (v.x as i128) - (u.x as i128) * (v.z as i128),
        SCALE as i128,
    );
    let cz = div_floor_i128(
        (u.x as i128) * (v.y as i128) - (u.y as i128) * (v.x as i128),
        SCALE as i128,
    );
    Vector3 { x: cx as i64, y: cy as i64, z: cz as i64 }
}

/// Normalizes a non-zero vector; exact per `unit3`, with components in
/// `[-SCALE, SCALE]`.
pub fn unit_vector(vector: &Vector3) -> (r: Vector3)
    requires
        within(vector@, 0x40_0000_0000int),
        raw_dot(vector@, vector@) >= 1,
    ensures
        r@ == unit3(vector@),
        within(r@, SCALE as int),
{
    let x = vector.x as i128;
    let y = vector.y as i128;
    let z = vector.z as i128;
    proof {
        crate::fixed::lemma_mul_range(x as int, x as int, 0x40_0000_0000int, 0x40_0000_0000int);
        crate::fixed::lemma_mul_range(y as int, y as int, 0x40_0000_0000int, 0x40_0000_0000int);
        crate::fixed::lemma_mul_range(z as int, z as int, 0x40_0000_0000int, 0x40_0000_0000int);
        lemma_raw_dot_self_nonneg(vector@);
    }
    let raw: i128 = x * x + y * y + z * z;
    let l = isqrt_u128(raw as u128);
    proof {
        lemma_sqrt_floor_unique((raw as u128) as nat, l as nat);
        assert(l >= 1) by (nonlinear_arith)
            requires
                (raw as int) < (l as int + 1) * (l as int + 1),
                raw as int >= 1,
                l as int >= 0,
        ;
    }
    let li = l as i128;
    let ux = div_floor_i128(x * (SCALE as i128), li);
    let uy = div_floor_i128(y * (SCALE as i128), li);
    let uz = div_floor_i128(z * (SCALE as i128), li);
    proof {
        lemma_unit_component_range(vector@.x, raw as int, l as int);
        lemma_unit_component_range(vector@.y, raw as int, l as int);
        lemma_unit_component_range(vector@.z, raw as int, l as int);
    }
    Vector3 { x: ux as i64, y: uy as i64, z: uz as i64 }
}

/// A component of a vector divided by the vector's length is at most one unit.
proof fn lemma_unit_component_range(c: int, raw: int, l: int)
    requires
        1 <= l,
        c * c <= raw,
        raw < (l + 1) * (l + 1),
    ensures
        -(SCALE as int) <= c * (SCALE as int) / l <= SCALE as int,
{
    assert(-l <= c <= l) by (nonlinear_arith)
        requires
            c * c <= raw,
            raw < (l + 1) * (l + 1),
            1 <= l,
    ;
    assert(-(l * (SCALE as int)) <= c * (SCALE as int) <= l * (SCALE as int)) by (nonlinear_arith)
        requires
            -l <= c <= l,
            1 <= l,
    ;
    assert(l * (SCALE as int) / l == SCALE as int) by {
        vstd::arithmetic::div_mod::lemma_div_multiples_vanish(SCALE as int, l);
    }
    assert(-(l * (SCALE as int)) / l == -(SCALE as int)) by {
        vstd::arithmetic::div_mod::lemma_div_multiples_vanish(-(SCALE as int), l);
        assert(l * -(SCALE as int) == -(l * (SCALE as int))) by (nonlinear_arith);
    }
    vstd::arithmetic::div_mod::lemma_div_is_ordered(
        -(l * (SCALE as int)),
        c * (SCALE as int),
        l,
    );
    vstd::arithmetic::div_mod::lemma_div_is_ordered(c * (SCALE as int), l * (SCALE as int), l);
}

/// Forces `x` into `[min, max]`; exact per `clamp_fx`.
pub fn clamp(x: i64, min: i64, max: i64) -> (r: i64)
    ensures
        r == clamp_fx(x as int, min as int, max as int),
{
    if x < min {
        min
    } else if x > max {
        max
    } else {
        x
    }
}

impl Vector3 {
    /// A vector whose components are uniform draws from `[min, max)`.
    pub fn random(min: i64, max: i64, src: &mut RandomSource) -> (r: Vector3)
        requires
            min < max,
        ensures
            within_box(r@, min as int, max as int),
    {
        Vector3 { x: src.next_in(min, max), y: src.next_in(min, max), z: src.next_in(min, max) }
    }

    /// A vector of length one up to rounding, drawn by normalizing a rejected
    /// ball sample; falls back to the `z` axis if every draw is degenerate.
    pub fn new_random_unit(src: &mut RandomSource) -> (r: Vector3)
        ensures
            within(r@, SCALE as int),
            unit_sq_lo() <= raw_dot(r@, r@) <= unit_sq_hi(),
    {
        let mut tries: u8 = 0;
        while tries < 32
            invariant
                tries <= 32,
            decreases 32 - tries,
        {
            let v = Vector3::random(-SCALE, SCALE, src);
            proof {
                crate::fixed::lemma_mul_range(v@.x, v@.x, SCALE as int, SCALE as int);
                crate::fixed::lemma_mul_range(v@.y, v@.y, SCALE as int, SCALE as int);
                crate::fixed::lemma_mul_range(v@.z, v@.z, SCALE as int, SCALE as int);
            }
            let raw: i64 = v.x * v.x + v.y * v.y + v.z * v.z;
            // accept only draws well inside the ball and away from zero
            if 0x1000_0000 <= raw && raw < SCALE * SCALE {
                proof {
                    lemma_unit_vector_length(v@);
                }
                return unit_vector(&v);
            }
            tries = tries + 1;
        }
        Vector3 { x: 0, y: 0, z: SCALE }
    }
}

/// A uniform draw from the ball of radius one; rejection sampled, with the
/// zero vector as the fallback after too many rejections.
pub fn random_in_unit_sphere(src: &mut RandomSource) -> (r: Vector3)
    ensures
        within(r@, SCALE as int),
        raw_dot(r@, r@) < (SCALE as int) * (SCALE as int),
{
    let mut tries: u8 = 0;
    while tries < 32
        invariant
            tries <= 32,
        decreases 32 - tries,
    {
        let v = Vector3::random(-SCALE, SCALE, src);
        proof {
            crate::fixed::lemma_mul_range(v@.x, v@.x, SCALE as int, SCALE as int);
            crate::fixed::lemma_mul_range(v@.y, v@.y, SCALE as int, SCALE as int);
            crate::fixed::lemma_mul_range(v@.z, v@.z, SCALE as int, SCALE as int);
        }
        let raw: i64 = v.x * v.x + v.y * v.y + v.z * v.z;
        if raw < SCALE * SCALE {
            proof {
                assert(0 < (SCALE as int) * (SCALE as int)) by (nonlinear_arith);
            }
            return v;
        }
        tries = tries + 1;
    }
    proof {
        assert(0 < (SCALE as int) * (SCALE as int)) by (nonlinear_arith);
    }
    Vector3 { x: 0, y: 0, z: 0 }
}

/// A uniform draw from the disk of radius one in the `xy` plane; used for
/// lens sampling.  Rejection sampled, zero on fallback.
pub fn random_in_unit_disk(src: &mut RandomSource) -> (r: Vector3)
    ensures
        within(r@, SCALE as int),
        r@.z == 0,
        r@.x * r@.x + r@.y * r@.y < (SCALE as int) * (SCALE as int),
{
    let mut tries: u8 = 0;
    while tries < 32
        invariant
            tries <= 32,
        decreases 32 - tries,
    {
        let x = src.next_in(-SCALE, SCALE);
        let y = src.next_in(-SCALE, SCALE);
        proof {
            crate::fixed::lemma_mul_range(x as int, x as int, SCALE as int, SCALE as int);
            crate::fixed::lemma_mul_range(y as int, y as int, SCALE as int, SCALE as int);
        }
        let raw: i64 = x * x + y * y;
        if raw < SCALE * SCALE {
            return Vector3 { x, y, z: 0 };
        }
        tries = tries + 1;
    }
    proof {
        assert(0 < (SCALE as int) * (SCALE as int)) by (nonlinear_arith);
    }
    Vector3 { x: 0, y: 0, z: 0 }
}

/// Every component of `v` lies in `[lo, hi)`.
pub open spec fn within_box(v: Vec3i, lo: int, hi: int) -> bool {
    &&& lo <= v.x < hi
    &&& lo <= v.y < hi
    &&& lo <= v.z < hi
}

/// Lower bound on the raw self-dot of a normalized vector.
pub open spec fn unit_sq_lo() -> int {
    (SCALE as int) * (SCALE as int) - 6 * (SCALE as int)
}

/// Upper bound on the raw self-dot of a normalized vector.
pub open spec fn unit_sq_hi() -> int {
    (SCALE as int) * (SCALE as int) + 18 * (SCALE as int) + 3
}

/// Normalizing keeps the length within a few rounding units of one: the raw
/// self-dot of `unit3(v)` lies between `unit_sq_lo()` and `unit_sq_hi()` for
/// any `v` of length at least a quarter unit.
pub proof fn lemma_unit_vector_length(v: Vec3i)
    requires
        within(v, 0x40_0000_0000int),
        raw_dot(v, v) >= 0x1000_0000,
    ensures
        unit_sq_lo() <= raw_dot(unit3(v), unit3(v)) <= unit_sq_hi(),
        within(unit3(v), SCALE as int),
{
    let s = SCALE as int;
    let n = raw_dot(v, v);
    lemma_raw_dot_self_nonneg(v);
    crate::fixed::lemma_sqrt_floor_bounds(n as nat);
    let l = len_fx(v);
    assert(l * l <= n < (l + 1) * (l + 1));
    assert(l >= s / 4) by (nonlinear_arith)
        requires
            n < (l + 1) * (l + 1),
            n >= 0x1000_0000,
            l >= 0,
            s == 65536,
    ;
    lemma_unit_len_component(v.x, n, l);
    lemma_unit_len_component(v.y, n, l);
    lemma_unit_len_component(v.z, n, l);
    let ux = v.x * s / l;
    let uy = v.y * s / l;
    let uz = v.z * s / l;
    let rx = (v.x * s) % l;
    let ry = (v.y * s) % l;
    let rz = (v.z * s) % l;
    let q = raw_dot(unit3(v), unit3(v));
    assert(q == ux * ux + uy * uy + uz * uz);
    lemma_square_decomp(v.x, l, ux, rx);
    lemma_square_decomp(v.y, l, uy, ry);
    lemma_square_decomp(v.z, l, uz, rz);
    assert(l * l * q == l * l * (ux * ux) + l * l * (uy * uy) + l * l * (uz * uz))
        by (nonlinear_arith)
        requires
            q == ux * ux + uy * uy + uz * uz,
    ;
    assert(s * s * n == (v.x * v.x) * (s * s) + (v.y * v.y) * (s * s) + (v.z * v.z) * (s * s))
        by (nonlinear_arith)
        requires
            n == v.x * v.x + v.y * v.y + v.z * v.z,
            s == 65536,
    ;
    assert(2 * s * (v.x * rx + v.y * ry + v.z * rz) == 2 * s * (v.x * rx) + 2 * s * (v.y * ry) + 2
        * s * (v.z * rz)) by (nonlinear_arith);
    assert(l * l * q == s * s * n - 2 * s * (v.x * rx + v.y * ry + v.z * rz) + (rx * rx + ry * ry
        + rz * rz));
    assert(-(l * l) <= v.x * rx <= l * l) by (nonlinear_arith)
        requires
            -l <= v.x <= l,
            0 <= rx < l,
            1 <= l,
    ;
    assert(-(l * l) <= v.y * ry <= l * l) by (nonlinear_arith)
        requires
            -l <= v.y <= l,
            0 <= ry < l,
            1 <= l,
    ;
    assert(-(l * l) <= v.z * rz <= l * l) by (nonlinear_arith)
        requires
            -l <= v.z <= l,
            0 <= rz < l,
            1 <= l,
    ;
    assert(0 <= rx * rx + ry * ry + rz * rz <= 3 * (l * l)) by (nonlinear_arith)
        requires
            0 <= rx < l,
            0 <= ry < l,
            0 <= rz < l,
    ;
    // lower bound: s^2 n >= s^2 l^2 and the cross term costs at most 6 s l^2
    assert(l * l * q >= (s * s - 6 * s) * (l * l)) by (nonlinear_arith)
        requires
            l * l * q == s * s * n - 2 * s * (v.x * rx + v.y * ry + v.z * rz) + (rx * rx + ry * ry
                + rz * rz),
            n >= l * l,
            -(3 * (l * l)) <= v.x * rx + v.y * ry + v.z * rz <= 3 * (l * l),
            0 <= rx * rx + ry * ry + rz * rz,
            s == 65536,
            1 <= l,
    ;
    assert(q >= s * s - 6 * s) by (nonlinear_arith)
        requires
            l * l * q >= (s * s - 6 * s) * (l * l),
            1 <= l,
    ;
    // upper bound: n <= l^2 + 2l, and l >= s/4 absorbs the error terms
    assert(l * l * q <= (s * s + 18 * s + 3) * (l * l)) by (nonlinear_arith)
        requires
            l * l * q == s * s * n - 2 * s * (v.x * rx + v.y * ry + v.z * rz) + (rx * rx + ry * ry
                + rz * rz),
            n < (l + 1) * (l + 1),
            -(3 * (l * l)) <= v.x * rx + v.y * ry + v.z * rz <= 3 * (l * l),
            rx * rx + ry * ry + rz * rz <= 3 * (l * l),
            s == 65536,
            l >= s / 4,
    ;
    assert(q <= s * s + 18 * s + 3) by (nonlinear_arith)
        requires
            l * l * q <= (s * s + 18 * s + 3) * (l * l),
            1 <= l,
    ;
    lemma_unit_component_range(v.x, n, l);
    lemma_unit_component_range(v.y, n, l);
    lemma_unit_component_range(v.z, n, l);
}

/// One component of the normalization, squared: with `c * SCALE == l * u + r`,
/// the square of `l * u` expands over the decomposition.
proof fn lemma_square_decomp(c: int, l: int, u: int, r: int)
    by (nonlinear_arith)
    requires
        c * (SCALE as int) == l * u + r,
    ensures
        l * l * (u * u) == (c * c) * ((SCALE as int) * (SCALE as int)) - 2 * (SCALE as int) * (c
            * r) + r * r,
{
}

/// Division and remainder facts for one component of `unit3`.
proof fn lemma_unit_len_component(c: int, n: int, l: int)
    requires
        1 <= l,
        c * c <= n,
        n < (l + 1) * (l + 1),
    ensures
        c * (SCALE as int) == l * (c * (SCALE as int) / l) + (c * (SCALE as int)) % l,
        0 <= (c * (SCALE as int)) % l < l,
        -l <= c <= l,
{
    vstd::arithmetic::div_mod::lemma_fundamental_div_mod(c * (SCALE as int), l);
    vstd::arithmetic::div_mod::lemma_mod_bound(c * (SCALE as int), l);
    assert(-l <= c <= l) by (nonlinear_arith)
        requires
            c * c <= n,
            n < (l + 1) * (l + 1),
            1 <= l,
    ;
}

/// Normalizing keeps approximate orthogonality: if the raw dot of `v` with a
/// unit-bounded `w` is small and `v` is at least a quarter unit long, the raw
/// dot of `unit3(v)` with `w` is at most four times as large, plus three
/// scaled units of rounding.
pub proof fn lemma_unit_orthogonal(v: Vec3i, w: Vec3i, m: int)
    requires
        raw_dot(v, v) >= 0x1000_0000,
        within(w, SCALE as int),
        -m <= raw_dot(v, w) <= m,
        0 <= m,
    ensures
        -(4 * m + 3 * (SCALE as int)) <= raw_dot(unit3(v), w) <= 4 * m + 3 * (SCALE as int),
{
    let s = SCALE as int;
    let n = raw_dot(v, v);
    lemma_raw_dot_self_nonneg(v);
    crate::fixed::lemma_sqrt_floor_bounds(n as nat);
    let l = len_fx(v);
    assert(l >= 16384) by (nonlinear_arith)
        requires
            n < (l + 1) * (l + 1),
            n >= 0x1000_0000,
            l >= 0,
    ;
    vstd::arithmetic::div_mod::lemma_fundamental_div_mod(v.x * s, l);
    vstd::arithmetic::div_mod::lemma_fundamental_div_mod(v.y * s, l);
    vstd::arithmetic::div_mod::lemma_fundamental_div_mod(v.z * s, l);
    vstd::arithmetic::div_mod::lemma_mod_bound(v.x * s, l);
    vstd::arithmetic::div_mod::lemma_mod_bound(v.y * s, l);
    vstd::arithmetic::div_mod::lemma_mod_bound(v.z * s, l);
    let ux = v.x * s / l;
    let uy = v.y * s / l;
    let uz = v.z * s / l;
    let rx = (v.x * s) % l;
    let ry = (v.y * s) % l;
    let rz = (v.z * s) % l;
    assert(l * (ux * w.x) == s * (v.x * w.x) - rx * w.x) by (nonlinear_arith)
        requires
            v.x * s == l * ux + rx,
    ;
    assert(l * (uy * w.y) == s * (v.y * w.y) - ry * w.y) by (nonlinear_arith)
        requires
            v.y * s == l * uy + ry,
    ;
    assert(l * (uz * w.z) == s * (v.z * w.z) - rz * w.z) by (nonlinear_arith)
        requires
            v.z * s == l * uz + rz,
    ;
    let q = raw_dot(unit3(v), w);
    assert(l * q == l * (ux * w.x) + l * (uy * w.y) + l * (uz * w.z)) by (nonlinear_arith)
        requires
            q == ux * w.x + uy * w.y + uz * w.z,
    ;
    assert(s * (v.x * w.x) + s * (v.y * w.y) + s * (v.z * w.z) == s * raw_dot(v, w))
        by (nonlinear_arith);
    assert(-(l * s) <= rx * w.x <= l * s && -(l * s) <= ry * w.y <= l * s && -(l * s) <= rz * w.z
        <= l * s) by (nonlinear_arith)
        requires
            0 <= rx < l,
            0 <= ry < l,
            0 <= rz < l,
            -s <= w.x <= s,
            -s <= w.y <= s,
            -s <= w.z <= s,
    ;
    assert(-(s * m) <= s * raw_dot(v, w) <= s * m) by (nonlinear_arith)
        requires
            -m <= raw_dot(v, w) <= m,
            s == 65536,
    ;
    assert(-(4 * m + 3 * s) <= q <= 4 * m + 3 * s) by (nonlinear_arith)
        requires
            l * q == s * raw_dot(v, w) - (rx * w.x + ry * w.y + rz * w.z),
            -(s * m) <= s * raw_dot(v, w) <= s * m,
            -(3 * (l * s)) <= rx * w.x + ry * w.y + rz * w.z <= 3 * (l * s),
            l >= 16384,
            0 <= m,
            s == 65536,
    ;
}

/// Swapping the factors of the cross product negates it up to one rounding
/// unit per component: each component of `cross3(v, u)` is the negation of
/// the matching component of `cross3(u, v)`, or one unit below it (the floor
/// of a negated quantity).
pub proof fn lemma_cross_antisymmetric(u: Vec3i, v: Vec3i)
    ensures
        -cross3(u, v).x - 1 <= cross3(v, u).x <= -cross3(u, v).x,
        -cross3(u, v).y - 1 <= cross3(v, u).y <= -cross3(u, v).y,
        -cross3(u, v).z - 1 <= cross3(v, u).z <= -cross3(u, v).z,
{
    assert(v.y * u.z - v.z * u.y == -(u.y * v.z - u.z * v.y)) by (nonlinear_arith);
    assert(v.z * u.x - v.x * u.z == -(u.z * v.x - u.x * v.z)) by (nonlinear_arith);
    assert(v.x * u.y - v.y * u.x == -(u.x * v.y - u.y * v.x)) by (nonlinear_arith);
    lemma_floor_neg(u.y * v.z - u.z * v.y);
    lemma_floor_neg(u.z * v.x - u.x * v.z);
    lemma_floor_neg(u.x * v.y - u.y * v.x);
}

/// Floor division of a negated value: `(-a)/S` is `-(a/S)` or one below it.
proof fn lemma_floor_neg(a: int)
    ensures
        -(a / (SCALE as int)) - 1 <= (-a) / (SCALE as int) <= -(a / (SCALE as int)),
{
    let s = SCALE as int;
    vstd::arithmetic::div_mod::lemma_fundamental_div_mod(a, s);
    vstd::arithmetic::div_mod::lemma_mod_bound(a, s);
    let q = a / s;
    let m = a % s;
    if m == 0 {
        assert(s * (-q) == -(s * q)) by (nonlinear_arith);
        vstd::arithmetic::div_mod::lemma_fundamental_div_mod_converse(-a, s, -q, 0);
    } else {
        assert(s * (-q - 1) == -(s * q) - s) by (nonlinear_arith);
        vstd::arithmetic::div_mod::lemma_fundamental_div_mod_converse(-a, s, -q - 1, s - m);
    }
}

/// The scaled cross product stays orthogonal to both factors up to rounding:
/// its scaled dot with either factor is a few units at most, vanishing
/// relative to the factors' size.
pub proof fn lemma_cross_orthogonal(u: Vec3i, v: Vec3i, b: int)
    requires
        within(u, b),
        within(v, b),
        0 <= b,
    ensures
        -(3 * b / (SCALE as int)) - 1 <= dot3(cross3(u, v), u) <= 3 * b / (SCALE as int),
        -(3 * b / (SCALE as int)) - 1 <= dot3(cross3(u, v), v) <= 3 * b / (SCALE as int),
{
    lemma_cross_dot_small(u, v, u, b);
    lemma_cross_dot_small(u, v, v, b);
}

/// Shared half of the orthogonality law: `w` is `u` or `v`, for which the raw
/// triple product vanishes exactly.
proof fn lemma_cross_dot_small(u: Vec3i, v: Vec3i, w: Vec3i, b: int)
    requires
        within(w, b),
        0 <= b,
        w == u || w == v,
    ensures
        -(3 * b / (SCALE as int)) - 1 <= dot3(cross3(u, v), w) <= 3 * b / (SCALE as int),
{
    let s = SCALE as int;
    let nx = u.y * v.z - u.z * v.y;
    let ny = u.z * v.x - u.x * v.z;
    let nz = u.x * v.y - u.y * v.x;
    if w == u {
        assert(nx * w.x + ny * w.y + nz * w.z == 0) by (nonlinear_arith)
            requires
                nx == u.y * v.z - u.z * v.y,
                ny == u.z * v.x - u.x * v.z,
                nz == u.x * v.y - u.y * v.x,
                w == u,
        ;
    } else {
        assert(nx * w.x + ny * w.y + nz * w.z == 0) by (nonlinear_arith)
            requires
                nx == u.y * v.z - u.z * v.y,
                ny == u.z * v.x - u.x * v.z,
                nz == u.x * v.y - u.y * v.x,
                w == v,
        ;
    }
    let cx = nx / s;
    let cy = ny / s;
    let cz = nz / s;
    let mx = nx % s;
    let my = ny % s;
    let mz = nz % s;
    vstd::arithmetic::div_mod::lemma_fundamental_div_mod(nx, s);
    vstd::arithmetic::div_mod::lemma_fundamental_div_mod(ny, s);
    vstd::arithmetic::div_mod::lemma_fundamental_div_mod(nz, s);
    vstd::arithmetic::div_mod::lemma_mod_bound(nx, s);
    vstd::arithmetic::div_mod::lemma_mod_bound(ny, s);
    vstd::arithmetic::div_mod::lemma_mod_bound(nz, s);
    let inner = cx * w.x + cy * w.y + cz * w.z;
    lemma_split_product(nx, cx, mx, w.x);
    lemma_split_product(ny, cy, my, w.y);
    lemma_split_product(nz, cz, mz, w.z);
    assert(s * inner == -(mx * w.x + my * w.y + mz * w.z));
    assert(-(s * b) <= mx * w.x <= s * b) by (nonlinear_arith)
        requires
            0 <= mx < s,
            -b <= w.x <= b,
            0 <= b,
    ;
    assert(-(s * b) <= my * w.y <= s * b) by (nonlinear_arith)
        requires
            0 <= my < s,
            -b <= w.y <= b,
            0 <= b,
    ;
    assert(-(s * b) <= mz * w.z <= s * b) by (nonlinear_arith)
        requires
            0 <= mz < s,
            -b <= w.z <= b,
            0 <= b,
    ;
    assert(-(3 * b) <= inner <= 3 * b) by (nonlinear_arith)
        requires
            s * inner == -(mx * w.x + my * w.y + mz * w.z),
            -(3 * (s * b)) <= mx * w.x + my * w.y + mz * w.z <= 3 * (s * b),
            s == 65536,
    ;
    assert(dot3(cross3(u, v), w) == inner / s);
    crate::fixed::lemma_div_mag(inner, s, 3 * b);
}

/// With `n == SCALE * c + m`, the product `n * w` splits along the division.
proof fn lemma_split_product(n: int, c: int, m: int, w: int)
    by (nonlinear_arith)
    requires
        n == (SCALE as int) * c + m,
    ensures
        n * w == (SCALE as int) * (c * w) + m * w,
{
}

} // verus!
