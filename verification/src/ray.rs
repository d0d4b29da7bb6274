//! Rays: an origin plus a direction, with point-at-parameter evaluation.

use crate::fixed::{lemma_div_mag, lemma_mul_range, SCALE};
use crate::vec3::{vadd, vscale, within, Point3, Vec3i, Vector3};
use vstd::prelude::*;

verus! {

pub struct Ray {
    pub origin: Point3,
    pub direction: Vector3,
}

/// Mathematical value of a `Ray`.
pub struct Rayi {
    pub origin: Vec3i,
    pub direction: Vec3i,
}

impl View for Ray {
    type V = Rayi;

    open spec fn view(&self) -> Rayi {
        Rayi { origin: self.origin@, direction: self.direction@ }
    }
}

/// The point reached after parameter `t`: origin plus `t` times direction.
pub open spec fn ray_at(r: Rayi, t: int) -> Vec3i {
    vadd(r.origin, vscale(r.direction, t))
}

/// Bounds under which a ray can be traced: the origin stays inside the world
/// cube and the direction inside the direction cube.
pub open spec fn ray_wf(r: Rayi) -> bool {
    &&& within(r.origin, 0x30_0000_0000int)
    &&& within(r.direction, 0x80_0000int)
}

impl Ray {
    pub fn new(origin: Point3, direction: Vector3) -> (r: Self)
        ensures
            r@ == (Rayi { origin: origin@, direction: direction@ }),
    {
        Self { origin, direction }
    }

    /// Evaluates the ray at parameter `t`; exact per `ray_at`.
    pub fn at(&self, to: i64) -> (r: Point3)
        requires
            within(self@.origin, 0x2000_0000_0000_0000int),
            within(self@.direction, 0x80_0000_0000int),
            -0x80_0000_0000 <= to <= 0x80_0000_0000,
        ensures
            r@ == ray_at(self@, to as int),
    {
        proof {
            lemma_mul_range(self@.direction.x, to as int, 0x80_0000_0000int, 0x80_0000_0000int);
            lemma_mul_range(self@.direction.y, to as int, 0x80_0000_0000int, 0x80_0000_0000int);
            lemma_mul_range(self@.direction.z, to as int, 0x80_0000_0000int, 0x80_0000_0000int);
            lemma_div_mag(
                self@.direction.x * (to as int),
                SCALE as int,
                0x80_0000_0000int * 0x80_0000_0000int,
            );
            lemma_div_mag(
                self@.direction.y * (to as int),
                SCALE as int,
                0x80_0000_0000int * 0x80_0000_0000int,
            );
            lemma_div_mag(
                self@.direction.z * (to as int),
                SCALE as int,
                0x80_0000_0000int * 0x80_0000_0000int,
            );
        }
        self.origin.add(self.direction.scale(to))
    }
}

} // verus!
