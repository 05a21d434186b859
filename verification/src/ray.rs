//! Rays: an origin and a free (not necessarily unit) direction.

use vstd::prelude::*;

verus! {

use crate::fixed::fmul;
use crate::vec3::WORLD_LIMIT;
use crate::vec3::Vec3;
use crate::vec3::spec_len2;

/// Where a ray stands at parameter `t`: `origin + t * direction`.
pub open spec fn spec_at(r: Ray, t: int) -> Vec3 {
    Vec3 {
        x: (r.origin.x + fmul(r.direction.x as int, t)) as i64,
        y: (r.origin.y + fmul(r.direction.y as int, t)) as i64,
        z: (r.origin.z + fmul(r.direction.z as int, t)) as i64,
    }
}

#[derive(Clone, Copy, Debug, PartialEq, Eq, Structural)]
pub struct Ray {
    pub origin: Vec3,
    pub direction: Vec3,
}

impl Ray {
    /// A ray fit for tracing: coordinates within the world bound and a
    /// direction that is not the zero vector.
    pub open spec fn wf(self) -> bool {
        self.origin.bounded(WORLD_LIMIT as int) && self.direction.bounded(WORLD_LIMIT as int)
            && spec_len2(self.direction) >= 1
    }

    pub fn from(origin: Vec3, direction: Vec3) -> (r: Ray)
        ensures
            r.origin == origin,
            r.direction == direction,
    {
        Ray { origin, direction }
    }

    pub fn origin(&self) -> (r: &Vec3)
        ensures
            r == self.origin,
    {
        &self.origin
    }

    pub fn direction(&self) -> (r: &Vec3)
        ensures
            r == self.direction,
    {
        &self.direction
    }

    /// The point at parameter `t` along the ray.
    pub fn at(&self, t: i64) -> (r: Vec3)
        requires
            i64::MIN <= fmul(self.direction.x as int, t as int) <= i64::MAX,
            i64::MIN <= fmul(self.direction.y as int, t as int) <= i64::MAX,
            i64::MIN <= fmul(self.direction.z as int, t as int) <= i64::MAX,
            i64::MIN <= self.origin.x + fmul(self.direction.x as int, t as int) <= i64::MAX,
            i64::MIN <= self.origin.y + fmul(self.direction.y as int, t as int) <= i64::MAX,
            i64::MIN <= self.origin.z + fmul(self.direction.z as int, t as int) <= i64::MAX,
        ensures
            r == spec_at(*self, t as int),
    {
        let d = self.direction.mul(t);
        self.origin.add(&d)
    }
}

} // verus!
