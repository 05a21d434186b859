//! The one concrete primitive: a sphere with an attached material.
//!
//! Intersection solves the quadratic obtained by substituting the ray
//! equation into the implicit sphere equation.  A negative radius flips the
//! outward normal while leaving the intersection unchanged, which models a
//! thin hollow shell; a zero radius is excluded.

use vstd::prelude::*;

verus! {

use crate::fixed::SCALE;
use crate::fixed::div_tz;
use crate::fixed::div_tz_i128;
use crate::fixed::fmul;
use crate::fixed::isqrt_u128;
use crate::fixed::lemma_abs_mul;
use crate::fixed::lemma_div_tz_le_any;
use crate::fixed::lemma_div_tz_monotone;
use crate::fixed::lemma_fmul_bound;
use crate::fixed::lemma_fmul_sq_nonneg;
use crate::fixed::lemma_sqrt_floor;
use crate::fixed::mul_fx;
use crate::fixed::sqrt_floor;
use crate::hit::HitRecord;
use crate::hit::Hittable;
use crate::interval::Interval;
use crate::material::Material;
use crate::ray::Ray;
use crate::ray::spec_at;
use crate::vec3::Vec3;
use crate::vec3::WORLD_LIMIT;
use crate::vec3::bounded_check;
use crate::vec3::lemma_neg_len2;
use crate::vec3::spec_divs;
use crate::vec3::spec_dot;
use crate::vec3::spec_len2;
use crate::vec3::spec_sub;
use vstd::arithmetic::mul::lemma_mul_inequality;

pub struct Sphere {
    pub center: Vec3,
    pub radius: i64,
    pub material: Material,
}

impl Sphere {
    pub fn new(center: Vec3, radius: i64, material: Material) -> (s: Sphere)
        ensures
            s.center == center,
            s.radius == radius,
            s.material == material,
    {
        Sphere { center, radius, material }
    }
}

/// Ray origin relative to the sphere center.
pub open spec fn sphere_oc(s: Sphere, ray: Ray) -> Vec3 {
    spec_sub(ray.origin, s.center)
}

/// Leading quadratic coefficient: the squared length of the direction.
pub open spec fn sphere_a(ray: Ray) -> int {
    spec_len2(ray.direction)
}

/// Half the linear coefficient.
pub open spec fn sphere_half_b(s: Sphere, ray: Ray) -> int {
    spec_dot(sphere_oc(s, ray), ray.direction)
}

/// Constant coefficient.
pub open spec fn sphere_c(s: Sphere, ray: Ray) -> int {
    spec_len2(sphere_oc(s, ray)) - fmul(s.radius as int, s.radius as int)
}

/// Discriminant (at squared scale): negative exactly when the ray misses.
pub open spec fn sphere_disc(s: Sphere, ray: Ray) -> int {
    sphere_half_b(s, ray) * sphere_half_b(s, ray) - sphere_a(ray) * sphere_c(s, ray)
}

/// The smaller quadratic root.
pub open spec fn sphere_root1(s: Sphere, ray: Ray) -> int {
    div_tz(
        (-sphere_half_b(s, ray) - sqrt_floor(sphere_disc(s, ray))) * (SCALE as int),
        sphere_a(ray),
    )
}

/// The larger quadratic root.
pub open spec fn sphere_root2(s: Sphere, ray: Ray) -> int {
    div_tz(
        (-sphere_half_b(s, ray) + sqrt_floor(sphere_disc(s, ray))) * (SCALE as int),
        sphere_a(ray),
    )
}

/// Root selection: the smaller root if it lies strictly inside the window,
/// else the larger one.
pub open spec fn sphere_root(s: Sphere, ray: Ray, ray_t: Interval) -> int {
    if ray_t.spec_surrounds(sphere_root1(s, ray)) {
        sphere_root1(s, ray)
    } else {
        sphere_root2(s, ray)
    }
}

/// The record for a hit at parameter `root`, provided the point and the
/// outward normal pass the numeric guards (in range and normalizable).
pub open spec fn sphere_record(s: Sphere, ray: Ray, root: int) -> Option<HitRecord> {
    let p = spec_at(ray, root);
    let outward = spec_divs(spec_sub(p, s.center), s.radius as int);
    if p.bounded(WORLD_LIMIT as int) && outward.bounded(2 * SCALE as int) && spec_len2(outward)
        >= 1 {
        Option::Some(HitRecord::make(ray, p, outward, root, s.material))
    } else {
        Option::None
    }
}

/// The full intersection function.
pub open spec fn sphere_spec_hit(s: Sphere, ray: Ray, ray_t: Interval) -> Option<HitRecord> {
    if sphere_disc(s, ray) < 0 {
        Option::None
    } else {
        let root = sphere_root(s, ray, ray_t);
        if !ray_t.spec_surrounds(root) {
            Option::None
        } else {
            sphere_record(s, ray, root)
        }
    }
}

/// With a nonnegative discriminant the selected roots are ordered.
proof fn lemma_roots_ordered(s: Sphere, ray: Ray)
    requires
        sphere_a(ray) >= 1,
        sphere_disc(s, ray) >= 0,
    ensures
        sphere_root1(s, ray) <= sphere_root2(s, ray),
{
    let hb = sphere_half_b(s, ray);
    let sq = sqrt_floor(sphere_disc(s, ray));
    lemma_sqrt_floor(sphere_disc(s, ray));
    lemma_mul_inequality(-hb - sq, -hb + sq, SCALE as int);
    lemma_div_tz_monotone((-hb - sq) * (SCALE as int), (-hb + sq) * (SCALE as int), sphere_a(ray));
}

/// The selected root agrees between two windows with the same lower end
/// whenever it is strictly inside both.
proof fn lemma_root_selection(s: Sphere, ray: Ray, tn: Interval, tw: Interval)
    requires
        sphere_a(ray) >= 1,
        sphere_disc(s, ray) >= 0,
        tn.min == tw.min,
        tn.max <= tw.max,
    ensures
        tn.spec_surrounds(sphere_root(s, ray, tn)) && sphere_root(s, ray, tn) < tw.max
            ==> sphere_root(s, ray, tw) == sphere_root(s, ray, tn),
        tw.spec_surrounds(sphere_root(s, ray, tw)) && sphere_root(s, ray, tw) < tn.max
            ==> sphere_root(s, ray, tn) == sphere_root(s, ray, tw),
{
    lemma_roots_ordered(s, ray);
    let r1 = sphere_root1(s, ray);
    let r2 = sphere_root2(s, ray);
    // Narrow window's selection inside the wide window.
    if tn.spec_surrounds(sphere_root(s, ray, tn)) && sphere_root(s, ray, tn) < tw.max {
        if tn.spec_surrounds(r1) {
            assert(tw.spec_surrounds(r1));
        } else {
            // The narrow window selected the larger root, so the smaller
            // one lies at or below the shared lower end.
            assert(r1 <= tn.min);
            assert(!tw.spec_surrounds(r1));
        }
    }
    // Wide window's selection inside the narrow window.
    if tw.spec_surrounds(sphere_root(s, ray, tw)) && sphere_root(s, ray, tw) < tn.max {
        if tw.spec_surrounds(r1) {
            assert(r1 < tn.max ==> tn.spec_surrounds(r1));
            if sphere_root(s, ray, tw) == r1 {
                assert(tn.spec_surrounds(r1));
            } else {
                assert(r2 < tn.max && r1 <= r2);
            }
        } else {
            assert(r1 <= tw.min || r1 >= tw.max);
            if r1 >= tw.max {
                assert(r2 >= r1);
                assert(!tw.spec_surrounds(r2));
            }
            assert(r1 <= tn.min);
            assert(!tn.spec_surrounds(r1));
        }
    }
}

/// Which root a reported hit carries: the roots are ordered, and the hit
/// parameter is the smaller root whenever that root lies strictly inside
/// the query window, falling back to the larger root only when the smaller
/// one lies outside — so a reported parameter is always the least root
/// inside the window.
pub proof fn lemma_hit_uses_nearest_root(s: Sphere, ray: Ray, ray_t: Interval)
    requires
        sphere_a(ray) >= 1,
        ray_t.wf(),
    ensures
        match sphere_spec_hit(s, ray, ray_t) {
            Option::Some(h) => {
                &&& sphere_root1(s, ray) <= sphere_root2(s, ray)
                &&& h.t == sphere_root(s, ray, ray_t)
                &&& ray_t.spec_surrounds(sphere_root1(s, ray)) ==> h.t == sphere_root1(s, ray)
                &&& !ray_t.spec_surrounds(sphere_root1(s, ray)) ==> h.t == sphere_root2(s, ray)
            },
            Option::None => true,
        },
{
    if sphere_disc(s, ray) >= 0 {
        lemma_roots_ordered(s, ray);
    }
}

impl Hittable for Sphere {
    /// Center and radius within the world bound, a nonzero radius, and a
    /// well-formed material.
    open spec fn wf(&self) -> bool {
        self.center.bounded(WORLD_LIMIT as int) && self.radius != 0 && -WORLD_LIMIT <= self.radius
            <= WORLD_LIMIT && self.material.wf()
    }

    open spec fn spec_hit(&self, ray: Ray, ray_t: Interval) -> Option<HitRecord> {
        sphere_spec_hit(*self, ray, ray_t)
    }

    proof fn lemma_hit_props(&self, ray: Ray, ray_t: Interval) {
        match sphere_spec_hit(*self, ray, ray_t) {
            Option::Some(h) => {
                let root = sphere_root(*self, ray, ray_t);
                let p = spec_at(ray, root);
                let outward = spec_divs(spec_sub(p, self.center), self.radius as int);
                lemma_neg_len2(outward);
            },
            Option::None => {},
        }
    }

    proof fn lemma_hit_widen(&self, ray: Ray, t1: Interval, t2: Interval) {
        if sphere_disc(*self, ray) >= 0 {
            lemma_root_selection(*self, ray, t1, t2);
        }
    }

    proof fn lemma_hit_tighten(&self, ray: Ray, t1: Interval, t2: Interval) {
        if sphere_disc(*self, ray) >= 0 {
            lemma_roots_ordered(*self, ray);
            lemma_root_selection(*self, ray, t2, t1);
            let r1 = sphere_root1(*self, ray);
            let r2 = sphere_root2(*self, ray);
            match sphere_spec_hit(*self, ray, t1) {
                Option::Some(h) => {
                    if h.t < t2.max {
                        let root = sphere_root(*self, ray, t1);
                        assert(t1.spec_surrounds(root));
                        assert(h.t == root);
                        assert(sphere_root(*self, ray, t2) == root);
                    }
                },
                Option::None => {
                    // No hit in the wide window means none in the narrow
                    // one: the narrow selection either equals the wide one
                    // or falls outside the narrow window.
                    let rootw = sphere_root(*self, ray, t1);
                    let rootn = sphere_root(*self, ray, t2);
                    if t2.spec_surrounds(rootn) {
                        assert(t1.spec_surrounds(rootn));
                        if rootn == r1 {
                            assert(t1.spec_surrounds(r1));
                            assert(rootw == r1);
                        } else {
                            assert(!t2.spec_surrounds(r1));
                            assert(r1 <= t2.min || r1 >= t2.max);
                            if r1 >= t2.max {
                                assert(r2 >= r1);
                                assert(!t2.spec_surrounds(r2));
                                assert(false);
                            }
                            assert(!t1.spec_surrounds(r1));
                            assert(rootw == r2);
                        }
                        assert(sphere_record(*self, ray, rootn) is None);
                    }
                },
            }
        }
    }

    /// Analytic intersection: form the quadratic, reject a negative
    /// discriminant, then try the smaller root and fall back to the larger
    /// one before giving up.
    fn hit(&self, ray: &Ray, ray_t: &Interval) -> (r: Option<HitRecord>) {
        let oc = ray.origin().sub(&self.center);
        let a = ray.direction().length_squared();
        let half_b = oc.dot(ray.direction());
        proof {
            lemma_fmul_bound(
                self.radius as int,
                self.radius as int,
                WORLD_LIMIT as int,
                WORLD_LIMIT as int,
                10_000_000_000_000_000,
            );
            lemma_fmul_sq_nonneg(self.radius as int);
        }
        let rr = mul_fx(self.radius, self.radius);
        let c = oc.length_squared() - rr;
        proof {
            assert((half_b as i128) * (half_b as i128) == (half_b as int) * (half_b as int)
                && -9000000000000000000000000000000000000 <= (half_b as int) * (half_b as int)
                <= 9000000000000000000000000000000000000) by (nonlinear_arith)
                requires
                    -3_000_000_000_000_000_000 <= half_b as int <= 3_000_000_000_000_000_000,
            ;
            assert((a as i128) * (c as i128) == (a as int) * (c as int)
                && -9400000000000000000000000000000000000 <= (a as int) * (c as int)
                <= 9400000000000000000000000000000000000) by (nonlinear_arith)
                requires
                    0 <= a as int <= 3_000_000_000_000_000_000,
                    -3_100_000_000_000_000_000 <= c as int <= 3_100_000_000_000_000_000,
            ;
        }
        let disc: i128 = (half_b as i128) * (half_b as i128) - (a as i128) * (c as i128);
        if disc < 0 {
            return None;
        }
        let sq: i128 = isqrt_u128(disc as u128) as i128;
        proof {
            lemma_sqrt_floor(disc as int);
        }
        let num1: i128 = -(half_b as i128) - sq;
        let num2: i128 = -(half_b as i128) + sq;
        proof {
            assert(num1 * (SCALE as i128) == (num1 as int) * (SCALE as int) && num2 * (
            SCALE as i128) == (num2 as int) * (SCALE as int)
                && -15000000000000000000000000000 <= (num1 as int) * (SCALE as int)
                <= 15000000000000000000000000000 && -15000000000000000000000000000 <= (
            num2 as int) * (SCALE as int) <= 15000000000000000000000000000) by (nonlinear_arith)
                requires
                    -13_000_000_000_000_000_000 <= num1 as int <= 13_000_000_000_000_000_000,
                    -13_000_000_000_000_000_000 <= num2 as int <= 13_000_000_000_000_000_000,
                    SCALE == 1_000_000,
            ;
        }
        let root1: i128 = div_tz_i128(num1 * (SCALE as i128), a as i128);
        let mut root: i128 = root1;
        if !((ray_t.min as i128) < root1 && root1 < (ray_t.max as i128)) {
            root = div_tz_i128(num2 * (SCALE as i128), a as i128);
        }
        if !((ray_t.min as i128) < root && root < (ray_t.max as i128)) {
            return None;
        }
        let root64: i64 = root as i64;
        proof {
            lemma_fmul_bound(
                ray.direction.x as int,
                root64 as int,
                WORLD_LIMIT as int,
                crate::interval::INFINITY_T as int,
                1_000_000_000_000_000_000,
            );
            lemma_fmul_bound(
                ray.direction.y as int,
                root64 as int,
                WORLD_LIMIT as int,
                crate::interval::INFINITY_T as int,
                1_000_000_000_000_000_000,
            );
            lemma_fmul_bound(
                ray.direction.z as int,
                root64 as int,
                WORLD_LIMIT as int,
                crate::interval::INFINITY_T as int,
                1_000_000_000_000_000_000,
            );
        }
        let p = ray.at(root64);
        if !bounded_check(&p, WORLD_LIMIT) {
            return None;
        }
        let pc = p.sub(&self.center);
        proof {
            lemma_abs_mul(pc.x as int, SCALE as int);
            lemma_abs_mul(pc.y as int, SCALE as int);
            lemma_abs_mul(pc.z as int, SCALE as int);
            lemma_div_tz_le_any(pc.x as int * (SCALE as int), self.radius as int);
            lemma_div_tz_le_any(pc.y as int * (SCALE as int), self.radius as int);
            lemma_div_tz_le_any(pc.z as int * (SCALE as int), self.radius as int);
        }
        let outward = pc.div(self.radius);
        if !bounded_check(&outward, 2 * SCALE) {
            return None;
        }
        if outward.length_squared() < 1 {
            return None;
        }
        Some(HitRecord::new(ray, p, outward, root64, self.material))
    }
}

} // verus!
