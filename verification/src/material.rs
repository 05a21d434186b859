//! Material scattering: how a ray continues after hitting a surface.
//!
//! The three variants follow the classic path-tracing models: diffuse
//! (Lambertian), fuzzy mirror (metal), and glass (dielectric) with Schlick's
//! reflectance approximation deciding between reflection and refraction.
//! The deterministic part of each decision is captured exactly by a spec
//! function of the surface data and the random draws; `scatter` promises
//! that its result is that function of some draws in range.

use vstd::prelude::*;

verus! {

use crate::fixed::SCALE;
use crate::fixed::clampi;
use crate::fixed::clamp_fx;
use crate::fixed::div_fx;
use crate::fixed::fdiv;
use crate::fixed::fmul;
use crate::fixed::fsqrt;
use crate::fixed::lemma_fmul_bound;
use crate::fixed::lemma_fmul_sq_nonneg;
use crate::fixed::lemma_fsqrt_unit;
use crate::fixed::mul_fx;
use crate::fixed::sqrt_fx;
use crate::hit::HitRecord;
use crate::ray::Ray;
use crate::rng::random_below;
use crate::vec3::Color;
use crate::vec3::Vec3;
use crate::vec3::lemma_reflect_bounded;
use crate::vec3::lemma_unit_bounded;
use crate::vec3::reflect;
use crate::vec3::refract;
use crate::vec3::random_unit_vector;
use crate::vec3::spec_add;
use crate::vec3::spec_dot;
use crate::vec3::spec_len2;
use crate::vec3::spec_reflect;
use crate::vec3::spec_refract;
use crate::vec3::spec_scale;
use crate::vec3::spec_unit;
use crate::vec3::unit_color;
use crate::vec3::valid_unit_sample;

/// Surface response: diffuse with an albedo, mirror with an albedo and a
/// fuzz radius, or glass with a refractive index.
#[derive(Clone, Copy, Debug, PartialEq, Eq, Structural)]
pub enum Material {
    Lambertian(Color),
    Metal(Color, i64),
    Dielectric(i64),
}

impl Material {
    /// The data-model invariants: albedos are colors in `[0, 1]`, fuzz lies
    /// in `[0, 1]`, and the refractive index is positive — confined to
    /// `[0.1, 10]` so that the refraction ratio, which can be the index or
    /// its reciprocal, stays where the scaled refraction arithmetic cannot
    /// overflow.
    pub open spec fn wf(self) -> bool {
        match self {
            Material::Lambertian(albedo) => unit_color(albedo),
            Material::Metal(albedo, fuzz) => unit_color(albedo) && 0 <= fuzz <= SCALE,
            Material::Dielectric(ir) => 100_000 <= ir <= 10_000_000,
        }
    }
}

/// Schlick's polynomial approximation of the Fresnel reflectance:
/// `r0 + (1 - r0) (1 - cos)^5` with `r0 = ((1 - idx) / (1 + idx))^2`.
pub open spec fn spec_reflectance(cosine: int, ref_idx: int) -> int {
    let r0 = fdiv(SCALE as int - ref_idx, SCALE as int + ref_idx);
    let r0sq = fmul(r0, r0);
    let om = SCALE as int - cosine;
    let p2 = fmul(om, om);
    let p4 = fmul(p2, p2);
    let p5 = fmul(p4, om);
    r0sq + fmul(SCALE as int - r0sq, p5)
}

/// Schlick reflectance (see `spec_reflectance`).
pub fn reflectance(cosine: i64, ref_idx: i64) -> (r: i64)
    requires
        -SCALE <= cosine <= SCALE,
        100_000 <= ref_idx <= 10_000_000,
    ensures
        r == spec_reflectance(cosine as int, ref_idx as int),
        -40_000_000_000 <= r <= 40_000_000_000,
{
    proof {
        crate::fixed::lemma_div_tz_bound(
            (SCALE as int - ref_idx as int) * SCALE as int,
            SCALE as int + ref_idx as int,
            9_000_000,
        );
        crate::fixed::lemma_abs_mul(SCALE as int - ref_idx as int, SCALE as int);
    }
    let r0 = div_fx(SCALE - ref_idx, SCALE + ref_idx);
    proof {
        lemma_fmul_bound(r0 as int, r0 as int, 9_000_000, 9_000_000, 81_000_000);
        lemma_fmul_sq_nonneg(r0 as int);
    }
    let r0sq = mul_fx(r0, r0);
    let om = SCALE - cosine;
    proof {
        lemma_fmul_bound(om as int, om as int, 2_000_000, 2_000_000, 4_000_000);
        lemma_fmul_sq_nonneg(om as int);
    }
    let p2 = mul_fx(om, om);
    proof {
        lemma_fmul_bound(p2 as int, p2 as int, 4_000_000, 4_000_000, 16_000_000);
        lemma_fmul_sq_nonneg(p2 as int);
    }
    let p4 = mul_fx(p2, p2);
    proof {
        lemma_fmul_bound(p4 as int, om as int, 16_000_000, 2_000_000, 32_000_000);
    }
    let p5 = mul_fx(p4, om);
    proof {
        lemma_fmul_bound(
            SCALE as int - r0sq as int,
            p5 as int,
            82_000_000,
            32_000_000,
            2_624_000_000,
        );
    }
    r0sq + mul_fx(SCALE - r0sq, p5)
}

/// Where a diffuse surface sends the ray: the surface normal plus a random
/// unit vector, with the bare normal standing in when the sum degenerates
/// to (or cannot be normalized at) zero.
pub open spec fn spec_scatter_lambertian(normal: Vec3, u: Vec3) -> Vec3 {
    let d = spec_add(normal, u);
    if d.is_near_zero() || spec_len2(d) == 0 {
        normal
    } else {
        d
    }
}

/// Where a metal surface sends the ray: the mirror reflection of the unit
/// incoming direction, perturbed by fuzz times a random unit vector; the
/// bare normal stands in if the perturbed direction cannot be normalized.
pub open spec fn spec_scatter_metal(unit_in: Vec3, normal: Vec3, fuzz: int, u: Vec3) -> Vec3 {
    let d = spec_add(spec_reflect(unit_in, normal), spec_scale(u, fuzz));
    if spec_len2(d) == 0 {
        normal
    } else {
        d
    }
}

/// Where a dielectric sends the ray.  The refraction ratio is the inverse
/// index when entering from outside, the index itself when leaving.  The
/// ray reflects on total internal reflection, or when the Schlick
/// reflectance exceeds the uniform draw; otherwise it refracts.
pub open spec fn spec_scatter_dielectric(
    unit_in: Vec3,
    normal: Vec3,
    front_face: bool,
    ir: int,
    draw: int,
) -> Vec3 {
    let ratio = if front_face {
        fdiv(SCALE as int, ir)
    } else {
        ir
    };
    let cos = clampi(-spec_dot(unit_in, normal), -(SCALE as int), SCALE as int);
    let sin = fsqrt(SCALE as int - fmul(cos, cos));
    let cannot_refract = fmul(ratio, sin) > SCALE as int;
    let d = if cannot_refract || spec_reflectance(cos, ratio) > draw {
        spec_reflect(unit_in, normal)
    } else {
        spec_refract(unit_in, normal, ratio)
    };
    if spec_len2(d) == 0 {
        normal
    } else {
        d
    }
}

/// Everything `scatter` promises of a returned pair: the scattered ray is
/// rooted at the hit point and traceable, and its direction is the
/// material's scatter function of the surface data and some random draws
/// in range; the attenuation is the albedo (full white for a dielectric).
pub open spec fn scatter_admits(
    mat: Material,
    r_in: Ray,
    record: HitRecord,
    att: Color,
    sc: Ray,
) -> bool {
    sc.origin == record.p && sc.wf() && match mat {
        Material::Lambertian(albedo) => att == albedo && exists|u: Vec3|
            #[trigger] valid_unit_sample(u) && sc.direction == spec_scatter_lambertian(
                record.normal,
                u,
            ),
        Material::Metal(albedo, fuzz) => att == albedo && exists|u: Vec3|
            #[trigger] valid_unit_sample(u) && sc.direction == spec_scatter_metal(
                spec_unit(r_in.direction),
                record.normal,
                fuzz as int,
                u,
            ),
        Material::Dielectric(ir) => att == (Color { x: SCALE, y: SCALE, z: SCALE })
            && exists|draw: int|
            0 <= draw < SCALE && sc.direction == #[trigger] spec_scatter_dielectric(
                spec_unit(r_in.direction),
                record.normal,
                record.front_face,
                ir as int,
                draw,
            ),
    }
}

impl Material {
    /// How the ray continues after the hit described by `record`: an
    /// attenuation color and the scattered ray, rooted at the hit point.
    /// Every variant scatters (none absorbs); the direction is the
    /// variant's scatter function of the surface data and some random
    /// draws in range.
    pub fn scatter(&self, r_in: &Ray, record: &HitRecord) -> (res: Option<(Color, Ray)>)
        requires
            self.wf(),
            r_in.wf(),
            record.wf(),
        ensures
            res matches Some(pair) && scatter_admits(*self, *r_in, *record, pair.0, pair.1),
    {
        match self {
            Material::Lambertian(albedo) => {
                let u = random_unit_vector();
                let mut direction = record.normal.add(&u);
                if direction.near_zero() {
                    direction = record.normal;
                }
                if direction.length_squared() == 0 {
                    direction = record.normal;
                }
                let ghost uw = u;
                proof {
                    assert(valid_unit_sample(uw));
                    assert(direction == spec_scatter_lambertian(record.normal, uw));
                }
                Some((*albedo, Ray::from(record.p, direction)))
            },
            Material::Metal(albedo, fuzz) => {
                let unit_in = r_in.direction().unit();
                proof {
                    lemma_unit_bounded(r_in.direction);
                    lemma_reflect_bounded(spec_unit(r_in.direction), record.normal);
                }
                let reflected = reflect(&unit_in, &record.normal);
                let u = random_unit_vector();
                proof {
                    lemma_fmul_bound(u.x as int, *fuzz as int, 2_000_000, 1_000_000, 2_000_000);
                    lemma_fmul_bound(u.y as int, *fuzz as int, 2_000_000, 1_000_000, 2_000_000);
                    lemma_fmul_bound(u.z as int, *fuzz as int, 2_000_000, 1_000_000, 2_000_000);
                }
                let perturb = u.mul(*fuzz);
                let mut direction = reflected.add(&perturb);
                if direction.length_squared() == 0 {
                    direction = record.normal;
                }
                let ghost uw = u;
                proof {
                    assert(valid_unit_sample(uw));
                    assert(direction == spec_scatter_metal(
                        spec_unit(r_in.direction),
                        record.normal,
                        *fuzz as int,
                        uw,
                    ));
                }
                Some((*albedo, Ray::from(record.p, direction)))
            },
            Material::Dielectric(ir) => {
                let refraction_ratio = if record.front_face {
                    div_fx(SCALE, *ir)
                } else {
                    *ir
                };
                proof {
                    lemma_ratio_range(*ir as int);
                    lemma_unit_bounded(r_in.direction);
                }
                let unit_in = r_in.direction().unit();
                let d = unit_in.dot(&record.normal);
                let cos_theta = clamp_fx(-d, -SCALE, SCALE);
                proof {
                    lemma_fmul_bound(
                        cos_theta as int,
                        cos_theta as int,
                        1_000_000,
                        1_000_000,
                        1_000_000,
                    );
                    lemma_fmul_sq_nonneg(cos_theta as int);
                }
                let sin_theta = sqrt_fx(SCALE - mul_fx(cos_theta, cos_theta));
                proof {
                    lemma_fsqrt_unit(SCALE as int - fmul(cos_theta as int, cos_theta as int));
                    lemma_fmul_bound(
                        refraction_ratio as int,
                        sin_theta as int,
                        10_000_000,
                        1_000_000,
                        10_000_000,
                    );
                }
                let cannot_refract = mul_fx(refraction_ratio, sin_theta) > SCALE;
                let draw = random_below(SCALE as u64) as i64;
                let must_reflect = cannot_refract || reflectance(cos_theta, refraction_ratio)
                    > draw;
                proof {
                    lemma_reflect_bounded(spec_unit(r_in.direction), record.normal);
                }
                let mut direction = if must_reflect {
                    reflect(&unit_in, &record.normal)
                } else {
                    refract(&unit_in, &record.normal, refraction_ratio)
                };
                if direction.length_squared() == 0 {
                    direction = record.normal;
                }
                let ghost dw = draw as int;
                proof {
                    assert(direction == spec_scatter_dielectric(
                        spec_unit(r_in.direction),
                        record.normal,
                        record.front_face,
                        *ir as int,
                        dw,
                    ));
                }
                Some((Color::white(), Ray::from(record.p, direction)))
            },
        }
    }
}

/// The refraction ratio stays within the range the arithmetic supports.
proof fn lemma_ratio_range(ir: int)
    requires
        100_000 <= ir <= 10_000_000,
    ensures
        100_000 <= fdiv(SCALE as int, ir) <= 10_000_000,
{
    let s = SCALE as int;
    assert(s * s == 1_000_000_000_000) by (nonlinear_arith)
        requires
            s == 1_000_000,
    ;
    crate::fixed::lemma_div_tz_bound(1_000_000_000_000, ir, 10_000_000);
    vstd::arithmetic::div_mod::lemma_div_pos_is_pos(1_000_000_000_000, ir);
    vstd::arithmetic::div_mod::lemma_div_is_ordered_by_denominator(1_000_000_000_000, ir, 10_000_000);
    vstd::arithmetic::div_mod::lemma_fundamental_div_mod_converse(
        1_000_000_000_000,
        10_000_000,
        100_000,
        0,
    );
}

} // verus!
