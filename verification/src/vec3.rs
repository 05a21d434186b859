//! Three-component vectors over fixed-point reals, used interchangeably as
//! points, directions and colors.
//!
//! Every arithmetic method has an exact contract phrased with the fixed-point
//! operations `fmul` / `fdiv` / `fsqrt`; the random sampling helpers promise
//! the range properties that hold of every draw.

use vstd::prelude::*;

verus! {

use crate::fixed::SCALE;
use crate::fixed::clamp_fx;
use crate::fixed::clampi;
use crate::fixed::div_fx;
use crate::fixed::div_tz;
use crate::fixed::fdiv;
use crate::fixed::fmul;
use crate::fixed::fsqrt;
use crate::fixed::lemma_abs_mul;
use crate::fixed::lemma_div_tz_bound;
use crate::fixed::lemma_div_tz_le;
use crate::fixed::lemma_div_tz_neg;
use crate::fixed::lemma_div_tz_exact;
use crate::fixed::lemma_fmul_below;
use crate::fixed::lemma_fmul_bound;
use crate::fixed::lemma_fmul_one;
use crate::fixed::lemma_fmul_sq_nonneg;
use crate::fixed::lemma_fsqrt_pos;
use crate::fixed::lemma_fsqrt_unit;
use crate::fixed::lemma_sqrt_floor;
use crate::fixed::lemma_sqrt_le;
use crate::fixed::lemma_sqrt_unique;
use crate::fixed::mul_fx;
use crate::fixed::sqrt_fx;
use crate::rng::random_below;
use vstd::math::abs;

/// Largest coordinate magnitude for which dot products and lengths are
/// guaranteed not to overflow (10^6 in real units).
pub const COORD_LIMIT: i64 = 1_000_000_000_000;

/// Bound on the coordinates of scene geometry and traced rays (10^5 in
/// real units); small enough that every intermediate of the intersection
/// arithmetic fits in the machine integers.
pub const WORLD_LIMIT: i64 = 100_000_000_000;

/// Threshold below which a component counts as zero: one quantum of the
/// fixed-point representation, its finest resolvable magnitude.
pub const NEAR_ZERO_EPS: i64 = 1;

/// A point, direction, or color; each component is a fixed-point real.
#[derive(Clone, Copy, Debug, PartialEq, Eq, Structural)]
pub struct Vec3 {
    pub x: i64,
    pub y: i64,
    pub z: i64,
}

pub type Point3 = Vec3;

pub type Color = Vec3;

/// Dot product of fixed-point vectors.
pub open spec fn spec_dot(a: Vec3, b: Vec3) -> int {
    fmul(a.x as int, b.x as int) + fmul(a.y as int, b.y as int) + fmul(a.z as int, b.z as int)
}

/// Squared length.
pub open spec fn spec_len2(v: Vec3) -> int {
    spec_dot(v, v)
}

/// Length: fixed-point square root of the squared length.
pub open spec fn spec_length(v: Vec3) -> int {
    fsqrt(spec_len2(v))
}

/// The normalized vector: each component divided by the length.
pub open spec fn spec_unit(v: Vec3) -> Vec3 {
    Vec3 {
        x: fdiv(v.x as int, spec_length(v)) as i64,
        y: fdiv(v.y as int, spec_length(v)) as i64,
        z: fdiv(v.z as int, spec_length(v)) as i64,
    }
}

/// Cross product.
pub open spec fn spec_cross(a: Vec3, b: Vec3) -> Vec3 {
    Vec3 {
        x: (fmul(a.y as int, b.z as int) - fmul(a.z as int, b.y as int)) as i64,
        y: (fmul(a.z as int, b.x as int) - fmul(a.x as int, b.z as int)) as i64,
        z: (fmul(a.x as int, b.y as int) - fmul(a.y as int, b.x as int)) as i64,
    }
}

/// Mirror reflection of `v` about the normal `n`: `v - 2 (v . n) n`.
pub open spec fn spec_reflect(v: Vec3, n: Vec3) -> Vec3 {
    let d2 = 2 * spec_dot(v, n);
    Vec3 {
        x: (v.x - fmul(n.x as int, d2)) as i64,
        y: (v.y - fmul(n.y as int, d2)) as i64,
        z: (v.z - fmul(n.z as int, d2)) as i64,
    }
}

impl Vec3 {
    /// All components lie in `[-b, b]`.
    pub open spec fn bounded(self, b: int) -> bool {
        -b <= self.x <= b && -b <= self.y <= b && -b <= self.z <= b
    }

    /// Every component is below one quantum in magnitude.
    pub open spec fn is_near_zero(self) -> bool {
        abs(self.x as int) < NEAR_ZERO_EPS && abs(self.y as int) < NEAR_ZERO_EPS && abs(
            self.z as int,
        ) < NEAR_ZERO_EPS
    }

    /// The zero vector.
    pub fn new() -> (r: Vec3)
        ensures
            r.x == 0 && r.y == 0 && r.z == 0,
    {
        Vec3 { x: 0, y: 0, z: 0 }
    }

    pub fn from(x: i64, y: i64, z: i64) -> (r: Vec3)
        ensures
            r.x == x && r.y == y && r.z == z,
    {
        Vec3 { x, y, z }
    }

    pub fn x(&self) -> (r: i64)
        ensures
            r == self.x,
    {
        self.x
    }

    pub fn y(&self) -> (r: i64)
        ensures
            r == self.y,
    {
        self.y
    }

    pub fn z(&self) -> (r: i64)
        ensures
            r == self.z,
    {
        self.z
    }

    /// Component-wise sum.
    pub fn add(&self, rhs: &Vec3) -> (r: Vec3)
        requires
            i64::MIN <= self.x + rhs.x <= i64::MAX,
            i64::MIN <= self.y + rhs.y <= i64::MAX,
            i64::MIN <= self.z + rhs.z <= i64::MAX,
        ensures
            r.x == self.x + rhs.x && r.y == self.y + rhs.y && r.z == self.z + rhs.z,
    {
        Vec3 { x: self.x + rhs.x, y: self.y + rhs.y, z: self.z + rhs.z }
    }

    /// Component-wise difference.
    pub fn sub(&self, rhs: &Vec3) -> (r: Vec3)
        requires
            i64::MIN <= self.x - rhs.x <= i64::MAX,
            i64::MIN <= self.y - rhs.y <= i64::MAX,
            i64::MIN <= self.z - rhs.z <= i64::MAX,
        ensures
            r.x == self.x - rhs.x && r.y == self.y - rhs.y && r.z == self.z - rhs.z,
    {
        Vec3 { x: self.x - rhs.x, y: self.y - rhs.y, z: self.z - rhs.z }
    }

    /// Negation.
    pub fn neg(&self) -> (r: Vec3)
        requires
            self.x > i64::MIN,
            self.y > i64::MIN,
            self.z > i64::MIN,
        ensures
            r.x == -self.x && r.y == -self.y && r.z == -self.z,
    {
        Vec3 { x: -self.x, y: -self.y, z: -self.z }
    }

    /// Component-wise in-place sum.
    pub fn add_assign(&mut self, rhs: &Vec3)
        requires
            i64::MIN <= old(self).x + rhs.x <= i64::MAX,
            i64::MIN <= old(self).y + rhs.y <= i64::MAX,
            i64::MIN <= old(self).z + rhs.z <= i64::MAX,
        ensures
            final (self).x == old(self).x + rhs.x,
            final (self).y == old(self).y + rhs.y,
            final (self).z == old(self).z + rhs.z,
    {
        self.x = self.x + rhs.x;
        self.y = self.y + rhs.y;
        self.z = self.z + rhs.z;
    }

    /// Scaling by a fixed-point real.
    pub fn mul(&self, rhs: i64) -> (r: Vec3)
        requires
            i64::MIN <= fmul(self.x as int, rhs as int) <= i64::MAX,
            i64::MIN <= fmul(self.y as int, rhs as int) <= i64::MAX,
            i64::MIN <= fmul(self.z as int, rhs as int) <= i64::MAX,
        ensures
            r.x == fmul(self.x as int, rhs as int),
            r.y == fmul(self.y as int, rhs as int),
            r.z == fmul(self.z as int, rhs as int),
    {
        Vec3 { x: mul_fx(self.x, rhs), y: mul_fx(self.y, rhs), z: mul_fx(self.z, rhs) }
    }

    /// In-place scaling by a fixed-point real.
    pub fn mul_assign(&mut self, rhs: i64)
        requires
            i64::MIN <= fmul(old(self).x as int, rhs as int) <= i64::MAX,
            i64::MIN <= fmul(old(self).y as int, rhs as int) <= i64::MAX,
            i64::MIN <= fmul(old(self).z as int, rhs as int) <= i64::MAX,
        ensures
            final (self).x == fmul(old(self).x as int, rhs as int),
            final (self).y == fmul(old(self).y as int, rhs as int),
            final (self).z == fmul(old(self).z as int, rhs as int),
    {
        self.x = mul_fx(self.x, rhs);
        self.y = mul_fx(self.y, rhs);
        self.z = mul_fx(self.z, rhs);
    }

    /// Division by a fixed-point real.
    pub fn div(&self, rhs: i64) -> (r: Vec3)
        requires
            rhs != 0,
            i64::MIN <= fdiv(self.x as int, rhs as int) <= i64::MAX,
            i64::MIN <= fdiv(self.y as int, rhs as int) <= i64::MAX,
            i64::MIN <= fdiv(self.z as int, rhs as int) <= i64::MAX,
        ensures
            r.x == fdiv(self.x as int, rhs as int),
            r.y == fdiv(self.y as int, rhs as int),
            r.z == fdiv(self.z as int, rhs as int),
    {
        Vec3 { x: div_fx(self.x, rhs), y: div_fx(self.y, rhs), z: div_fx(self.z, rhs) }
    }

    /// In-place division by a fixed-point real.
    pub fn div_assign(&mut self, rhs: i64)
        requires
            rhs != 0,
            i64::MIN <= fdiv(old(self).x as int, rhs as int) <= i64::MAX,
            i64::MIN <= fdiv(old(self).y as int, rhs as int) <= i64::MAX,
            i64::MIN <= fdiv(old(self).z as int, rhs as int) <= i64::MAX,
        ensures
            final (self).x == fdiv(old(self).x as int, rhs as int),
            final (self).y == fdiv(old(self).y as int, rhs as int),
            final (self).z == fdiv(old(self).z as int, rhs as int),
    {
        self.x = div_fx(self.x, rhs);
        self.y = div_fx(self.y, rhs);
        self.z = div_fx(self.z, rhs);
    }

    /// Component-wise product (color tinting).
    pub fn mul_vec(&self, rhs: &Vec3) -> (r: Vec3)
        requires
            i64::MIN <= fmul(self.x as int, rhs.x as int) <= i64::MAX,
            i64::MIN <= fmul(self.y as int, rhs.y as int) <= i64::MAX,
            i64::MIN <= fmul(self.z as int, rhs.z as int) <= i64::MAX,
        ensures
            r.x == fmul(self.x as int, rhs.x as int),
            r.y == fmul(self.y as int, rhs.y as int),
            r.z == fmul(self.z as int, rhs.z as int),
    {
        Vec3 { x: mul_fx(self.x, rhs.x), y: mul_fx(self.y, rhs.y), z: mul_fx(self.z, rhs.z) }
    }

    /// Dot product.
    pub fn dot(&self, rhs: &Vec3) -> (r: i64)
        requires
            self.bounded(COORD_LIMIT as int),
            rhs.bounded(COORD_LIMIT as int),
        ensures
            r == spec_dot(*self, *rhs),
            abs(r as int) <= 3_000_000_000_000_000_000,
    {
        proof {
            let l = COORD_LIMIT as int;
            lemma_fmul_bound(self.x as int, rhs.x as int, l, l, 1_000_000_000_000_000_000);
            lemma_fmul_bound(self.y as int, rhs.y as int, l, l, 1_000_000_000_000_000_000);
            lemma_fmul_bound(self.z as int, rhs.z as int, l, l, 1_000_000_000_000_000_000);
        }
        mul_fx(self.x, rhs.x) + mul_fx(self.y, rhs.y) + mul_fx(self.z, rhs.z)
    }

    /// Squared length; always nonnegative.
    pub fn length_squared(&self) -> (r: i64)
        requires
            self.bounded(COORD_LIMIT as int),
        ensures
            r == spec_len2(*self),
            0 <= r <= 3_000_000_000_000_000_000,
    {
        proof {
            lemma_len2_props(*self);
        }
        self.dot(self)
    }

    /// Length, rounded down to the nearest quantum.
    pub fn length(&self) -> (r: i64)
        requires
            self.bounded(COORD_LIMIT as int),
        ensures
            r == spec_length(*self),
            r >= 0,
    {
        let l2 = self.length_squared();
        sqrt_fx(l2)
    }

    /// The unit vector pointing the same way; the length must be nonzero
    /// (normalizing a zero-length vector has no finite result and is
    /// excluded here).
    pub fn unit(&self) -> (r: Vec3)
        requires
            self.bounded(COORD_LIMIT as int),
            spec_len2(*self) >= 1,
        ensures
            r == spec_unit(*self),
    {
        let len = self.length();
        proof {
            lemma_fsqrt_pos(spec_len2(*self));
            lemma_abs_mul(self.x as int, SCALE as int);
            lemma_abs_mul(self.y as int, SCALE as int);
            lemma_abs_mul(self.z as int, SCALE as int);
            lemma_div_tz_le(self.x as int * SCALE as int, len as int);
            lemma_div_tz_le(self.y as int * SCALE as int, len as int);
            lemma_div_tz_le(self.z as int * SCALE as int, len as int);
        }
        self.div(len)
    }

    /// Cross product.
    pub fn cross(&self, rhs: &Vec3) -> (r: Vec3)
        requires
            self.bounded(COORD_LIMIT as int),
            rhs.bounded(COORD_LIMIT as int),
        ensures
            r == spec_cross(*self, *rhs),
    {
        proof {
            let l = COORD_LIMIT as int;
            lemma_fmul_bound(self.x as int, rhs.x as int, l, l, 1_000_000_000_000_000_000);
            lemma_fmul_bound(self.y as int, rhs.y as int, l, l, 1_000_000_000_000_000_000);
            lemma_fmul_bound(self.z as int, rhs.z as int, l, l, 1_000_000_000_000_000_000);
            lemma_fmul_bound(self.x as int, rhs.y as int, l, l, 1_000_000_000_000_000_000);
            lemma_fmul_bound(self.y as int, rhs.z as int, l, l, 1_000_000_000_000_000_000);
            lemma_fmul_bound(self.z as int, rhs.x as int, l, l, 1_000_000_000_000_000_000);
            lemma_fmul_bound(self.x as int, rhs.z as int, l, l, 1_000_000_000_000_000_000);
            lemma_fmul_bound(self.y as int, rhs.x as int, l, l, 1_000_000_000_000_000_000);
            lemma_fmul_bound(self.z as int, rhs.y as int, l, l, 1_000_000_000_000_000_000);
        }
        Vec3 {
            x: mul_fx(self.y, rhs.z) - mul_fx(self.z, rhs.y),
            y: mul_fx(self.z, rhs.x) - mul_fx(self.x, rhs.z),
            z: mul_fx(self.x, rhs.y) - mul_fx(self.y, rhs.x),
        }
    }

    /// Whether every component is below one quantum in magnitude, the
    /// finest threshold the representation can express for detecting a
    /// degenerate scatter direction.
    pub fn near_zero(&self) -> (r: bool)
        ensures
            r == self.is_near_zero(),
    {
        let sx = if self.x >= 0 {
            self.x
        } else if self.x == i64::MIN {
            i64::MAX
        } else {
            -self.x
        };
        let sy = if self.y >= 0 {
            self.y
        } else if self.y == i64::MIN {
            i64::MAX
        } else {
            -self.y
        };
        let sz = if self.z >= 0 {
            self.z
        } else if self.z == i64::MIN {
            i64::MAX
        } else {
            -self.z
        };
        sx < NEAR_ZERO_EPS && sy < NEAR_ZERO_EPS && sz < NEAR_ZERO_EPS
    }

    /// A vector with components drawn uniformly from `[0, 1)`.
    pub fn random() -> (r: Vec3)
        ensures
            0 <= r.x < SCALE,
            0 <= r.y < SCALE,
            0 <= r.z < SCALE,
    {
        Self::random_constrained(0, SCALE)
    }

    /// A vector with components drawn uniformly from `[min, max)`.
    pub fn random_constrained(min: i64, max: i64) -> (r: Vec3)
        requires
            -COORD_LIMIT <= min < max <= COORD_LIMIT,
        ensures
            min <= r.x < max,
            min <= r.y < max,
            min <= r.z < max,
    {
        let x = min + scaled_draw(max - min);
        let y = min + scaled_draw(max - min);
        let z = min + scaled_draw(max - min);
        Vec3 { x, y, z }
    }
}

/// Component-wise sum, as a spec-level value.
pub open spec fn spec_add(a: Vec3, b: Vec3) -> Vec3 {
    Vec3 { x: (a.x + b.x) as i64, y: (a.y + b.y) as i64, z: (a.z + b.z) as i64 }
}

/// Component-wise difference, as a spec-level value.
pub open spec fn spec_sub(a: Vec3, b: Vec3) -> Vec3 {
    Vec3 { x: (a.x - b.x) as i64, y: (a.y - b.y) as i64, z: (a.z - b.z) as i64 }
}

/// Negation, as a spec-level value.
pub open spec fn spec_neg(a: Vec3) -> Vec3 {
    Vec3 { x: (-a.x) as i64, y: (-a.y) as i64, z: (-a.z) as i64 }
}

/// Scaling by a fixed-point real, as a spec-level value.
pub open spec fn spec_scale(a: Vec3, t: int) -> Vec3 {
    Vec3 {
        x: fmul(a.x as int, t) as i64,
        y: fmul(a.y as int, t) as i64,
        z: fmul(a.z as int, t) as i64,
    }
}

/// Division by a fixed-point real, as a spec-level value.
pub open spec fn spec_divs(a: Vec3, t: int) -> Vec3 {
    Vec3 {
        x: fdiv(a.x as int, t) as i64,
        y: fdiv(a.y as int, t) as i64,
        z: fdiv(a.z as int, t) as i64,
    }
}

/// Component-wise product (color tinting), as a spec-level value.
pub open spec fn spec_mul_vec(a: Vec3, b: Vec3) -> Vec3 {
    Vec3 {
        x: fmul(a.x as int, b.x as int) as i64,
        y: fmul(a.y as int, b.y as int) as i64,
        z: fmul(a.z as int, b.z as int) as i64,
    }
}

/// A color whose channels all lie in `[0, 1]`.
pub open spec fn unit_color(c: Color) -> bool {
    0 <= c.x <= SCALE && 0 <= c.y <= SCALE && 0 <= c.z <= SCALE
}

/// Whether every component lies in `[-b, b]`.
pub fn bounded_check(v: &Vec3, b: i64) -> (r: bool)
    requires
        b >= 0,
    ensures
        r == v.bounded(b as int),
{
    -b <= v.x && v.x <= b && -b <= v.y && v.y <= b && -b <= v.z && v.z <= b
}

/// Reflecting a direction of a few units about a normal of a few units
/// stays within a few hundred units.
pub proof fn lemma_reflect_bounded(v: Vec3, n: Vec3)
    requires
        v.bounded(4 * SCALE as int),
        n.bounded(4 * SCALE as int),
    ensures
        spec_reflect(v, n).bounded(400_000_000),
{
    lemma_fmul_bound(v.x as int, n.x as int, 4_000_000, 4_000_000, 16_000_000);
    lemma_fmul_bound(v.y as int, n.y as int, 4_000_000, 4_000_000, 16_000_000);
    lemma_fmul_bound(v.z as int, n.z as int, 4_000_000, 4_000_000, 16_000_000);
    let d2 = 2 * spec_dot(v, n);
    lemma_fmul_bound(n.x as int, d2, 4_000_000, 96_000_000, 384_000_000);
    lemma_fmul_bound(n.y as int, d2, 4_000_000, 96_000_000, 384_000_000);
    lemma_fmul_bound(n.z as int, d2, 4_000_000, 96_000_000, 384_000_000);
}

/// Negation leaves the squared length unchanged.
pub proof fn lemma_neg_len2(v: Vec3)
    requires
        v.bounded(COORD_LIMIT as int),
    ensures
        spec_len2(spec_neg(v)) == spec_len2(v),
{
    assert((-(v.x as int)) * (-(v.x as int)) == (v.x as int) * (v.x as int)) by (nonlinear_arith);
    assert((-(v.y as int)) * (-(v.y as int)) == (v.y as int) * (v.y as int)) by (nonlinear_arith);
    assert((-(v.z as int)) * (-(v.z as int)) == (v.z as int) * (v.z as int)) by (nonlinear_arith);
}

/// Quantization of one color channel to 8 bits: clamp into `[0, 1]`, scale
/// by 255.999, and round down.
pub open spec fn spec_quantize(c: int) -> int {
    div_tz(clampi(c, 0, SCALE as int) * 255_999, 1_000_000_000)
}

/// The quantized channel always fits in a byte.
pub proof fn lemma_quantize_range(c: int)
    ensures
        0 <= spec_quantize(c) <= 255,
{
    let cl = clampi(c, 0, SCALE as int);
    vstd::arithmetic::mul::lemma_mul_upper_bound(cl, SCALE as int, 255_999, 255_999);
    assert(cl * 255_999 >= 0) by (nonlinear_arith)
        requires
            cl >= 0,
    ;
    vstd::arithmetic::div_mod::lemma_fundamental_div_mod_converse(
        255_999_000_000,
        1_000_000_000,
        255,
        999_000_000,
    );
    vstd::arithmetic::div_mod::lemma_div_is_ordered(cl * 255_999, 255_999_000_000, 1_000_000_000);
    vstd::arithmetic::div_mod::lemma_div_pos_is_pos(cl * 255_999, 1_000_000_000);
}

fn quantize_channel(c: i64) -> (r: u8)
    ensures
        r == spec_quantize(c as int),
{
    let cl = clamp_fx(c, 0, SCALE);
    proof {
        lemma_quantize_range(c as int);
        vstd::arithmetic::mul::lemma_mul_upper_bound(cl as int, SCALE as int, 255_999, 255_999);
        assert(cl as int * 255_999 >= 0) by (nonlinear_arith)
            requires
                cl >= 0,
        ;
    }
    let q: u64 = ((cl as u64) * 255_999) / 1_000_000_000;
    q as u8
}

impl Color {
    /// The color with every channel zero.
    pub fn black() -> (r: Color)
        ensures
            r.x == 0 && r.y == 0 && r.z == 0,
    {
        Color { x: 0, y: 0, z: 0 }
    }

    /// The color with every channel one.
    pub fn white() -> (r: Color)
        ensures
            r.x == SCALE && r.y == SCALE && r.z == SCALE,
    {
        Color { x: SCALE, y: SCALE, z: SCALE }
    }

    /// The red channel quantized to 8 bits.
    pub fn r(&self) -> (v: u8)
        ensures
            v == spec_quantize(self.x as int),
    {
        quantize_channel(self.x)
    }

    /// The green channel quantized to 8 bits.
    pub fn g(&self) -> (v: u8)
        ensures
            v == spec_quantize(self.y as int),
    {
        quantize_channel(self.y)
    }

    /// The blue channel quantized to 8 bits.
    pub fn b(&self) -> (v: u8)
        ensures
            v == spec_quantize(self.z as int),
    {
        quantize_channel(self.z)
    }

    /// In-place scaling of every channel by a fixed-point factor.
    pub fn scale(&mut self, factor: i64)
        requires
            i64::MIN <= fmul(old(self).x as int, factor as int) <= i64::MAX,
            i64::MIN <= fmul(old(self).y as int, factor as int) <= i64::MAX,
            i64::MIN <= fmul(old(self).z as int, factor as int) <= i64::MAX,
        ensures
            final (self).x == fmul(old(self).x as int, factor as int),
            final (self).y == fmul(old(self).y as int, factor as int),
            final (self).z == fmul(old(self).z as int, factor as int),
    {
        self.mul_assign(factor)
    }

    /// Gamma correction with exponent two: every channel becomes its square
    /// root.
    pub fn to_gamma_space(&mut self)
        requires
            old(self).x >= 0,
            old(self).y >= 0,
            old(self).z >= 0,
        ensures
            final (self).x == fsqrt(old(self).x as int),
            final (self).y == fsqrt(old(self).y as int),
            final (self).z == fsqrt(old(self).z as int),
    {
        self.x = sqrt_fx(self.x);
        self.y = sqrt_fx(self.y);
        self.z = sqrt_fx(self.z);
    }
}

/// A draw uniform over `[0, delta)`, in steps of `delta` quanta.
fn scaled_draw(delta: i64) -> (r: i64)
    requires
        1 <= delta <= 2 * COORD_LIMIT,
    ensures
        0 <= r < delta,
{
    let d = random_below(SCALE as u64) as i64;
    proof {
        lemma_fmul_below(delta as int, d as int);
    }
    mul_fx(delta, d)
}

proof fn lemma_len2_props(v: Vec3)
    ensures
        spec_len2(v) >= 0,
        fmul(v.x as int, v.x as int) <= spec_len2(v),
        fmul(v.y as int, v.y as int) <= spec_len2(v),
        fmul(v.z as int, v.z as int) <= spec_len2(v),
{
    lemma_fmul_sq_nonneg(v.x as int);
    lemma_fmul_sq_nonneg(v.y as int);
    lemma_fmul_sq_nonneg(v.z as int);
}

/// One component of a normalized vector is at most two in magnitude.
proof fn lemma_unit_comp(c: int, ls: int, ll: int)
    requires
        1 <= ls,
        1000 <= ll,
        0 <= fmul(c, c) <= ls,
        ll * ll <= ls * (SCALE as int),
        ls * (SCALE as int) < (ll + 1) * (ll + 1),
    ensures
        abs(div_tz(c * (SCALE as int), ll)) <= 2 * SCALE as int,
{
    let s = SCALE as int;
    // c * c <= s * ls + s - 1, from the truncation in fmul.
    assert(c * c >= 0) by (nonlinear_arith);
    vstd::arithmetic::div_mod::lemma_fundamental_div_mod(c * c, s);
    vstd::arithmetic::div_mod::lemma_remainder_upper(c * c, s);
    vstd::arithmetic::div_mod::lemma_remainder_lower(c * c, s);
    assert(c * c <= s * fmul(c, c) + s - 1);
    // 4 * ll * ll >= s * ls + s, so abs(c) <= 2 * ll.
    assert(4 * (ll * ll) >= s * ls + s) by (nonlinear_arith)
        requires
            1 <= ls,
            1000 <= ll,
            s == 1000000,
            ls * s < (ll + 1) * (ll + 1),
            ll * ll <= ls * s,
    ;
    assert(abs(c) <= 2 * ll) by (nonlinear_arith)
        requires
            c * c <= 4 * (ll * ll),
            ll >= 0,
            abs(c) == if c >= 0 {
                c
            } else {
                -c
            },
    ;
    lemma_abs_mul(c, s);
    assert(abs(c) * s <= (2 * s) * ll) by (nonlinear_arith)
        requires
            abs(c) <= 2 * ll,
            s >= 1,
            ll >= 0,
    ;
    lemma_div_tz_bound(c * s, ll, 2 * s);
}

/// Normalizing a vector of length at least one quantum keeps every
/// component within two units.
pub proof fn lemma_unit_bounded(v: Vec3)
    requires
        v.bounded(COORD_LIMIT as int),
        1 <= spec_len2(v),
    ensures
        spec_unit(v).bounded(2 * SCALE as int),
{
    let s = SCALE as int;
    let ls = spec_len2(v);
    let ll = spec_length(v);
    lemma_fsqrt_pos(ls);
    assert(ls * s >= 0) by (nonlinear_arith)
        requires
            ls >= 1,
            s >= 0,
    ;
    lemma_sqrt_floor(ls * s);
    lemma_len2_props(v);
    lemma_fmul_sq_nonneg(v.x as int);
    lemma_fmul_sq_nonneg(v.y as int);
    lemma_fmul_sq_nonneg(v.z as int);
    lemma_unit_comp(v.x as int, ls, ll);
    lemma_unit_comp(v.y as int, ls, ll);
    lemma_unit_comp(v.z as int, ls, ll);
}

/// One component of a normalized vector, squared and scaled by the squared
/// length, sits just below the component's own squared contribution.
proof fn lemma_unit_len2_comp(c: int, ls: int, ll: int)
    requires
        100_000 <= ll,
        0 <= fmul(c, c),
        fmul(c, c) <= ls,
        ll * ll <= ls * 1_000_000,
        ls * 1_000_000 <= ll * ll + 2 * ll,
    ensures
        fdiv(c, ll) * fdiv(c, ll) * (ll * ll) <= (c * c) * 1_000_000_000_000,
        fdiv(c, ll) * fdiv(c, ll) * (ll * ll) >= (c * c) * 1_000_000_000_000 - 2 * (abs(c)
            * 1_000_000) * ll,
        abs(c) <= 2 * ll,
        abs(fdiv(c, ll)) <= 2_000_000,
{
    let s: int = 1_000_000;
    let u = fdiv(c, ll);
    // The magnitude of c is at most twice the length.
    assert(c * c >= 0) by (nonlinear_arith);
    vstd::arithmetic::div_mod::lemma_fundamental_div_mod(c * c, s);
    vstd::arithmetic::div_mod::lemma_remainder_upper(c * c, s);
    vstd::arithmetic::div_mod::lemma_remainder_lower(c * c, s);
    assert(c * c <= s * fmul(c, c) + s - 1);
    assert(4 * (ll * ll) >= s * ls + s) by (nonlinear_arith)
        requires
            100_000 <= ll,
            s == 1_000_000,
            ls * s <= ll * ll + 2 * ll,
            ll * ll <= ls * s,
    ;
    assert(abs(c) <= 2 * ll) by (nonlinear_arith)
        requires
            c * c <= 4 * (ll * ll),
            ll >= 0,
            abs(c) == if c >= 0 {
                c
            } else {
                -c
            },
    ;
    // The truncated quotient against the exact one.
    lemma_abs_mul(c, s);
    crate::fixed::lemma_div_tz_mag(c * s, ll);
    let q = abs(u) as int;
    vstd::arithmetic::div_mod::lemma_fundamental_div_mod(abs(c) * s, ll);
    vstd::arithmetic::div_mod::lemma_remainder_upper(abs(c) * s, ll);
    vstd::arithmetic::div_mod::lemma_remainder_lower(abs(c) * s, ll);
    assert(u * u == q * q) by (nonlinear_arith)
        requires
            q == if u >= 0 {
                u
            } else {
                -u
            },
    ;
    assert(abs(c) * abs(c) == c * c) by (nonlinear_arith)
        requires
            abs(c) == if c >= 0 {
                c
            } else {
                -c
            },
    ;
    assert(q * ll <= abs(c) * s);
    assert(abs(c) * s < (q + 1) * ll) by (nonlinear_arith)
        requires
            abs(c) * s == ll * q + (abs(c) * s) % ll,
            (abs(c) * s) % ll < ll,
            q == (abs(c) * s) / ll,
    ;
    // Upper square bound.
    assert(u * u * (ll * ll) <= (c * c) * (s * s)) by (nonlinear_arith)
        requires
            q * ll <= abs(c) * s,
            q >= 0,
            ll >= 1,
            abs(c) >= 0,
            u * u == q * q,
            abs(c) * abs(c) == c * c,
    ;
    // Lower square bound.
    if abs(c) * s >= ll {
        assert(q * ll >= abs(c) * s - ll) by (nonlinear_arith)
            requires
                abs(c) * s < (q + 1) * ll,
    ;
        assert(u * u * (ll * ll) >= (c * c) * (s * s) - 2 * (abs(c) * s) * ll) by (nonlinear_arith)
            requires
                q * ll >= abs(c) * s - ll,
                abs(c) * s - ll >= 0,
                q >= 0,
                ll >= 1,
                u * u == q * q,
                abs(c) * abs(c) == c * c,
    ;
    } else {
        assert(q == 0) by (nonlinear_arith)
            requires
                q * ll <= abs(c) * s,
                abs(c) * s < ll,
                q >= 0,
                ll >= 1,
    ;
        assert(u * u * (ll * ll) >= (c * c) * (s * s) - 2 * (abs(c) * s) * ll) by (nonlinear_arith)
            requires
                abs(c) * s < ll,
                abs(c) >= 0,
                s >= 1,
                ll >= 1,
                u == 0,
                abs(c) * abs(c) == c * c,
    ;
    }
    assert((c * c) * (s * s) == (c * c) * 1_000_000_000_000) by (nonlinear_arith)
        requires
            s == 1_000_000,
    ;
    assert(2 * (abs(c) * s) * ll == 2 * (abs(c) * 1_000_000) * ll) by (nonlinear_arith)
        requires
            s == 1_000_000,
    ;
    // Component bound of the quotient itself.
    assert(abs(c) * s <= (2 * s) * ll) by (nonlinear_arith)
        requires
            abs(c) <= 2 * ll,
            s >= 1,
            ll >= 0,
    ;
    lemma_div_tz_bound(c * s, ll, 2 * s);
}

/// Normalizing any vector of length at least one tenth yields a vector
/// whose squared length lies within 0.0005 of one.
pub proof fn lemma_unit_length_close(v: Vec3)
    requires
        v.bounded(COORD_LIMIT as int),
        10_000 <= spec_len2(v),
    ensures
        SCALE as int - 500 <= spec_len2(spec_unit(v)) <= SCALE as int + 500,
{
    let s: int = 1_000_000;
    let ls = spec_len2(v);
    let ll = spec_length(v);
    let cx = v.x as int;
    let cy = v.y as int;
    let cz = v.z as int;
    lemma_fmul_sq_nonneg(cx);
    lemma_fmul_sq_nonneg(cy);
    lemma_fmul_sq_nonneg(cz);
    // The length is at least a tenth, with its square-root characterization.
    assert(ls * s >= 10_000_000_000) by (nonlinear_arith)
        requires
            ls >= 10_000,
            s == 1_000_000,
    ;
    lemma_sqrt_floor(ls * s);
    lemma_sqrt_unique(10_000_000_000, 100_000);
    lemma_sqrt_le(10_000_000_000, ls * s);
    assert(ll >= 100_000);
    assert(ll * ll <= ls * s);
    assert(ls * s <= ll * ll + 2 * ll) by (nonlinear_arith)
        requires
            ls * s < (ll + 1) * (ll + 1),
    ;
    lemma_unit_len2_comp(cx, ls, ll);
    lemma_unit_len2_comp(cy, ls, ll);
    lemma_unit_len2_comp(cz, ls, ll);
    let ux = fdiv(cx, ll);
    let uy = fdiv(cy, ll);
    let uz = fdiv(cz, ll);
    assert(spec_unit(v).x == ux && spec_unit(v).y == uy && spec_unit(v).z == uz);
    // The exact component squares bracket the scaled squared length.
    assert(cx * cx >= 0 && cy * cy >= 0 && cz * cz >= 0) by (nonlinear_arith);
    vstd::arithmetic::div_mod::lemma_fundamental_div_mod(cx * cx, s);
    vstd::arithmetic::div_mod::lemma_remainder_upper(cx * cx, s);
    vstd::arithmetic::div_mod::lemma_remainder_lower(cx * cx, s);
    vstd::arithmetic::div_mod::lemma_fundamental_div_mod(cy * cy, s);
    vstd::arithmetic::div_mod::lemma_remainder_upper(cy * cy, s);
    vstd::arithmetic::div_mod::lemma_remainder_lower(cy * cy, s);
    vstd::arithmetic::div_mod::lemma_fundamental_div_mod(cz * cz, s);
    vstd::arithmetic::div_mod::lemma_remainder_upper(cz * cz, s);
    vstd::arithmetic::div_mod::lemma_remainder_lower(cz * cz, s);
    let csq = cx * cx + cy * cy + cz * cz;
    assert(s * ls <= csq && csq <= s * ls + 3 * s);
    let squ = ux * ux + uy * uy + uz * uz;
    // Sum the per-component square bounds.
    assert(squ * (ll * ll) <= csq * 1_000_000_000_000 && squ * (ll * ll) >= csq
        * 1_000_000_000_000 - 2 * ((abs(cx) + abs(cy) + abs(cz)) * 1_000_000) * ll)
        by (nonlinear_arith)
        requires
            ux * ux * (ll * ll) <= (cx * cx) * 1_000_000_000_000,
            uy * uy * (ll * ll) <= (cy * cy) * 1_000_000_000_000,
            uz * uz * (ll * ll) <= (cz * cz) * 1_000_000_000_000,
            ux * ux * (ll * ll) >= (cx * cx) * 1_000_000_000_000 - 2 * (abs(cx) * 1_000_000) * ll,
            uy * uy * (ll * ll) >= (cy * cy) * 1_000_000_000_000 - 2 * (abs(cy) * 1_000_000) * ll,
            uz * uz * (ll * ll) >= (cz * cz) * 1_000_000_000_000 - 2 * (abs(cz) * 1_000_000) * ll,
            squ == ux * ux + uy * uy + uz * uz,
            csq == cx * cx + cy * cy + cz * cz,
    ;
    // Upper bound: the length is short enough only by truncation.
    assert(ll <= 10 * ls) by (nonlinear_arith)
        requires
            ll * ll <= ls * s,
            ll >= 100_000,
            s == 1_000_000,
            ls >= 0,
    ;
    assert(csq * 1_000_000_000_000 <= 1_000_450_000_000 * (ll * ll)) by (nonlinear_arith)
        requires
            csq <= s * ls + 3 * s,
            s == 1_000_000,
            ls >= 10_000,
            ll <= 10 * ls,
            ll * ll >= ls * s - 2 * ll,
            ll >= 100_000,
    ;
    assert(squ <= 1_000_450_000_000) by (nonlinear_arith)
        requires
            squ * (ll * ll) <= 1_000_450_000_000 * (ll * ll),
            ll >= 1,
    ;
    // Lower bound: the dropped fractions cost a bounded amount.
    assert(abs(cx) + abs(cy) + abs(cz) <= 6 * ll);
    assert(squ * (ll * ll) >= 999_988_000_000 * (ll * ll)) by (nonlinear_arith)
        requires
            squ * (ll * ll) >= csq * 1_000_000_000_000 - 2 * ((abs(cx) + abs(cy) + abs(cz))
                * 1_000_000) * ll,
            abs(cx) + abs(cy) + abs(cz) <= 6 * ll,
            csq >= s * ls,
            s == 1_000_000,
            ll * ll <= ls * s,
            ll >= 1,
    ;
    assert(squ >= 999_988_000_000) by (nonlinear_arith)
        requires
            squ * (ll * ll) >= 999_988_000_000 * (ll * ll),
            ll >= 1,
    ;
    // From the sum of exact squares to the truncated squared length.
    assert(ux * ux >= 0 && uy * uy >= 0 && uz * uz >= 0) by (nonlinear_arith);
    vstd::arithmetic::div_mod::lemma_fundamental_div_mod(ux * ux, s);
    vstd::arithmetic::div_mod::lemma_remainder_upper(ux * ux, s);
    vstd::arithmetic::div_mod::lemma_remainder_lower(ux * ux, s);
    vstd::arithmetic::div_mod::lemma_fundamental_div_mod(uy * uy, s);
    vstd::arithmetic::div_mod::lemma_remainder_upper(uy * uy, s);
    vstd::arithmetic::div_mod::lemma_remainder_lower(uy * uy, s);
    vstd::arithmetic::div_mod::lemma_fundamental_div_mod(uz * uz, s);
    vstd::arithmetic::div_mod::lemma_remainder_upper(uz * uz, s);
    vstd::arithmetic::div_mod::lemma_remainder_lower(uz * uz, s);
    let lu = spec_len2(spec_unit(v));
    assert(s * lu <= squ && squ <= s * lu + 3 * s);
    assert(lu <= 1_000_450 && lu >= 999_985) by (nonlinear_arith)
        requires
            s * lu <= squ,
            squ <= s * lu + 3 * s,
            999_988_000_000 <= squ <= 1_000_450_000_000,
            s == 1_000_000,
    ;
}

/// A vector whose squared length is exactly one is untouched by
/// normalization, and the normalized vector's length is exactly one.
pub proof fn lemma_unit_identity(v: Vec3)
    requires
        spec_len2(v) == SCALE as int,
    ensures
        spec_unit(v) == v,
        spec_length(spec_unit(v)) == SCALE as int,
{
    let s = SCALE as int;
    lemma_sqrt_unique(s * s, s);
    assert(spec_length(v) == s);
    lemma_div_tz_exact(v.x as int, s);
    lemma_div_tz_exact(v.y as int, s);
    lemma_div_tz_exact(v.z as int, s);
    assert(spec_unit(v) == v);
}

/// The unit normals that the fixed-point representation reflects exactly:
/// those aligned with a coordinate axis.
pub open spec fn axis_unit(n: Vec3) -> bool {
    (abs(n.x as int) == SCALE as int && n.y == 0 && n.z == 0) || (n.x == 0 && abs(n.y as int)
        == SCALE as int && n.z == 0) || (n.x == 0 && n.y == 0 && abs(n.z as int) == SCALE as int)
}

/// Reflecting twice about the same axis-aligned unit normal returns the
/// original vector.
pub proof fn lemma_reflect_involution(v: Vec3, n: Vec3)
    requires
        v.bounded(COORD_LIMIT as int),
        axis_unit(n),
    ensures
        spec_reflect(spec_reflect(v, n), n) == v,
{
    lemma_fmul_one(v.x as int);
    lemma_fmul_one(v.y as int);
    lemma_fmul_one(v.z as int);
    lemma_fmul_one(2 * v.x as int);
    lemma_fmul_one(2 * v.y as int);
    lemma_fmul_one(2 * v.z as int);
    lemma_fmul_one(-2 * v.x as int);
    lemma_fmul_one(-2 * v.y as int);
    lemma_fmul_one(-2 * v.z as int);
    let r1 = spec_reflect(v, n);
    lemma_fmul_one(r1.x as int);
    lemma_fmul_one(r1.y as int);
    lemma_fmul_one(r1.z as int);
    lemma_fmul_one(2 * r1.x as int);
    lemma_fmul_one(2 * r1.y as int);
    lemma_fmul_one(2 * r1.z as int);
    lemma_fmul_one(-2 * r1.x as int);
    lemma_fmul_one(-2 * r1.y as int);
    lemma_fmul_one(-2 * r1.z as int);
}

/// Mirror reflection about a normal.
pub fn reflect(v: &Vec3, n: &Vec3) -> (r: Vec3)
    requires
        v.bounded(1_000_000_000),
        n.bounded(4 * SCALE as int),
    ensures
        r == spec_reflect(*v, *n),
        r.bounded(200_000_000_000),
{
    let d = v.dot(n);
    proof {
        lemma_fmul_bound(v.x as int, n.x as int, 1_000_000_000, 4 * SCALE as int, 4_000_000_000);
        lemma_fmul_bound(v.y as int, n.y as int, 1_000_000_000, 4 * SCALE as int, 4_000_000_000);
        lemma_fmul_bound(v.z as int, n.z as int, 1_000_000_000, 4 * SCALE as int, 4_000_000_000);
        lemma_fmul_bound(
            n.x as int,
            2 * d as int,
            4 * SCALE as int,
            24_000_000_000,
            96_000_000_000,
        );
        lemma_fmul_bound(
            n.y as int,
            2 * d as int,
            4 * SCALE as int,
            24_000_000_000,
            96_000_000_000,
        );
        lemma_fmul_bound(
            n.z as int,
            2 * d as int,
            4 * SCALE as int,
            24_000_000_000,
            96_000_000_000,
        );
    }
    let t: i64 = 2 * d;
    let s = n.mul(t);
    v.sub(&s)
}

/// Snell-law refraction of the unit direction `uv` at a surface with unit
/// normal `n`: the transmitted direction is rebuilt from its components
/// perpendicular and parallel to the normal.
pub open spec fn spec_refract(uv: Vec3, n: Vec3, eta: int) -> Vec3 {
    let cos = clampi(-spec_dot(uv, n), -(SCALE as int), SCALE as int);
    let px = fmul(uv.x + fmul(n.x as int, cos), eta);
    let py = fmul(uv.y + fmul(n.y as int, cos), eta);
    let pz = fmul(uv.z + fmul(n.z as int, cos), eta);
    let perp = Vec3 { x: px as i64, y: py as i64, z: pz as i64 };
    let k = clampi(SCALE as int - spec_len2(perp), 0, SCALE as int);
    let sq = fsqrt(k);
    Vec3 {
        x: (px + fmul(n.x as int, -sq)) as i64,
        y: (py + fmul(n.y as int, -sq)) as i64,
        z: (pz + fmul(n.z as int, -sq)) as i64,
    }
}

/// Snell-law refraction (see `spec_refract`).  The perpendicular component
/// is clamped into the representable range before the square root, the
/// numeric guard for inputs that are not exactly unit length.
pub fn refract(uv: &Vec3, n: &Vec3, etai_over_etat: i64) -> (r: Vec3)
    requires
        uv.bounded(4 * SCALE as int),
        n.bounded(4 * SCALE as int),
        0 < etai_over_etat <= 10 * SCALE,
    ensures
        r == spec_refract(*uv, *n, etai_over_etat as int),
        r.bounded(1_000_000_000),
{
    let ghost s4: int = 4 * SCALE as int;
    let d = uv.dot(n);
    let cos = clamp_fx(-d, -SCALE, SCALE);
    proof {
        lemma_fmul_bound(n.x as int, cos as int, s4, SCALE as int, s4);
        lemma_fmul_bound(n.y as int, cos as int, s4, SCALE as int, s4);
        lemma_fmul_bound(n.z as int, cos as int, s4, SCALE as int, s4);
    }
    let scaled_n = n.mul(cos);
    let sum = uv.add(&scaled_n);
    proof {
        lemma_fmul_bound(
            sum.x as int,
            etai_over_etat as int,
            8 * SCALE as int,
            10 * SCALE as int,
            80_000_000,
        );
        lemma_fmul_bound(
            sum.y as int,
            etai_over_etat as int,
            8 * SCALE as int,
            10 * SCALE as int,
            80_000_000,
        );
        lemma_fmul_bound(
            sum.z as int,
            etai_over_etat as int,
            8 * SCALE as int,
            10 * SCALE as int,
            80_000_000,
        );
    }
    let perp = sum.mul(etai_over_etat);
    let l2 = perp.length_squared();
    let k = clamp_fx(SCALE - l2, 0, SCALE);
    let sq = sqrt_fx(k);
    proof {
        lemma_fsqrt_unit(k as int);
        lemma_fmul_bound(n.x as int, -(sq as int), s4, SCALE as int, s4);
        lemma_fmul_bound(n.y as int, -(sq as int), s4, SCALE as int, s4);
        lemma_fmul_bound(n.z as int, -(sq as int), s4, SCALE as int, s4);
    }
    let par = n.mul(-sq);
    perp.add(&par)
}

/// A uniformly random point strictly inside the unit sphere, kept away
/// from the origin (radius at least a tenth) so that normalizing it is
/// well conditioned; discarding a radius range uniformly leaves the
/// direction distribution unchanged.  Rejection sampling with a bounded
/// number of attempts; a fixed interior point stands in if every attempt
/// is rejected.
fn random_in_unit_sphere() -> (r: Vec3)
    ensures
        r.bounded(SCALE as int),
        10_000 <= spec_len2(r) < SCALE,
{
    let mut tries: u64 = 64;
    loop
        invariant
            tries >= 1,
        decreases tries,
    {
        let p = Vec3::random_constrained(-SCALE, SCALE);
        let ls = p.length_squared();
        if 10_000 <= ls && ls < SCALE {
            return p;
        }
        if tries == 1 {
            let q = Vec3 { x: 500_000, y: 0, z: 0 };
            proof {
                lemma_fallback_len2(q);
            }
            return q;
        }
        tries = tries - 1;
    }
}

proof fn lemma_fallback_len2(q: Vec3)
    requires
        q.x == 500_000,
        q.y == 0,
        q.z == 0,
    ensures
        spec_len2(q) == 250_000,
{
    lemma_fmul_one(0);
    vstd::arithmetic::div_mod::lemma_fundamental_div_mod_converse(
        250_000_000_000,
        SCALE as int,
        250_000,
        0,
    );
}

/// What the unit-direction sampler promises of its result: the
/// normalization of some nonzero vector inside the unit sphere, with
/// squared length within 0.0005 of one.
pub open spec fn valid_unit_sample(u: Vec3) -> bool {
    u.bounded(2 * SCALE as int) && SCALE as int - 500 <= spec_len2(u) <= SCALE as int + 500
        && exists|p: Vec3|
        p.bounded(SCALE as int) && 1 <= spec_len2(p) < SCALE && u == #[trigger] spec_unit(p)
}

/// Negating one argument negates a dot product.
pub proof fn lemma_neg_dot(a: Vec3, b: Vec3)
    requires
        a.bounded(COORD_LIMIT as int),
    ensures
        spec_dot(spec_neg(a), b) == -spec_dot(a, b),
{
    assert((-(a.x as int)) * (b.x as int) == -((a.x as int) * (b.x as int))) by (nonlinear_arith);
    assert((-(a.y as int)) * (b.y as int) == -((a.y as int) * (b.y as int))) by (nonlinear_arith);
    assert((-(a.z as int)) * (b.z as int) == -((a.z as int) * (b.z as int))) by (nonlinear_arith);
    lemma_div_tz_neg((a.x as int) * (b.x as int), SCALE as int);
    lemma_div_tz_neg((a.y as int) * (b.y as int), SCALE as int);
    lemma_div_tz_neg((a.z as int) * (b.z as int), SCALE as int);
}

/// A random direction of unit length, up to the fixed-point rounding of
/// normalization: its squared length is within 0.0005 of one.
pub fn random_unit_vector() -> (r: Vec3)
    ensures
        valid_unit_sample(r),
{
    let p = random_in_unit_sphere();
    proof {
        lemma_unit_bounded(p);
        lemma_unit_length_close(p);
    }
    let u = p.unit();
    proof {
        assert(p.bounded(SCALE as int) && 1 <= spec_len2(p) < SCALE && u == spec_unit(p));
    }
    u
}

/// A random unit direction in the half space of `normal`: a drawn unit
/// sample, negated if it pointed away.
pub fn random_on_hemisphere(normal: &Vec3) -> (r: Vec3)
    requires
        normal.bounded(COORD_LIMIT as int),
    ensures
        r.bounded(2 * SCALE as int),
        SCALE as int - 500 <= spec_len2(r) <= SCALE as int + 500,
        spec_dot(r, *normal) >= 0,
        exists|u: Vec3| #[trigger] valid_unit_sample(u) && r == (if spec_dot(u, *normal) > 0 {
            u
        } else {
            spec_neg(u)
        }),
{
    let v = random_unit_vector();
    if v.dot(normal) > 0 {
        v
    } else {
        let w = v.neg();
        proof {
            lemma_neg_dot(v, *normal);
            lemma_neg_len2(v);
            assert(w == spec_neg(v));
        }
        w
    }
}

/// A uniformly random point strictly inside the unit disk of the x-y
/// plane, for sampling the defocus aperture.  Rejection sampling with a
/// bounded number of attempts; the center stands in if every attempt is
/// rejected.
pub fn random_in_unit_disk() -> (r: Vec3)
    ensures
        r.bounded(SCALE as int),
        spec_len2(r) < SCALE,
        r.z == 0,
{
    let mut tries: u64 = 64;
    loop
        invariant
            tries >= 1,
        decreases tries,
    {
        let x = -SCALE + scaled_draw(2 * SCALE);
        let y = -SCALE + scaled_draw(2 * SCALE);
        let p = Vec3 { x, y, z: 0 };
        let ls = p.length_squared();
        if ls < SCALE {
            return p;
        }
        if tries == 1 {
            let q = Vec3 { x: 0, y: 0, z: 0 };
            proof {
                lemma_fmul_one(0);
            }
            return q;
        }
        tries = tries - 1;
    }
}

} // verus!
