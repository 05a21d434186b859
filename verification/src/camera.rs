//! Camera and renderer: viewport geometry derived from a configuration,
//! primary-ray generation with antialiasing jitter and optional defocus
//! blur, the bounded-depth shading recursion, and the pixel loop that
//! averages samples, gamma-corrects, and quantizes into an RGB byte buffer.

use vstd::prelude::*;

verus! {

use crate::fixed::SCALE;
use crate::fixed::clampi;
use crate::fixed::clamp_fx;
use crate::fixed::div_fx;
use crate::fixed::div_tz;
use crate::fixed::divi_fx;
use crate::fixed::fdiv;
use crate::fixed::fmul;
use crate::fixed::lemma_abs_mul;
use crate::fixed::lemma_div_tz_bound;
use crate::fixed::lemma_div_tz_exact;
use crate::fixed::lemma_div_tz_le;
use crate::fixed::lemma_fmul_bound;
use crate::fixed::lemma_fmul_one;
use crate::fixed::lemma_fmul_unit;
use crate::fixed::mul_fx;
use crate::fixed::fsqrt;
use crate::hit::Hittable;
use crate::material::Material;
use crate::material::scatter_admits;
use crate::interval::INFINITY_T;
use crate::interval::Interval;
use crate::ray::Ray;
use crate::rng::random_below;
use crate::vec3::Color;
use crate::vec3::Vec3;
use crate::vec3::lemma_unit_bounded;
use crate::vec3::random_in_unit_disk;
use crate::vec3::spec_cross;
use crate::vec3::spec_divs;
use crate::vec3::spec_len2;
use crate::vec3::spec_mul_vec;
use crate::vec3::spec_neg;
use crate::vec3::spec_quantize;
use crate::vec3::spec_scale;
use crate::vec3::spec_sub;
use crate::vec3::spec_unit;
use vstd::math::abs;

/// One quantum below `0.001`: the lower end of the tracing window, which
/// suppresses self-intersection of a bounced ray with its own origin.
pub const T_EPSILON: i64 = 1_000;

/// Radians per degree, rounded down to the quantum.
pub const RAD_PER_DEG: i64 = 17_453;

/// Sine by its Taylor polynomial of degree seven, for arguments in
/// `[0, 1.4]` radians.
pub open spec fn spec_sin(x: int) -> int {
    let x2 = fmul(x, x);
    let x3 = fmul(x2, x);
    let x5 = fmul(x3, x2);
    let x7 = fmul(x5, x2);
    x - div_tz(x3, 6) + div_tz(x5, 120) - div_tz(x7, 5040)
}

/// Cosine by its Taylor polynomial of degree six, for arguments in
/// `[0, 1.4]` radians.
pub open spec fn spec_cos(x: int) -> int {
    let x2 = fmul(x, x);
    let x4 = fmul(x2, x2);
    let x6 = fmul(x4, x2);
    SCALE as int - div_tz(x2, 2) + div_tz(x4, 24) - div_tz(x6, 720)
}

/// Tangent as the quotient of the two polynomials, clamped into `[0, 6]`
/// (the value at 1.4 radians is about 5.8); a non-positive cosine, which
/// the admitted argument range never produces, falls back to one.
pub open spec fn spec_tan(x: int) -> int {
    let c = spec_cos(x);
    let cg = if c <= 0 {
        SCALE as int
    } else {
        c
    };
    clampi(fdiv(spec_sin(x), cg), 0, 6_000_000)
}

/// Tangent of an angle in `[0, 1.4]` radians (see `spec_tan`).
pub fn tan_fx(x: i64) -> (r: i64)
    requires
        0 <= x <= 1_400_000,
    ensures
        r == spec_tan(x as int),
        0 <= r <= 6_000_000,
{
    proof {
        lemma_fmul_bound(x as int, x as int, 1_400_000, 1_400_000, 1_960_000);
        crate::fixed::lemma_fmul_sq_nonneg(x as int);
    }
    let x2 = mul_fx(x, x);
    proof {
        lemma_fmul_bound(x2 as int, x as int, 1_960_000, 1_400_000, 2_744_000);
        lemma_fmul_bound(x2 as int, x2 as int, 1_960_000, 1_960_000, 3_841_600);
    }
    let x3 = mul_fx(x2, x);
    let x4 = mul_fx(x2, x2);
    proof {
        lemma_fmul_bound(x3 as int, x2 as int, 2_744_000, 1_960_000, 5_378_240);
        lemma_fmul_bound(x4 as int, x2 as int, 3_841_600, 1_960_000, 7_529_536);
    }
    let x5 = mul_fx(x3, x2);
    let x6 = mul_fx(x4, x2);
    proof {
        lemma_fmul_bound(x5 as int, x2 as int, 5_378_240, 1_960_000, 10_541_351);
        lemma_div_tz_le(x3 as int, 6);
        lemma_div_tz_le(x5 as int, 120);
        lemma_div_tz_le(x2 as int, 2);
        lemma_div_tz_le(x4 as int, 24);
        lemma_div_tz_le(x6 as int, 720);
    }
    let x7 = mul_fx(x5, x2);
    proof {
        lemma_div_tz_le(x7 as int, 5040);
    }
    let sin = x - divi_fx(x3, 6) + divi_fx(x5, 120) - divi_fx(x7, 5040);
    let cos = SCALE - divi_fx(x2, 2) + divi_fx(x4, 24) - divi_fx(x6, 720);
    let cg = if cos <= 0 {
        SCALE
    } else {
        cos
    };
    proof {
        lemma_abs_mul(sin as int, SCALE as int);
        lemma_div_tz_le(sin as int * SCALE as int, cg as int);
    }
    clamp_fx(div_fx(sin, cg), 0, 6_000_000)
}

/// The clamped tangent of half the given angle in degrees.
pub open spec fn spec_half_tan(deg: int) -> int {
    spec_tan(fmul(div_tz(deg, 2), RAD_PER_DEG as int))
}

/// Tangent of half an angle given in degrees, for angles in `[0, 160]`.
pub fn half_tan(deg: i64) -> (r: i64)
    requires
        0 <= deg <= 160_000_000,
    ensures
        r == spec_half_tan(deg as int),
        0 <= r <= 6_000_000,
{
    proof {
        lemma_div_tz_le(deg as int, 2);
        crate::fixed::lemma_div_tz_nonneg(deg as int, 2);
    }
    let half = divi_fx(deg, 2);
    proof {
        lemma_fmul_bound(half as int, RAD_PER_DEG as int, 80_000_000, 17_453, 1_396_240);
        crate::fixed::lemma_fmul_nonneg(half as int, RAD_PER_DEG as int);
    }
    let rad = mul_fx(half, RAD_PER_DEG);
    tan_fx(rad)
}

/// Every component magnitude, multiplied by `k`, stays below `b`; the form
/// in which the per-pixel delta vectors stay small across a whole row or
/// column of the image.
pub open spec fn scaled_bound(v: Vec3, k: int, b: int) -> bool {
    abs(v.x as int) * k <= b && abs(v.y as int) * k <= b && abs(v.z as int) * k <= b
}

/// The camera configuration: everything the derived geometry is computed
/// from.
pub struct CameraBuilder {
    pub image_width: u32,
    pub aspect_ratio: i64,
    pub samples: u32,
    pub max_depth: u32,
    pub v_fov: i64,
    pub look_at: Vec3,
    pub look_from: Vec3,
    pub v_up: Vec3,
    pub focus_dist: i64,
    pub defocus_angle: i64,
}

/// The camera with its derived, immutable viewport geometry.
pub struct Camera {
    pub image_width: u32,
    pub image_height: u32,
    pub aspect_ratio: i64,
    pub camera_center: Vec3,
    pub pixel_delta_u: Vec3,
    pub pixel_delta_v: Vec3,
    pub pixel00_loc: Vec3,
    pub samples: u32,
    pub max_depth: u32,
    pub look_from: Vec3,
    pub look_at: Vec3,
    pub v_up: Vec3,
    pub u: Vec3,
    pub v: Vec3,
    pub w: Vec3,
    pub defocus_angle: i64,
    pub focus_dist: i64,
    pub defocus_disk_u: Vec3,
    pub defocus_disk_v: Vec3,
}

/// Image height: width over aspect ratio, floored at one.
pub open spec fn spec_height(b: CameraBuilder) -> int {
    let h = div_tz(b.image_width as int * (SCALE as int), b.aspect_ratio as int);
    if h < 1 {
        1
    } else {
        h
    }
}

/// The actual width-to-height ratio of the raster.
pub open spec fn spec_w_over_h(b: CameraBuilder) -> int {
    div_tz(b.image_width as int * (SCALE as int), spec_height(b))
}

/// Viewport height: twice the half-angle tangent times the focus distance.
pub open spec fn spec_viewport_height(b: CameraBuilder) -> int {
    fmul(2 * spec_half_tan(b.v_fov as int), b.focus_dist as int)
}

/// Viewport width: viewport height times the raster's ratio.
pub open spec fn spec_viewport_width(b: CameraBuilder) -> int {
    fmul(spec_viewport_height(b), spec_w_over_h(b))
}

/// Basis vector pointing from the target to the eye.
pub open spec fn spec_w_vec(b: CameraBuilder) -> Vec3 {
    spec_unit(spec_sub(b.look_from, b.look_at))
}

/// Basis vector pointing to the camera's right.
pub open spec fn spec_u_vec(b: CameraBuilder) -> Vec3 {
    spec_unit(spec_cross(b.v_up, spec_w_vec(b)))
}

/// Basis vector pointing to the camera's up.
pub open spec fn spec_v_vec(b: CameraBuilder) -> Vec3 {
    spec_cross(spec_w_vec(b), spec_u_vec(b))
}

/// World-space vector across the viewport's top edge.
pub open spec fn spec_viewport_u(b: CameraBuilder) -> Vec3 {
    spec_scale(spec_u_vec(b), spec_viewport_width(b))
}

/// World-space vector down the viewport's left edge.
pub open spec fn spec_viewport_v(b: CameraBuilder) -> Vec3 {
    spec_scale(spec_neg(spec_v_vec(b)), spec_viewport_height(b))
}

/// Pixel-to-pixel horizontal step.
pub open spec fn spec_pixel_delta_u(b: CameraBuilder) -> Vec3 {
    spec_divs(spec_viewport_u(b), b.image_width as int * (SCALE as int))
}

/// Pixel-to-pixel vertical step.
pub open spec fn spec_pixel_delta_v(b: CameraBuilder) -> Vec3 {
    spec_divs(spec_viewport_v(b), spec_height(b) * (SCALE as int))
}

/// World-space location of the center of pixel (0, 0).
pub open spec fn spec_pixel00(b: CameraBuilder) -> Vec3 {
    let upper_left = spec_sub(
        spec_sub(
            spec_sub(b.look_from, spec_scale(spec_w_vec(b), b.focus_dist as int)),
            spec_divs(spec_viewport_u(b), 2 * SCALE as int),
        ),
        spec_divs(spec_viewport_v(b), 2 * SCALE as int),
    );
    crate::vec3::spec_add(
        upper_left,
        spec_scale(crate::vec3::spec_add(spec_pixel_delta_u(b), spec_pixel_delta_v(b)), 500_000),
    )
}

/// Radius of the defocus disk.
pub open spec fn spec_defocus_radius(b: CameraBuilder) -> int {
    fmul(spec_half_tan(b.defocus_angle as int), b.focus_dist as int)
}

impl CameraBuilder {
    /// A configuration the fixed-point pipeline supports: dimensions and
    /// sampling parameters within machine limits, angles within the range
    /// of the tangent approximation, and a non-degenerate eye/target/up
    /// triple.  The caps on the aspect ratio (ten) and the focus distance
    /// (fifty units) keep the derived viewport, whose width grows with
    /// their product, inside the coordinate range where ray generation
    /// cannot overflow.
    pub open spec fn wf(self) -> bool {
        &&& 1 <= self.image_width <= 10_000
        &&& 100_000 <= self.aspect_ratio <= 10_000_000
        &&& 1 <= self.samples <= 100_000
        &&& 0 < self.v_fov <= 160_000_000
        &&& 0 <= self.defocus_angle <= 160_000_000
        &&& 1 <= self.focus_dist <= 50_000_000
        &&& self.look_from.bounded(1_000_000_000)
        &&& self.look_at.bounded(1_000_000_000)
        &&& self.v_up.bounded(1_000_000_000)
        &&& spec_len2(spec_sub(self.look_from, self.look_at)) >= 1
        &&& spec_len2(spec_cross(self.v_up, spec_w_vec(self))) >= 1
    }

    /// The default configuration: a pinhole camera with no depth of field.
    pub fn new() -> (b: CameraBuilder)
        ensures
            b.image_width == 400,
            b.aspect_ratio == 1_777_777,
            b.samples == 100,
            b.max_depth == 50,
            b.v_fov == 90_000_000,
            b.look_from == (Vec3 { x: 0, y: 0, z: -1_000_000i64 }),
            b.look_at == (Vec3 { x: 0, y: 0, z: 0 }),
            b.v_up == (Vec3 { x: 0, y: 1_000_000, z: 0 }),
            b.focus_dist == 10_000_000,
            b.defocus_angle == 0,
    {
        CameraBuilder {
            image_width: 400,
            aspect_ratio: 1_777_777,
            samples: 100,
            max_depth: 50,
            v_fov: 90_000_000,
            look_from: Vec3 { x: 0, y: 0, z: -1_000_000 },
            look_at: Vec3 { x: 0, y: 0, z: 0 },
            v_up: Vec3 { x: 0, y: 1_000_000, z: 0 },
            focus_dist: 10_000_000,
            defocus_angle: 0,
        }
    }

    pub fn image_width(&mut self, image_width: u32)
        ensures
            *final (self) == (CameraBuilder { image_width, ..*old(self) }),
    {
        self.image_width = image_width;
    }

    pub fn aspect_ratio(&mut self, aspect_ratio: i64)
        ensures
            *final (self) == (CameraBuilder { aspect_ratio, ..*old(self) }),
    {
        self.aspect_ratio = aspect_ratio;
    }

    pub fn samples(&mut self, samples: u32)
        ensures
            *final (self) == (CameraBuilder { samples, ..*old(self) }),
    {
        self.samples = samples;
    }

    pub fn max_depth(&mut self, max_depth: u32)
        ensures
            *final (self) == (CameraBuilder { max_depth, ..*old(self) }),
    {
        self.max_depth = max_depth;
    }

    pub fn v_fov(&mut self, v_fov: i64)
        ensures
            *final (self) == (CameraBuilder { v_fov, ..*old(self) }),
    {
        self.v_fov = v_fov;
    }

    pub fn look_at(&mut self, look_at: Vec3)
        ensures
            *final (self) == (CameraBuilder { look_at, ..*old(self) }),
    {
        self.look_at = look_at;
    }

    pub fn look_from(&mut self, look_from: Vec3)
        ensures
            *final (self) == (CameraBuilder { look_from, ..*old(self) }),
    {
        self.look_from = look_from;
    }

    pub fn v_up(&mut self, v_up: Vec3)
        ensures
            *final (self) == (CameraBuilder { v_up, ..*old(self) }),
    {
        self.v_up = v_up;
    }

    pub fn focus_dist(&mut self, focus_dist: i64)
        ensures
            *final (self) == (CameraBuilder { focus_dist, ..*old(self) }),
    {
        self.focus_dist = focus_dist;
    }

    pub fn defocus_angle(&mut self, defocus_angle: i64)
        ensures
            *final (self) == (CameraBuilder { defocus_angle, ..*old(self) }),
    {
        self.defocus_angle = defocus_angle;
    }

    /// Derive the camera from this configuration.
    pub fn build(&self) -> (c: Camera)
        requires
            self.wf(),
        ensures
            c == Camera::spec_from(*self),
            c.wf(),
    {
        Camera::from(self)
    }
}

/// The raster ratio stays below twenty: the aspect ratio is at most ten,
/// and flooring the height loses at most a factor of two.
proof fn lemma_w_over_h(b: CameraBuilder)
    requires
        1 <= b.image_width <= 10_000,
        100_000 <= b.aspect_ratio <= 10_000_000,
    ensures
        1 <= spec_height(b) <= 100_000,
        0 <= spec_w_over_h(b) <= 20_000_000,
{
    let s = SCALE as int;
    let w = b.image_width as int;
    let a = b.aspect_ratio as int;
    let ws = w * s;
    let hr = div_tz(ws, a);
    let h = spec_height(b);
    assert(s == 1_000_000 && 1_000_000 <= ws <= 10_000_000_000) by (nonlinear_arith)
        requires
            1 <= w <= 10_000,
            s == 1_000_000,
            ws == w * s,
    ;
    crate::fixed::lemma_div_tz_nonneg(ws, a);
    lemma_div_tz_bound(ws, a, 100_000);
    assert(ws <= 100_000 * a);
    assert(1 <= h <= 100_000);
    crate::fixed::lemma_div_tz_nonneg(ws, h);
    if w <= 20 {
        lemma_div_tz_le(ws, h);
        assert(ws <= 20_000_000);
    } else {
        // The height is at least a twentieth of the width.
        vstd::arithmetic::div_mod::lemma_div_is_ordered_by_denominator(ws, a, 10_000_000);
        assert(hr >= ws / 10_000_000);
        assert(ws / 10_000_000 == (w * 1_000_000) / (1_000_000int * 10)) by (nonlinear_arith)
            requires
                ws == w * s,
                s == 1_000_000,
        ;
        vstd::arithmetic::div_mod::lemma_div_denominator(w * 1_000_000, 1_000_000, 10);
        vstd::arithmetic::div_mod::lemma_div_multiples_vanish(w, 1_000_000);
        assert((w * 1_000_000) / 1_000_000 == w) by {
            vstd::arithmetic::mul::lemma_mul_is_commutative(w, 1_000_000);
        }
        assert(hr >= w / 10);
        vstd::arithmetic::div_mod::lemma_fundamental_div_mod(w, 10);
        vstd::arithmetic::div_mod::lemma_remainder_upper(w, 10);
        vstd::arithmetic::div_mod::lemma_remainder_lower(w, 10);
        assert(10 * (w / 10) >= w - 9);
        assert(20 * hr >= w) by (nonlinear_arith)
            requires
                hr >= w / 10,
                10 * (w / 10) >= w - 9,
                w >= 21,
        ;
        assert(h == hr);
        let wof = div_tz(ws, h);
        vstd::arithmetic::div_mod::lemma_fundamental_div_mod(ws, h);
        vstd::arithmetic::div_mod::lemma_remainder_lower(ws, h);
        assert(wof * h <= ws);
        assert(wof <= 20_000_000) by (nonlinear_arith)
            requires
                wof * h <= ws,
                ws == w * s,
                s == 1_000_000,
                20 * h >= w,
                w >= 1,
                h >= 1,
                wof >= 0,
    ;
    }
}

/// Dividing a viewport edge by the pixel count leaves a step whose total
/// over the row stays within the edge.
proof fn lemma_delta_scaled(c: int, k: int)
    requires
        1 <= k <= 100_000,
        -24_000_000_000 <= c <= 24_000_000_000,
    ensures
        abs(fdiv(c, k * (SCALE as int))) <= abs(c),
        abs(fdiv(c, k * (SCALE as int))) * k <= abs(c),
{
    let s = SCALE as int;
    let ks = k * s;
    assert(1_000_000 <= ks <= 100_000_000_000) by (nonlinear_arith)
        requires
            1 <= k <= 100_000,
            s == 1_000_000,
            ks == k * s,
    ;
    lemma_abs_mul(c, s);
    crate::fixed::lemma_div_tz_mag(c * s, ks);
    let q = abs(fdiv(c, ks)) as int;
    vstd::arithmetic::div_mod::lemma_fundamental_div_mod(abs(c * s) as int, ks);
    vstd::arithmetic::div_mod::lemma_remainder_lower(abs(c * s) as int, ks);
    assert(q * ks <= abs(c * s));
    assert(q * k <= abs(c) && q <= abs(c)) by (nonlinear_arith)
        requires
            q * ks <= abs(c) * s,
            ks == k * s,
            s >= 1,
            k >= 1,
            q >= 0,
    ;
}

impl Camera {
    /// Every derived field, as a function of the configuration.
    pub open spec fn spec_from(b: CameraBuilder) -> Camera {
        Camera {
            image_width: b.image_width,
            image_height: spec_height(b) as u32,
            aspect_ratio: b.aspect_ratio,
            camera_center: b.look_from,
            pixel_delta_u: spec_pixel_delta_u(b),
            pixel_delta_v: spec_pixel_delta_v(b),
            pixel00_loc: spec_pixel00(b),
            samples: b.samples,
            max_depth: b.max_depth,
            look_from: b.look_from,
            look_at: b.look_at,
            v_up: b.v_up,
            u: spec_u_vec(b),
            v: spec_v_vec(b),
            w: spec_w_vec(b),
            defocus_angle: b.defocus_angle,
            focus_dist: b.focus_dist,
            defocus_disk_u: spec_scale(spec_u_vec(b), spec_defocus_radius(b)),
            defocus_disk_v: spec_scale(spec_v_vec(b), spec_defocus_radius(b)),
        }
    }

    /// The bounds under which ray generation cannot overflow.
    pub open spec fn wf(self) -> bool {
        &&& 1 <= self.image_width <= 10_000
        &&& 1 <= self.image_height <= 100_000
        &&& 1 <= self.samples <= 100_000
        &&& self.camera_center.bounded(1_000_000_000)
        &&& self.pixel00_loc.bounded(31_000_000_000)
        &&& self.pixel_delta_u.bounded(24_000_000_000)
        &&& self.pixel_delta_v.bounded(4_800_000_000)
        &&& scaled_bound(self.pixel_delta_u, self.image_width as int, 24_000_000_000)
        &&& scaled_bound(self.pixel_delta_v, self.image_height as int, 4_800_000_000)
        &&& self.defocus_disk_u.bounded(3_000_000_000)
        &&& self.defocus_disk_v.bounded(3_000_000_000)
        &&& self.defocus_angle >= 0
    }

    /// Derive the viewport geometry from a configuration.
    pub fn from(input: &CameraBuilder) -> (c: Camera)
        requires
            input.wf(),
        ensures
            c == Camera::spec_from(*input),
            c.wf(),
    {
        proof {
            lemma_w_over_h(*input);
        }
        let w_fx: i64 = (input.image_width as i64) * SCALE;
        let mut height_fx: i64 = divi_fx(w_fx, input.aspect_ratio);
        if height_fx < 1 {
            height_fx = 1;
        }
        let image_height: u32 = height_fx as u32;
        let camera_center = input.look_from;
        let (u_vec, v_vec, w_vec) = derive_basis(input);
        let (viewport_u, viewport_v) = derive_viewport_edges(input, &u_vec, &v_vec);
        let (pixel_delta_u, pixel_delta_v) = derive_deltas(input, &viewport_u, &viewport_v);
        let pixel00_loc = derive_pixel00(
            input,
            &w_vec,
            &viewport_u,
            &viewport_v,
            &pixel_delta_u,
            &pixel_delta_v,
        );
        let (defocus_disk_u, defocus_disk_v) = derive_defocus(input, &u_vec, &v_vec);
        Camera {
            image_width: input.image_width,
            image_height,
            aspect_ratio: input.aspect_ratio,
            camera_center,
            pixel_delta_u,
            pixel_delta_v,
            pixel00_loc,
            samples: input.samples,
            max_depth: input.max_depth,
            look_from: input.look_from,
            look_at: input.look_at,
            v_up: input.v_up,
            u: u_vec,
            v: v_vec,
            w: w_vec,
            defocus_angle: input.defocus_angle,
            focus_dist: input.focus_dist,
            defocus_disk_u,
            defocus_disk_v,
        }
    }
}

/// The orthonormal camera basis (right, up, backward).
fn derive_basis(input: &CameraBuilder) -> (r: (Vec3, Vec3, Vec3))
    requires
        input.wf(),
    ensures
        r.0 == spec_u_vec(*input) && r.0.bounded(2_000_000),
        r.1 == spec_v_vec(*input) && r.1.bounded(8_000_000),
        r.2 == spec_w_vec(*input) && r.2.bounded(2_000_000),
{
    let diff = input.look_from.sub(&input.look_at);
    proof {
        lemma_unit_bounded(diff);
    }
    let w_vec = diff.unit();
    let cr = input.v_up.cross(&w_vec);
    proof {
        lemma_cross_bounded(input.v_up, w_vec, 1_000_000_000, 2_000_000, 2_000_000_000);
        lemma_unit_bounded(cr);
    }
    let u_vec = cr.unit();
    proof {
        lemma_cross_bounded(w_vec, u_vec, 2_000_000, 2_000_000, 4_000_000);
    }
    let v_vec = w_vec.cross(&u_vec);
    (u_vec, v_vec, w_vec)
}

/// The world-space viewport edge vectors.
fn derive_viewport_edges(input: &CameraBuilder, u_vec: &Vec3, v_vec: &Vec3) -> (r: (Vec3, Vec3))
    requires
        input.wf(),
        *u_vec == spec_u_vec(*input),
        u_vec.bounded(2_000_000),
        *v_vec == spec_v_vec(*input),
        v_vec.bounded(8_000_000),
    ensures
        r.0 == spec_viewport_u(*input) && r.0.bounded(24_000_000_000),
        r.1 == spec_viewport_v(*input) && r.1.bounded(4_800_000_000),
{
    proof {
        lemma_w_over_h(*input);
    }
    let w_fx: i64 = (input.image_width as i64) * SCALE;
    let mut height_fx: i64 = divi_fx(w_fx, input.aspect_ratio);
    if height_fx < 1 {
        height_fx = 1;
    }
    let h_tan = half_tan(input.v_fov);
    proof {
        lemma_fmul_bound(
            2 * h_tan as int,
            input.focus_dist as int,
            12_000_000,
            50_000_000,
            600_000_000,
        );
        crate::fixed::lemma_fmul_nonneg(2 * h_tan as int, input.focus_dist as int);
    }
    let viewport_height = mul_fx(2 * h_tan, input.focus_dist);
    let wof = divi_fx(w_fx, height_fx);
    proof {
        lemma_fmul_bound(viewport_height as int, wof as int, 600_000_000, 20_000_000, 12_000_000_000);
    }
    let viewport_width = mul_fx(viewport_height, wof);
    proof {
        lemma_fmul_bound(u_vec.x as int, viewport_width as int, 2_000_000, 12_000_000_000, 24_000_000_000);
        lemma_fmul_bound(u_vec.y as int, viewport_width as int, 2_000_000, 12_000_000_000, 24_000_000_000);
        lemma_fmul_bound(u_vec.z as int, viewport_width as int, 2_000_000, 12_000_000_000, 24_000_000_000);
        lemma_fmul_bound(
            -(v_vec.x as int),
            viewport_height as int,
            8_000_000,
            600_000_000,
            4_800_000_000,
        );
        lemma_fmul_bound(
            -(v_vec.y as int),
            viewport_height as int,
            8_000_000,
            600_000_000,
            4_800_000_000,
        );
        lemma_fmul_bound(
            -(v_vec.z as int),
            viewport_height as int,
            8_000_000,
            600_000_000,
            4_800_000_000,
        );
    }
    let viewport_u = u_vec.mul(viewport_width);
    let viewport_v = v_vec.neg().mul(viewport_height);
    (viewport_u, viewport_v)
}

/// The per-pixel step vectors, with their per-row and per-column bounds.
fn derive_deltas(input: &CameraBuilder, viewport_u: &Vec3, viewport_v: &Vec3) -> (r: (Vec3, Vec3))
    requires
        input.wf(),
        *viewport_u == spec_viewport_u(*input),
        viewport_u.bounded(24_000_000_000),
        *viewport_v == spec_viewport_v(*input),
        viewport_v.bounded(4_800_000_000),
    ensures
        r.0 == spec_pixel_delta_u(*input) && r.0.bounded(24_000_000_000),
        r.1 == spec_pixel_delta_v(*input) && r.1.bounded(4_800_000_000),
        scaled_bound(r.0, input.image_width as int, 24_000_000_000),
        scaled_bound(r.1, spec_height(*input), 4_800_000_000),
{
    proof {
        lemma_w_over_h(*input);
    }
    let w_fx: i64 = (input.image_width as i64) * SCALE;
    let mut height_fx: i64 = divi_fx(w_fx, input.aspect_ratio);
    if height_fx < 1 {
        height_fx = 1;
    }
    proof {
        lemma_delta_scaled(viewport_u.x as int, input.image_width as int);
        lemma_delta_scaled(viewport_u.y as int, input.image_width as int);
        lemma_delta_scaled(viewport_u.z as int, input.image_width as int);
        lemma_delta_scaled(viewport_v.x as int, height_fx as int);
        lemma_delta_scaled(viewport_v.y as int, height_fx as int);
        lemma_delta_scaled(viewport_v.z as int, height_fx as int);
    }
    let pixel_delta_u = viewport_u.div(w_fx);
    let pixel_delta_v = viewport_v.div(height_fx * SCALE);
    (pixel_delta_u, pixel_delta_v)
}

/// The world-space center of pixel (0, 0).
#[verifier::rlimit(100)]
#[verifier::spinoff_prover]
fn derive_pixel00(
    input: &CameraBuilder,
    w_vec: &Vec3,
    viewport_u: &Vec3,
    viewport_v: &Vec3,
    pixel_delta_u: &Vec3,
    pixel_delta_v: &Vec3,
) -> (r: Vec3)
    requires
        input.wf(),
        *w_vec == spec_w_vec(*input),
        w_vec.bounded(2_000_000),
        *viewport_u == spec_viewport_u(*input),
        viewport_u.bounded(24_000_000_000),
        *viewport_v == spec_viewport_v(*input),
        viewport_v.bounded(4_800_000_000),
        *pixel_delta_u == spec_pixel_delta_u(*input),
        pixel_delta_u.bounded(24_000_000_000),
        *pixel_delta_v == spec_pixel_delta_v(*input),
        pixel_delta_v.bounded(4_800_000_000),
    ensures
        r == spec_pixel00(*input),
        r.bounded(31_000_000_000),
{
    proof {
        lemma_fmul_bound(w_vec.x as int, input.focus_dist as int, 2_000_000, 50_000_000, 100_000_000);
        lemma_fmul_bound(w_vec.y as int, input.focus_dist as int, 2_000_000, 50_000_000, 100_000_000);
        lemma_fmul_bound(w_vec.z as int, input.focus_dist as int, 2_000_000, 50_000_000, 100_000_000);
        lemma_delta_scaled(viewport_u.x as int, 2);
        lemma_delta_scaled(viewport_u.y as int, 2);
        lemma_delta_scaled(viewport_u.z as int, 2);
        lemma_delta_scaled(viewport_v.x as int, 2);
        lemma_delta_scaled(viewport_v.y as int, 2);
        lemma_delta_scaled(viewport_v.z as int, 2);
    }
    let w_focus = w_vec.mul(input.focus_dist);
    let vpu_half = viewport_u.div(2 * SCALE);
    let vpv_half = viewport_v.div(2 * SCALE);
    let upper_left = input.look_from.sub(&w_focus).sub(&vpu_half).sub(&vpv_half);
    let delta_sum = pixel_delta_u.add(&pixel_delta_v);
    proof {
        lemma_fmul_bound(delta_sum.x as int, 500_000, 28_800_000_000, 500_000, 14_400_000_000);
        lemma_fmul_bound(delta_sum.y as int, 500_000, 28_800_000_000, 500_000, 14_400_000_000);
        lemma_fmul_bound(delta_sum.z as int, 500_000, 28_800_000_000, 500_000, 14_400_000_000);
    }
    let half_delta = delta_sum.mul(500_000);
    upper_left.add(&half_delta)
}

/// The defocus-disk basis vectors.
fn derive_defocus(input: &CameraBuilder, u_vec: &Vec3, v_vec: &Vec3) -> (r: (Vec3, Vec3))
    requires
        input.wf(),
        *u_vec == spec_u_vec(*input),
        u_vec.bounded(2_000_000),
        *v_vec == spec_v_vec(*input),
        v_vec.bounded(8_000_000),
    ensures
        r.0 == spec_scale(spec_u_vec(*input), spec_defocus_radius(*input)),
        r.0.bounded(3_000_000_000),
        r.1 == spec_scale(spec_v_vec(*input), spec_defocus_radius(*input)),
        r.1.bounded(3_000_000_000),
{
    let d_tan = half_tan(input.defocus_angle);
    proof {
        lemma_fmul_bound(d_tan as int, input.focus_dist as int, 6_000_000, 50_000_000, 300_000_000);
        crate::fixed::lemma_fmul_nonneg(d_tan as int, input.focus_dist as int);
    }
    let defocus_radius = mul_fx(d_tan, input.focus_dist);
    proof {
        lemma_fmul_bound(u_vec.x as int, defocus_radius as int, 2_000_000, 300_000_000, 600_000_000);
        lemma_fmul_bound(u_vec.y as int, defocus_radius as int, 2_000_000, 300_000_000, 600_000_000);
        lemma_fmul_bound(u_vec.z as int, defocus_radius as int, 2_000_000, 300_000_000, 600_000_000);
        lemma_fmul_bound(v_vec.x as int, defocus_radius as int, 8_000_000, 300_000_000, 2_400_000_000);
        lemma_fmul_bound(v_vec.y as int, defocus_radius as int, 8_000_000, 300_000_000, 2_400_000_000);
        lemma_fmul_bound(v_vec.z as int, defocus_radius as int, 8_000_000, 300_000_000, 2_400_000_000);
    }
    let defocus_disk_u = u_vec.mul(defocus_radius);
    let defocus_disk_v = v_vec.mul(defocus_radius);
    (defocus_disk_u, defocus_disk_v)
}

/// Stepping `i` pixels (with `i` below the row length `k`) scales the
/// delta exactly and stays within the row's total bound.
proof fn lemma_step(d: int, i: int, k: int, b: int)
    requires
        0 <= i < k,
        0 <= b,
        abs(d) * k <= b,
    ensures
        fmul(d, i * (SCALE as int)) == d * i,
        abs(d * i) <= b,
{
    let s = SCALE as int;
    assert(d * (i * s) == (d * i) * s) by (nonlinear_arith);
    lemma_div_tz_exact(d * i, s);
    lemma_abs_mul(d, i);
    assert(abs(d) * i <= abs(d) * k) by (nonlinear_arith)
        requires
            0 <= i < k,
    ;
    assert(abs(i) == i);
}

/// The per-pixel average of channel sums stays a valid channel.
proof fn lemma_avg_range(c: int, n: int)
    requires
        1 <= n,
        0 <= c <= n * (SCALE as int),
    ensures
        0 <= fdiv(c, n * (SCALE as int)) <= SCALE as int,
{
    let s = SCALE as int;
    let ns = n * s;
    assert(ns >= s) by (nonlinear_arith)
        requires
            n >= 1,
            s == 1_000_000,
            ns == n * s,
    ;
    lemma_abs_mul(c, s);
    assert(c * s <= s * ns) by (nonlinear_arith)
        requires
            c <= ns,
            s >= 0,
    ;
    lemma_div_tz_bound(c * s, ns, s);
    crate::fixed::lemma_div_tz_nonneg(c * s, ns);
}

/// Averaging `n` identical samples reproduces the sample exactly: a channel
/// summed `n` times and divided by `n` comes back unchanged.
pub proof fn lemma_average_exact(c: int, n: int)
    requires
        1 <= n,
    ensures
        fdiv(n * c, n * (SCALE as int)) == c,
{
    let s = SCALE as int;
    assert((n * c) * s == c * (n * s)) by (nonlinear_arith);
    assert(n * s >= 1) by (nonlinear_arith)
        requires
            n >= 1,
            s == 1_000_000,
    ;
    lemma_div_tz_exact(c, n * s);
}

/// The background: a vertical blend from white at the horizon to sky blue
/// upward, evaluated on the unit ray direction.
pub open spec fn spec_sky(unit_dir: Vec3) -> Color {
    let a = clampi(div_tz(unit_dir.y as int + SCALE as int, 2), 0, SCALE as int);
    Color {
        x: (SCALE as int - a + fmul(500_000, a)) as i64,
        y: (SCALE as int - a + fmul(700_000, a)) as i64,
        z: (SCALE as int - a + fmul(1_000_000, a)) as i64,
    }
}

/// The background blend (see `spec_sky`); every channel stays in `[0, 1]`.
pub fn sky_color(unit_dir: &Vec3) -> (c: Color)
    requires
        unit_dir.bounded(4_000_000),
    ensures
        c == spec_sky(*unit_dir),
        crate::vec3::unit_color(c),
{
    proof {
        lemma_div_tz_le(unit_dir.y as int + SCALE as int, 2);
    }
    let a = clamp_fx(divi_fx(unit_dir.y + SCALE, 2), 0, SCALE);
    let t = SCALE - a;
    proof {
        lemma_fmul_one(t as int);
        lemma_fmul_unit(500_000, a as int);
        lemma_fmul_unit(700_000, a as int);
        lemma_fmul_unit(1_000_000, a as int);
    }
    let white = Color::white();
    let blue = Vec3::from(500_000, 700_000, 1_000_000);
    let base = white.mul(t);
    let tint = blue.mul(a);
    base.add(&tint)
}

/// The antialiasing offset for sub-pixel coordinates `(px, py)`, each a
/// fixed-point fraction of one pixel step.
pub open spec fn spec_jitter(cam: Camera, px: int, py: int) -> Vec3 {
    crate::vec3::spec_add(spec_scale(cam.pixel_delta_u, px), spec_scale(cam.pixel_delta_v, py))
}

/// The eye point displaced to `p` on the defocus disk.
pub open spec fn spec_disk_point(cam: Camera, p: Vec3) -> Vec3 {
    crate::vec3::spec_add(
        crate::vec3::spec_add(cam.camera_center, spec_scale(cam.defocus_disk_u, p.x as int)),
        spec_scale(cam.defocus_disk_v, p.y as int),
    )
}

/// Everything `get_ray` promises of a primary ray for pixel `(i, j)`: it
/// is traceable; its origin is the eye point exactly when the defocus
/// angle is zero, and a point on the defocus disk otherwise; its direction
/// runs from the origin to the pixel center jittered by some sub-pixel
/// offsets, with a fixed forward direction standing in only when that
/// difference degenerates to zero length.
pub open spec fn ray_admits(cam: Camera, i: int, j: int, r: Ray) -> bool {
    &&& r.wf()
    &&& cam.defocus_angle == 0 ==> r.origin == cam.camera_center
    &&& cam.defocus_angle > 0 ==> exists|p: Vec3|
        p.bounded(SCALE as int) && spec_len2(p) < SCALE && p.z == 0 && r.origin
            == #[trigger] spec_disk_point(cam, p)
    &&& exists|px: int, py: int|
        -500_000 <= px < 500_000 && -500_000 <= py < 500_000 && ({
            let sd = spec_sub(
                crate::vec3::spec_add(
                    cam.spec_pixel_center(i, j),
                    #[trigger] spec_jitter(cam, px, py),
                ),
                r.origin,
            );
            if spec_len2(sd) >= 1 {
                r.direction == sd
            } else {
                r.direction == (Vec3 { x: 0i64, y: 0i64, z: (-(SCALE as int)) as i64 })
            }
        })
}

impl Camera {
    /// The center of pixel `(i, j)` in world space.
    pub open spec fn spec_pixel_center(self, i: int, j: int) -> Vec3 {
        crate::vec3::spec_add(
            crate::vec3::spec_add(
                self.pixel00_loc,
                spec_scale(self.pixel_delta_u, i * (SCALE as int)),
            ),
            spec_scale(self.pixel_delta_v, j * (SCALE as int)),
        )
    }

    /// The antialiasing jitter: a point in the square around a pixel
    /// center, one pixel step wide.
    fn pixel_sample_square(&self) -> (r: Vec3)
        requires
            self.wf(),
        ensures
            r.bounded(15_000_000_000),
            exists|px: int, py: int|
                -500_000 <= px < 500_000 && -500_000 <= py < 500_000 && r == #[trigger] spec_jitter(
                    *self,
                    px,
                    py,
                ),
    {
        let px = -500_000 + (random_below(SCALE as u64) as i64);
        let py = -500_000 + (random_below(SCALE as u64) as i64);
        proof {
            lemma_fmul_bound(self.pixel_delta_u.x as int, px as int, 24_000_000_000, 500_000, 12_000_000_000);
            lemma_fmul_bound(self.pixel_delta_u.y as int, px as int, 24_000_000_000, 500_000, 12_000_000_000);
            lemma_fmul_bound(self.pixel_delta_u.z as int, px as int, 24_000_000_000, 500_000, 12_000_000_000);
            lemma_fmul_bound(self.pixel_delta_v.x as int, py as int, 4_800_000_000, 500_000, 2_400_000_000);
            lemma_fmul_bound(self.pixel_delta_v.y as int, py as int, 4_800_000_000, 500_000, 2_400_000_000);
            lemma_fmul_bound(self.pixel_delta_v.z as int, py as int, 4_800_000_000, 500_000, 2_400_000_000);
        }
        let ju = self.pixel_delta_u.mul(px);
        let jv = self.pixel_delta_v.mul(py);
        let r = ju.add(&jv);
        proof {
            assert(r == spec_jitter(*self, px as int, py as int));
        }
        r
    }

    /// A point on the defocus disk around the eye.
    fn defocus_disk_sample(&self) -> (r: Vec3)
        requires
            self.wf(),
        ensures
            r.bounded(7_000_000_000),
            exists|p: Vec3|
                p.bounded(SCALE as int) && spec_len2(p) < SCALE && p.z == 0 && r
                    == #[trigger] spec_disk_point(*self, p),
    {
        let p = random_in_unit_disk();
        proof {
            lemma_fmul_bound(self.defocus_disk_u.x as int, p.x as int, 3_000_000_000, 1_000_000, 3_000_000_000);
            lemma_fmul_bound(self.defocus_disk_u.y as int, p.x as int, 3_000_000_000, 1_000_000, 3_000_000_000);
            lemma_fmul_bound(self.defocus_disk_u.z as int, p.x as int, 3_000_000_000, 1_000_000, 3_000_000_000);
            lemma_fmul_bound(self.defocus_disk_v.x as int, p.y as int, 3_000_000_000, 1_000_000, 3_000_000_000);
            lemma_fmul_bound(self.defocus_disk_v.y as int, p.y as int, 3_000_000_000, 1_000_000, 3_000_000_000);
            lemma_fmul_bound(self.defocus_disk_v.z as int, p.y as int, 3_000_000_000, 1_000_000, 3_000_000_000);
        }
        let du = self.defocus_disk_u.mul(p.x);
        let dv = self.defocus_disk_v.mul(p.y);
        let r = self.camera_center.add(&du).add(&dv);
        proof {
            assert(r == spec_disk_point(*self, p));
        }
        r
    }

    /// A primary ray through pixel `(i, j)`: the target is the pixel center
    /// jittered within its square, and the origin is the eye point — moved
    /// onto the defocus disk only when a positive defocus angle asks for
    /// depth of field.  A degenerate (zero-length) direction falls back to
    /// a fixed forward direction so the ray can always be traced.
    pub fn get_ray(&self, i: u32, j: u32) -> (r: Ray)
        requires
            self.wf(),
            i < self.image_width,
            j < self.image_height,
        ensures
            ray_admits(*self, i as int, j as int, r),
    {
        proof {
            lemma_step(self.pixel_delta_u.x as int, i as int, self.image_width as int, 24_000_000_000);
            lemma_step(self.pixel_delta_u.y as int, i as int, self.image_width as int, 24_000_000_000);
            lemma_step(self.pixel_delta_u.z as int, i as int, self.image_width as int, 24_000_000_000);
            lemma_step(self.pixel_delta_v.x as int, j as int, self.image_height as int, 4_800_000_000);
            lemma_step(self.pixel_delta_v.y as int, j as int, self.image_height as int, 4_800_000_000);
            lemma_step(self.pixel_delta_v.z as int, j as int, self.image_height as int, 4_800_000_000);
        }
        let i_fx: i64 = (i as i64) * SCALE;
        let j_fx: i64 = (j as i64) * SCALE;
        let step_u = self.pixel_delta_u.mul(i_fx);
        let step_v = self.pixel_delta_v.mul(j_fx);
        let pixel_center = self.pixel00_loc.add(&step_u).add(&step_v);
        let jitter = self.pixel_sample_square();
        let pixel_sample = pixel_center.add(&jitter);
        let origin = if self.defocus_angle <= 0 {
            self.camera_center
        } else {
            self.defocus_disk_sample()
        };
        let mut direction = pixel_sample.sub(&origin);
        if direction.length_squared() < 1 {
            direction = Vec3::from(0, 0, -SCALE);
            proof {
                lemma_fmul_one(0);
                lemma_fmul_one(-(SCALE as int));
            }
        }
        Ray::from(origin, direction)
    }

    /// The color carried back along a ray: black once the depth budget is
    /// exhausted; on a miss, the sky gradient of the ray's unit direction;
    /// on a hit, the material's attenuation times the color of the
    /// scattered ray, one bounce deeper — exactly a color that
    /// `admissible_trace` admits.  Every channel stays in `[0, 1]`.
    pub fn ray_color<W: Hittable>(ray: &Ray, depth: u32, world: &W) -> (c: Color)
        requires
            ray.wf(),
            world.wf(),
        ensures
            crate::vec3::unit_color(c),
            admissible_trace(*world, *ray, depth as int, c),
            depth == 0 ==> c == (Color { x: 0, y: 0, z: 0 }),
            depth > 0 ==> match world.spec_hit(
                *ray,
                Interval { min: T_EPSILON, max: INFINITY_T },
            ) {
                // A miss ends in the sky gradient of the unit direction.
                Option::None => c == spec_sky(spec_unit(ray.direction)),
                // A hit is tinted by the surface: no channel exceeds the
                // albedo (a dielectric attenuates with plain white).
                Option::Some(h) => match h.mat {
                    Material::Lambertian(albedo) => c.x <= albedo.x && c.y <= albedo.y && c.z
                        <= albedo.z,
                    Material::Metal(albedo, _) => c.x <= albedo.x && c.y <= albedo.y && c.z
                        <= albedo.z,
                    Material::Dielectric(_) => true,
                },
            },
        decreases depth,
    {
        if depth == 0 {
            return Color::black();
        }
        let interval = Interval::new(T_EPSILON, INFINITY_T);
        let hit = world.hit(ray, &interval);
        proof {
            world.lemma_hit_props(*ray, interval);
        }
        match hit {
            Option::Some(record) => {
                let scattered = record.mat.scatter(ray, &record);
                match scattered {
                    Option::Some((attenuation, bounce_ray)) => {
                        proof {
                            assert(crate::vec3::unit_color(attenuation));
                        }
                        let bounce = Camera::ray_color(&bounce_ray, depth - 1, world);
                        proof {
                            lemma_fmul_unit(attenuation.x as int, bounce.x as int);
                            lemma_fmul_unit(attenuation.y as int, bounce.y as int);
                            lemma_fmul_unit(attenuation.z as int, bounce.z as int);
                        }
                        let tinted = attenuation.mul_vec(&bounce);
                        proof {
                            assert(tinted == spec_mul_vec(attenuation, bounce));
                            assert(scatter_admits(
                                record.mat,
                                *ray,
                                record,
                                attenuation,
                                bounce_ray,
                            ));
                            assert(admissible_trace(
                                *world,
                                bounce_ray,
                                depth as int - 1,
                                bounce,
                            ));
                            assert(admissible_trace(*world, *ray, depth as int, tinted));
                        }
                        tinted
                    },
                    Option::None => {
                        // The material set never absorbs: scatter's
                        // contract rules this arm out.
                        proof {
                            assert(false);
                        }
                        Color::black()
                    },
                }
            },
            Option::None => {
                proof {
                    lemma_unit_bounded(ray.direction);
                }
                let unit_direction = ray.direction().unit();
                sky_color(&unit_direction)
            },
        }
    }

    /// One rendered pixel: the quantized, gamma-corrected channel averages
    /// of `samples` traced rays through pixel `(x, y)`.
    fn render_pixel<W: Hittable>(&self, world: &W, x: u32, y: u32) -> (px: (u8, u8, u8))
        requires
            self.wf(),
            world.wf(),
            x < self.image_width,
            y < self.image_height,
        ensures
            admissible_pixel(
                *self,
                *world,
                x as int,
                y as int,
                px.0 as int,
                px.1 as int,
                px.2 as int,
            ),
    {
        let mut color = Color::black();
        let mut s: u32 = 0;
        while s < self.samples
            invariant
                self.wf(),
                world.wf(),
                x < self.image_width,
                y < self.image_height,
                s <= self.samples,
                0 <= color.x <= s * SCALE,
                0 <= color.y <= s * SCALE,
                0 <= color.z <= s * SCALE,
                admissible_sample_sum(*self, *world, x as int, y as int, s as int, color),
            decreases self.samples - s,
        {
            let ray = self.get_ray(x, y);
            let sample = Camera::ray_color(&ray, self.max_depth, world);
            proof {
                assert((s + 1) * SCALE as int == s * SCALE as int + SCALE as int)
                    by (nonlinear_arith);
                assert(s * SCALE as int <= 100_000 * 1_000_000) by (nonlinear_arith)
                    requires
                        0 <= s <= 100_000,
                ;
                assert(admissible_sample(*self, *world, x as int, y as int, sample));
            }
            let ghost prev = color;
            color.add_assign(&sample);
            proof {
                assert(color == crate::vec3::spec_add(prev, sample));
                assert(admissible_sample_sum(
                    *self,
                    *world,
                    x as int,
                    y as int,
                    s as int + 1,
                    color,
                ));
            }
            s = s + 1;
        }
        let ghost sum = color;
        let n_fx: i64 = (self.samples as i64) * SCALE;
        proof {
            assert(n_fx == self.samples as int * SCALE as int);
            lemma_avg_range(color.x as int, self.samples as int);
            lemma_avg_range(color.y as int, self.samples as int);
            lemma_avg_range(color.z as int, self.samples as int);
        }
        color.div_assign(n_fx);
        color.to_gamma_space();
        let px = (color.r(), color.g(), color.b());
        proof {
            assert(admissible_pixel(
                *self,
                *world,
                x as int,
                y as int,
                px.0 as int,
                px.1 as int,
                px.2 as int,
            ));
        }
        px
    }

    /// Render the scene into a row-major buffer of 3-byte RGB pixels: for
    /// every pixel, average `samples` traced rays, gamma-correct, and
    /// quantize each channel.  Every pixel of the buffer is an admissible
    /// rendering of its coordinates.
    pub fn render<W: Hittable>(&self, world: &W) -> (img: Vec<u8>)
        requires
            self.wf(),
            world.wf(),
        ensures
            img.len() == 3 * self.image_width * self.image_height,
            forall|x: int, y: int|
                0 <= x < self.image_width && 0 <= y < self.image_height ==> #[trigger] pixel_written(
                    *self,
                    *world,
                    img@,
                    x,
                    y,
                ),
    {
        let ghost w: int = self.image_width as int;
        let mut img: Vec<u8> = Vec::new();
        let mut y: u32 = 0;
        while y < self.image_height
            invariant
                self.wf(),
                world.wf(),
                y <= self.image_height,
                w == self.image_width as int,
                img.len() == 3 * self.image_width * y,
                forall|xx: int, yy: int|
                    0 <= xx < w && 0 <= yy < y ==> #[trigger] pixel_written(
                        *self,
                        *world,
                        img@,
                        xx,
                        yy,
                    ),
            decreases self.image_height - y,
        {
            let mut x: u32 = 0;
            while x < self.image_width
                invariant
                    self.wf(),
                    world.wf(),
                    x <= self.image_width,
                    y < self.image_height,
                    w == self.image_width as int,
                    img.len() == 3 * self.image_width * y + 3 * x,
                    forall|xx: int, yy: int|
                        (0 <= xx < w && 0 <= yy < y) || (0 <= xx < x && yy == y)
                            ==> #[trigger] pixel_written(*self, *world, img@, xx, yy),
                decreases self.image_width - x,
            {
                let px = self.render_pixel(world, x, y);
                let ghost old_img = img@;
                img.push(px.0);
                img.push(px.1);
                img.push(px.2);
                proof {
                    assert(3 * w * y + 3 * x == 3 * (y * w + x)) by (nonlinear_arith);
                    assert(old_img.len() == 3 * (y as int * w + x as int));
                    assert(pixel_written(*self, *world, img@, x as int, y as int));
                    assert forall|xx: int, yy: int|
                        (0 <= xx < w && 0 <= yy < y) || (0 <= xx < x && yy
                            == y) implies #[trigger] pixel_written(
                        *self,
                        *world,
                        img@,
                        xx,
                        yy,
                    ) by {
                        lemma_pixel_index(xx, yy, x as int, y as int, w);
                        assert(img@[3 * (yy * w + xx)] == old_img[3 * (yy * w + xx)]);
                        assert(img@[3 * (yy * w + xx) + 1] == old_img[3 * (yy * w + xx) + 1]);
                        assert(img@[3 * (yy * w + xx) + 2] == old_img[3 * (yy * w + xx) + 2]);
                        assert(pixel_written(*self, *world, old_img, xx, yy));
                    }
                    assert(3 * self.image_width * y + 3 * (x + 1) == 3 * self.image_width * y + 3
                        * x + 3) by (nonlinear_arith);
                }
                x = x + 1;
            }
            proof {
                assert(3 * self.image_width * (y + 1) == 3 * self.image_width * y + 3
                    * self.image_width) by (nonlinear_arith);
                assert forall|xx: int, yy: int|
                    0 <= xx < w && 0 <= yy < y + 1 implies #[trigger] pixel_written(
                    *self,
                    *world,
                    img@,
                    xx,
                    yy,
                ) by {
                    assert((0 <= xx < w && 0 <= yy < y) || (0 <= xx < w && yy == y));
                }
            }
            y = y + 1;
        }
        img
    }
}

/// The colors the shading recursion can produce for `ray` with `depth`
/// bounces left: black once the budget is exhausted; the sky gradient of
/// the unit direction on a miss; on a hit, an attenuation-tinted color
/// produced one bounce deeper for a scattered ray that the material's
/// scatter contract admits.
pub open spec fn admissible_trace<W: Hittable>(world: W, ray: Ray, depth: int, c: Color) -> bool
    decreases depth,
{
    if depth <= 0 {
        c == (Color { x: 0, y: 0, z: 0 })
    } else {
        match world.spec_hit(ray, Interval { min: T_EPSILON, max: INFINITY_T }) {
            Option::None => c == spec_sky(spec_unit(ray.direction)),
            Option::Some(h) => exists|att: Color, sc: Ray, sub: Color|
                #![trigger scatter_admits(h.mat, ray, h, att, sc), spec_mul_vec(att, sub)]
                scatter_admits(h.mat, ray, h, att, sc) && admissible_trace(world, sc, depth - 1, sub)
                    && c == spec_mul_vec(att, sub),
        }
    }
}

/// One sample color admitted for pixel `(x, y)`: produced by the shading
/// recursion, at the camera's depth budget, on some primary ray that
/// `get_ray` can generate for that pixel.
pub open spec fn admissible_sample<W: Hittable>(
    cam: Camera,
    world: W,
    x: int,
    y: int,
    c: Color,
) -> bool {
    exists|r: Ray|
        #[trigger] ray_admits(cam, x, y, r) && admissible_trace(world, r, cam.max_depth as int, c)
}

/// The sum of `k` admissible sample colors for pixel `(x, y)`.
pub open spec fn admissible_sample_sum<W: Hittable>(
    cam: Camera,
    world: W,
    x: int,
    y: int,
    k: int,
    sum: Color,
) -> bool
    decreases k,
{
    if k <= 0 {
        sum == (Color { x: 0, y: 0, z: 0 })
    } else {
        exists|prev: Color, c: Color|
            #![trigger admissible_sample(cam, world, x, y, c), crate::vec3::spec_add(prev, c)]
            admissible_sample_sum(cam, world, x, y, k - 1, prev) && admissible_sample(
                cam,
                world,
                x,
                y,
                c,
            ) && sum == crate::vec3::spec_add(prev, c)
    }
}

/// The three bytes of one rendered pixel: each channel is the quantized,
/// gamma-corrected per-sample average of a sum of `samples` admissible
/// sample colors.
pub open spec fn admissible_pixel<W: Hittable>(
    cam: Camera,
    world: W,
    x: int,
    y: int,
    r: int,
    g: int,
    b: int,
) -> bool {
    exists|sum: Color|
        #[trigger] admissible_sample_sum(cam, world, x, y, cam.samples as int, sum) && {
            let n = cam.samples as int * SCALE as int;
            &&& r == spec_quantize(fsqrt(fdiv(sum.x as int, n)))
            &&& g == spec_quantize(fsqrt(fdiv(sum.y as int, n)))
            &&& b == spec_quantize(fsqrt(fdiv(sum.z as int, n)))
        }
}

/// Pixel `(x, y)` of the row-major buffer holds an admissible rendering of
/// its coordinates.
pub open spec fn pixel_written<W: Hittable>(
    cam: Camera,
    world: W,
    img: Seq<u8>,
    x: int,
    y: int,
) -> bool {
    let base = 3 * (y * cam.image_width as int + x);
    admissible_pixel(
        cam,
        world,
        x,
        y,
        img[base] as int,
        img[base + 1] as int,
        img[base + 2] as int,
    )
}

/// Pixels written earlier in row-major order sit strictly below the
/// current write position.
proof fn lemma_pixel_index(xx: int, yy: int, x: int, y: int, w: int)
    requires
        0 <= xx < w,
        0 <= yy,
        0 <= x,
        (0 <= yy < y) || (yy == y && xx < x),
    ensures
        0 <= 3 * (yy * w + xx),
        3 * (yy * w + xx) + 2 < 3 * (y * w + x),
{
    assert(0 <= yy * w + xx && yy * w + xx < y * w + x) by (nonlinear_arith)
        requires
            0 <= xx < w,
            0 <= yy,
            0 <= x,
            (0 <= yy < y) || (yy == y && xx < x),
    ;
}

/// Bound on the components of a cross product from bounds on its factors.
proof fn lemma_cross_bounded(a: Vec3, b: Vec3, ba: int, bb: int, bc: int)
    requires
        0 <= ba,
        0 <= bb,
        a.bounded(ba),
        b.bounded(bb),
        ba * bb <= bc * 1_000_000,
    ensures
        spec_cross(a, b).bounded(2 * bc),
{
    lemma_fmul_bound(a.x as int, b.y as int, ba, bb, bc);
    lemma_fmul_bound(a.x as int, b.z as int, ba, bb, bc);
    lemma_fmul_bound(a.y as int, b.x as int, ba, bb, bc);
    lemma_fmul_bound(a.y as int, b.z as int, ba, bb, bc);
    lemma_fmul_bound(a.z as int, b.x as int, ba, bb, bc);
    lemma_fmul_bound(a.z as int, b.y as int, ba, bb, bc);
}

} // verus!
