//! Vector, color, and fixed-point arithmetic behavior.

use raytracer::fixed::{clamp_fx, div_fx, divi_fx, mul_fx, sqrt_fx, SCALE};
use raytracer::vec3::{
    random_in_unit_disk, random_on_hemisphere, random_unit_vector, reflect, refract, Color, Vec3,
};

#[test]
fn fixed_point_products_are_truncated_toward_zero() {
    // 2.5 * 2.0 == 5.0 exactly.
    assert_eq!(mul_fx(2_500_000, 2_000_000), 5_000_000);
    // A product below one quantum truncates to zero.
    assert_eq!(mul_fx(1, 1), 0);
    // Signs follow the factors; truncation is toward zero.
    assert_eq!(mul_fx(-1_500_000, 2_000_000), -3_000_000);
    assert_eq!(mul_fx(-1, 999_999), 0);
}

#[test]
fn fixed_point_quotients_are_exact_on_exact_inputs() {
    // 7.0 / 2.0 == 3.5.
    assert_eq!(div_fx(7_000_000, 2_000_000), 3_500_000);
    // -1.0 / 3.0 truncates toward zero.
    assert_eq!(div_fx(-1_000_000, 3_000_000), -333_333);
    // Integer division of a fixed value.
    assert_eq!(divi_fx(-7, 2), -3);
}

#[test]
fn fixed_point_square_roots_round_down() {
    // sqrt(4.0) == 2.0.
    assert_eq!(sqrt_fx(4_000_000), 2_000_000);
    // sqrt(2.0) rounded down to the quantum.
    assert_eq!(sqrt_fx(2_000_000), 1_414_213);
    assert_eq!(sqrt_fx(0), 0);
}

#[test]
fn clamping() {
    assert_eq!(clamp_fx(5, 0, 3), 3);
    assert_eq!(clamp_fx(-5, 0, 3), 0);
    assert_eq!(clamp_fx(2, 0, 3), 2);
}

#[test]
fn vector_arithmetic() {
    let a = Vec3::from(1_000_000, 2_000_000, 3_000_000);
    let b = Vec3::from(500_000, -500_000, 1_000_000);
    let s = a.add(&b);
    assert_eq!((s.x(), s.y(), s.z()), (1_500_000, 1_500_000, 4_000_000));
    let d = a.sub(&b);
    assert_eq!((d.x(), d.y(), d.z()), (500_000, 2_500_000, 2_000_000));
    let n = a.neg();
    assert_eq!((n.x(), n.y(), n.z()), (-1_000_000, -2_000_000, -3_000_000));
    let m = a.mul(2_000_000);
    assert_eq!((m.x(), m.y(), m.z()), (2_000_000, 4_000_000, 6_000_000));
    let q = a.div(2_000_000);
    assert_eq!((q.x(), q.y(), q.z()), (500_000, 1_000_000, 1_500_000));
    // Dot product: 0.5 - 1.0 + 3.0 == 2.5.
    assert_eq!(a.dot(&b), 2_500_000);
    // Cross product of the x and y axes is the z axis.
    let x = Vec3::from(1_000_000, 0, 0);
    let y = Vec3::from(0, 1_000_000, 0);
    let c = x.cross(&y);
    assert_eq!((c.x(), c.y(), c.z()), (0, 0, 1_000_000));
}

#[test]
fn length_of_a_pythagorean_vector_is_exact() {
    // (3, 4, 0) has length 5.
    let v = Vec3::from(3_000_000, 4_000_000, 0);
    assert_eq!(v.length_squared(), 25_000_000);
    assert_eq!(v.length(), 5_000_000);
}

#[test]
fn unit_of_a_unit_vector_is_the_identity() {
    // (0.6, 0.8, 0) has squared length exactly one, so normalization
    // returns it unchanged and its length is exactly one.
    let v = Vec3::from(600_000, 800_000, 0);
    assert_eq!(v.length_squared(), SCALE);
    let u = v.unit();
    assert_eq!((u.x(), u.y(), u.z()), (600_000, 800_000, 0));
    assert_eq!(u.length(), SCALE);
    // The same on an axis vector.
    let z = Vec3::from(0, 0, -1_000_000);
    let uz = z.unit();
    assert_eq!((uz.x(), uz.y(), uz.z()), (0, 0, -1_000_000));
    assert_eq!(uz.length(), SCALE);
}

#[test]
fn unit_of_a_general_vector_has_length_close_to_one() {
    let v = Vec3::from(1_234_567, -2_345_678, 3_456_789);
    let u = v.unit();
    let l2 = u.length_squared();
    // Within a relative tolerance of 0.5% of one.
    assert!((SCALE - 5_000..=SCALE + 5_000).contains(&l2), "length squared {l2}");
}

#[test]
fn reflect_is_an_involution_about_an_axis_normal() {
    let v = Vec3::from(1_000_000, 2_000_000, -3_000_000);
    let n = Vec3::from(0, 1_000_000, 0);
    let r = reflect(&v, &n);
    assert_eq!((r.x(), r.y(), r.z()), (1_000_000, -2_000_000, -3_000_000));
    let rr = reflect(&r, &n);
    assert_eq!((rr.x(), rr.y(), rr.z()), (1_000_000, 2_000_000, -3_000_000));
}

#[test]
fn reflect_mirrors_about_the_normal() {
    // A 45-degree incoming direction bounces off a floor.
    let v = Vec3::from(600_000, -800_000, 0);
    let n = Vec3::from(0, 1_000_000, 0);
    let r = reflect(&v, &n);
    assert_eq!((r.x(), r.y(), r.z()), (600_000, 800_000, 0));
}

#[test]
fn refract_bends_straight_through_at_normal_incidence() {
    // Head-on, the transmitted ray continues straight.
    let v = Vec3::from(0, -1_000_000, 0);
    let n = Vec3::from(0, 1_000_000, 0);
    let r = refract(&v, &n, 666_666);
    assert_eq!(r.x(), 0);
    assert_eq!(r.z(), 0);
    assert!(r.y() < -900_000, "transmitted direction {:?}", r);
}

#[test]
fn near_zero_detects_only_the_zero_vector() {
    assert!(Vec3::new().near_zero());
    assert!(!Vec3::from(1, 0, 0).near_zero());
    assert!(!Vec3::from(0, 0, -1).near_zero());
}

#[test]
fn random_vectors_stay_in_their_ranges() {
    for _ in 0..200 {
        let v = Vec3::random_constrained(-1_000_000, 1_000_000);
        for c in [v.x(), v.y(), v.z()] {
            assert!((-1_000_000..1_000_000).contains(&c));
        }
        let r = Vec3::random();
        for c in [r.x(), r.y(), r.z()] {
            assert!((0..1_000_000).contains(&c));
        }
    }
}

#[test]
fn random_unit_vectors_are_nearly_unit() {
    for _ in 0..200 {
        let u = random_unit_vector();
        let l2 = u.length_squared();
        assert!((SCALE - 500..=SCALE + 500).contains(&l2), "length squared {l2}");
    }
}

#[test]
fn random_disk_points_lie_inside_the_unit_disk() {
    for _ in 0..200 {
        let p = random_in_unit_disk();
        assert_eq!(p.z(), 0);
        assert!(p.length_squared() < SCALE);
    }
}

#[test]
fn hemisphere_samples_do_not_point_away() {
    let n = Vec3::from(0, 1_000_000, 0);
    for _ in 0..100 {
        let v = random_on_hemisphere(&n);
        assert!(v.dot(&n) >= 0);
        let l2 = v.length_squared();
        assert!((SCALE - 500..=SCALE + 500).contains(&l2), "length squared {l2}");
    }
}

#[test]
fn color_channels_quantize_with_clamping() {
    let c = Color::from(1_000_000, 0, 500_000);
    assert_eq!(c.r(), 255);
    assert_eq!(c.g(), 0);
    assert_eq!(c.b(), 127);
    // Out-of-range accumulations clamp rather than wrap.
    let over = Color::from(3_000_000, -500_000, 1_000_000);
    assert_eq!(over.r(), 255);
    assert_eq!(over.g(), 0);
    assert_eq!(over.b(), 255);
}

#[test]
fn gamma_correction_takes_square_roots() {
    let mut c = Color::from(250_000, 1_000_000, 0);
    c.to_gamma_space();
    assert_eq!((c.x(), c.y(), c.z()), (500_000, 1_000_000, 0));
}

#[test]
fn color_scale_multiplies_channels() {
    let mut c = Color::from(800_000, 600_000, 400_000);
    c.scale(500_000);
    assert_eq!((c.x(), c.y(), c.z()), (400_000, 300_000, 200_000));
}

#[test]
fn black_and_white() {
    let b = Color::black();
    assert_eq!((b.x(), b.y(), b.z()), (0, 0, 0));
    let w = Color::white();
    assert_eq!((w.x(), w.y(), w.z()), (SCALE, SCALE, SCALE));
}
