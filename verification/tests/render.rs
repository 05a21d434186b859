//! Intersection, scattering, camera, and end-to-end rendering behavior.

use raytracer::camera::{half_tan, sky_color, Camera, CameraBuilder};
use raytracer::hit::{HitList, HitRecord, Hittable};
use raytracer::interval::{Interval, INFINITY_T};
use raytracer::material::{reflectance, Material};
use raytracer::ray::Ray;
use raytracer::sphere::Sphere;
use raytracer::vec3::{Color, Vec3};

fn gray() -> Material {
    Material::Lambertian(Color::from(500_000, 500_000, 500_000))
}

fn trace_window() -> Interval {
    Interval::new(1_000, INFINITY_T)
}

#[test]
fn interval_membership() {
    let i = Interval::new(1_000_000, 2_000_000);
    assert!(i.contains(1_000_000));
    assert!(i.contains(2_000_000));
    assert!(!i.surrounds(1_000_000));
    assert!(!i.surrounds(2_000_000));
    assert!(i.surrounds(1_500_000));
    assert!(!i.contains(999_999));
    let full = Interval::default();
    assert!(full.surrounds(0));
}

#[test]
fn ray_evaluates_points_along_itself() {
    let r = Ray::from(Vec3::from(1_000_000, 0, 0), Vec3::from(0, 0, -2_000_000));
    let p = r.at(1_500_000);
    assert_eq!((p.x(), p.y(), p.z()), (1_000_000, 0, -3_000_000));
    assert_eq!(r.origin().z(), 0);
    assert_eq!(r.direction().z(), -2_000_000);
}

#[test]
fn ray_through_sphere_center_hits_the_near_surface() {
    // Unit-radius-half sphere two units down the axis; the ray passes
    // through its center.
    let s = Sphere::new(Vec3::from(0, 0, -2_000_000), 500_000, gray());
    let r = Ray::from(Vec3::from(0, 0, 0), Vec3::from(0, 0, -1_000_000));
    let hit = s.hit(&r, &trace_window()).expect("the ray hits");
    // The smaller of the two roots (1.5 and 2.5).
    assert_eq!(hit.t, 1_500_000);
    assert_eq!((hit.p.x(), hit.p.y(), hit.p.z()), (0, 0, -1_500_000));
    // The recorded point lies on the sphere surface.
    let to_center = hit.p.sub(&Vec3::from(0, 0, -2_000_000));
    assert_eq!(to_center.length(), 500_000);
    // The normal faces against the ray.
    assert!(hit.front_face);
    assert_eq!((hit.normal.x(), hit.normal.y(), hit.normal.z()), (0, 0, 1_000_000));
}

#[test]
fn ray_missing_a_sphere_returns_no_hit() {
    // Closest approach is two units, above the half-unit radius.
    let s = Sphere::new(Vec3::from(0, 0, -2_000_000), 500_000, gray());
    let r = Ray::from(Vec3::from(0, 2_000_000, 0), Vec3::from(0, 0, -1_000_000));
    assert!(s.hit(&r, &trace_window()).is_none());
}

#[test]
fn ray_from_inside_uses_the_far_root_and_flips_the_normal() {
    let s = Sphere::new(Vec3::from(0, 0, -2_000_000), 500_000, gray());
    let r = Ray::from(Vec3::from(0, 0, -2_000_000), Vec3::from(0, 0, -1_000_000));
    let hit = s.hit(&r, &trace_window()).expect("the ray exits the sphere");
    assert_eq!(hit.t, 500_000);
    assert!(!hit.front_face);
    assert_eq!((hit.normal.x(), hit.normal.y(), hit.normal.z()), (0, 0, 1_000_000));
}

#[test]
fn negative_radius_inverts_the_recorded_orientation() {
    // The hollow-shell trick: same intersection, inverted outward normal.
    let s = Sphere::new(Vec3::from(0, 0, -2_000_000), -400_000, gray());
    let r = Ray::from(Vec3::from(0, 0, 0), Vec3::from(0, 0, -1_000_000));
    let hit = s.hit(&r, &trace_window()).expect("the ray hits the shell");
    assert_eq!(hit.t, 1_600_000);
    // From outside, yet the flipped outward normal marks a back face.
    assert!(!hit.front_face);
    assert_eq!((hit.normal.x(), hit.normal.y(), hit.normal.z()), (0, 0, 1_000_000));
}

#[test]
fn hit_record_orients_the_normal_against_the_ray() {
    let r = Ray::from(Vec3::from(0, 0, 0), Vec3::from(0, -1_000_000, 0));
    let rec = HitRecord::new(
        &r,
        Vec3::from(0, -3_000_000, 0),
        Vec3::from(0, 1_000_000, 0),
        3_000_000,
        gray(),
    );
    assert!(rec.front_face);
    assert_eq!(rec.normal.y(), 1_000_000);
    // The same outward normal seen from the other side is flipped.
    let r2 = Ray::from(Vec3::from(0, -6_000_000, 0), Vec3::from(0, 1_000_000, 0));
    let rec2 = HitRecord::new(
        &r2,
        Vec3::from(0, -3_000_000, 0),
        Vec3::from(0, 1_000_000, 0),
        3_000_000,
        gray(),
    );
    assert!(!rec2.front_face);
    assert_eq!(rec2.normal.y(), -1_000_000);
}

#[test]
fn scene_aggregation_returns_the_nearest_hit() {
    // Two overlapping spheres along the ray: the nearer surface wins, in
    // either insertion order.
    let a = Sphere::new(Vec3::from(0, 0, -2_000_000), 500_000, gray());
    let b = Sphere::new(Vec3::from(0, 0, -2_250_000), 500_000, gray());
    let r = Ray::from(Vec3::from(0, 0, 0), Vec3::from(0, 0, -1_000_000));

    let mut only_b: HitList<Sphere> = HitList::new();
    only_b.push(b);
    assert_eq!(only_b.hit(&r, &trace_window()).expect("b alone hits").t, 1_750_000);

    let a2 = Sphere::new(Vec3::from(0, 0, -2_000_000), 500_000, gray());
    let b2 = Sphere::new(Vec3::from(0, 0, -2_250_000), 500_000, gray());
    let mut ab: HitList<Sphere> = HitList::new();
    ab.push(a2);
    ab.push(b2);
    let hit_ab = ab.hit(&r, &trace_window()).expect("the scene hits");
    assert_eq!(hit_ab.t, 1_500_000);

    let a3 = Sphere::new(Vec3::from(0, 0, -2_000_000), 500_000, gray());
    let b3 = Sphere::new(Vec3::from(0, 0, -2_250_000), 500_000, gray());
    let mut ba: HitList<Sphere> = HitList::new();
    ba.push(b3);
    ba.push(a3);
    let hit_ba = ba.hit(&r, &trace_window()).expect("the scene hits");
    assert_eq!(hit_ba.t, 1_500_000);

    let empty: HitList<Sphere> = HitList::new();
    assert!(empty.hit(&r, &trace_window()).is_none());
    assert_eq!(a.radius, 500_000);
}

#[test]
fn lambertian_scatter_keeps_the_albedo_and_the_hit_point() {
    let albedo = Color::from(700_000, 300_000, 300_000);
    let mat = Material::Lambertian(albedo);
    let ray = Ray::from(Vec3::from(0, 0, 0), Vec3::from(0, 0, -1_000_000));
    let rec = HitRecord {
        p: Vec3::from(0, 0, -1_500_000),
        normal: Vec3::from(0, 0, 1_000_000),
        mat,
        t: 1_500_000,
        front_face: true,
    };
    for _ in 0..50 {
        let (att, scattered) = mat.scatter(&ray, &rec).expect("diffuse never absorbs");
        assert_eq!((att.x(), att.y(), att.z()), (700_000, 300_000, 300_000));
        assert_eq!(scattered.origin().z(), -1_500_000);
        assert!(scattered.direction().length_squared() >= 1);
        // The scattered direction leans along the normal.
        assert!(scattered.direction().z() > -1_100_000);
    }
}

#[test]
fn polished_metal_reflects_exactly() {
    let albedo = Color::from(800_000, 600_000, 200_000);
    let mat = Material::Metal(albedo, 0);
    let ray = Ray::from(Vec3::from(-600_000, 800_000, 0), Vec3::from(600_000, -800_000, 0));
    let rec = HitRecord {
        p: Vec3::from(0, 0, 0),
        normal: Vec3::from(0, 1_000_000, 0),
        mat,
        t: 1_000_000,
        front_face: true,
    };
    let (att, scattered) = mat.scatter(&ray, &rec).expect("metal always scatters");
    assert_eq!((att.x(), att.y(), att.z()), (800_000, 600_000, 200_000));
    let d = *scattered.direction();
    assert_eq!((d.x(), d.y(), d.z()), (600_000, 800_000, 0));
}

#[test]
fn dielectric_reflects_totally_beyond_the_critical_angle() {
    // Leaving glass at a grazing angle: 1.5 * sin(theta) = 1.2 > 1, so the
    // ray must reflect, whatever the reflectance draw.
    let mat = Material::Dielectric(1_500_000);
    let ray = Ray::from(Vec3::from(-800_000, 600_000, 0), Vec3::from(800_000, -600_000, 0));
    let rec = HitRecord {
        p: Vec3::from(0, 0, 0),
        normal: Vec3::from(0, 1_000_000, 0),
        mat,
        t: 1_000_000,
        front_face: false,
    };
    for _ in 0..50 {
        let (att, scattered) = mat.scatter(&ray, &rec).expect("glass never absorbs");
        // A dielectric does not tint the light.
        assert_eq!((att.x(), att.y(), att.z()), (1_000_000, 1_000_000, 1_000_000));
        let d = *scattered.direction();
        assert_eq!((d.x(), d.y(), d.z()), (800_000, 600_000, 0));
    }
}

#[test]
fn schlick_reflectance_at_normal_incidence() {
    // cos = 1: the polynomial collapses to r0^2 = ((1-1.5)/(1+1.5))^2 = 0.04.
    assert_eq!(reflectance(1_000_000, 1_500_000), 40_000);
}

#[test]
fn half_angle_tangent() {
    assert_eq!(half_tan(0), 0);
    // tan(45 degrees) is one, up to the polynomial's tolerance.
    let t = half_tan(90_000_000);
    assert!((999_000..=1_001_000).contains(&t), "tan {t}");
    // tan(10 degrees) is about 0.17633.
    let t20 = half_tan(20_000_000);
    assert!((175_300..=177_300).contains(&t20), "tan {t20}");
}

#[test]
fn sky_gradient_blends_white_to_blue() {
    // Straight up: pure sky blue.
    let top = sky_color(&Vec3::from(0, 1_000_000, 0));
    assert_eq!((top.x(), top.y(), top.z()), (500_000, 700_000, 1_000_000));
    // Straight down: pure white.
    let bottom = sky_color(&Vec3::from(0, -1_000_000, 0));
    assert_eq!((bottom.x(), bottom.y(), bottom.z()), (1_000_000, 1_000_000, 1_000_000));
    // Horizontal: the even blend.
    let mid = sky_color(&Vec3::from(1_000_000, 0, 0));
    assert_eq!((mid.x(), mid.y(), mid.z()), (750_000, 850_000, 1_000_000));
}

#[test]
fn averaging_identical_samples_reproduces_the_sample() {
    let c = Color::from(123_456, 654_321, 999_999);
    let n: u32 = 7;
    let mut acc = Color::black();
    for _ in 0..n {
        acc.add_assign(&c);
    }
    acc.div_assign((n as i64) * 1_000_000);
    assert_eq!((acc.x(), acc.y(), acc.z()), (123_456, 654_321, 999_999));
}

#[test]
fn builder_defaults_and_derived_height() {
    let b = CameraBuilder::new();
    let cam = b.build();
    assert_eq!(cam.image_width, 400);
    // 400 / (16:9) rounds down to 225.
    assert_eq!(cam.image_height, 225);
    assert_eq!(cam.samples, 100);
    assert_eq!(cam.max_depth, 50);
    assert_eq!(cam.defocus_angle, 0);
    // The eye sits at the configured viewpoint.
    assert_eq!(cam.camera_center.z(), -1_000_000);
}

#[test]
fn pinhole_rays_start_exactly_at_the_eye() {
    let mut b = CameraBuilder::new();
    b.image_width(64);
    b.samples(1);
    b.look_from(Vec3::from(3_000_000, 2_000_000, 1_000_000));
    b.look_at(Vec3::from(0, 0, -1_000_000));
    b.defocus_angle(0);
    let cam = b.build();
    for (i, j) in [(0u32, 0u32), (10, 5), (63, 35), (31, 17)] {
        let ray = cam.get_ray(i, j);
        let o = *ray.origin();
        assert_eq!((o.x(), o.y(), o.z()), (3_000_000, 2_000_000, 1_000_000));
        assert!(ray.direction().length_squared() >= 1);
    }
}

#[test]
fn image_height_is_floored_at_one() {
    // Width one at a wide aspect ratio would round the height to zero; the
    // camera floors it at one and still renders.
    let mut b = CameraBuilder::new();
    b.image_width(1);
    b.aspect_ratio(10_000_000);
    b.samples(1);
    b.max_depth(2);
    let cam = b.build();
    assert_eq!(cam.image_height, 1);
    let world: HitList<Sphere> = HitList::new();
    let img = cam.render(&world);
    assert_eq!(img.len(), 3);
}

#[test]
fn wide_field_of_view_tangent() {
    // tan(80 degrees) is about 5.671, near the top of the supported range.
    let t = half_tan(160_000_000);
    assert!((5_600_000..=5_750_000).contains(&t), "tan {t}");
}

#[test]
fn defocus_blur_renders_and_jitters_within_bounds() {
    let mut b = CameraBuilder::new();
    b.image_width(16);
    b.samples(2);
    b.max_depth(3);
    b.look_from(Vec3::from(0, 0, 0));
    b.look_at(Vec3::from(0, 0, -1_000_000));
    b.defocus_angle(10_000_000);
    b.focus_dist(3_400_000);
    let cam = b.build();
    let mut world: HitList<Sphere> = HitList::new();
    world.push(Sphere::new(Vec3::from(0, 0, -2_000_000), 500_000, gray()));
    let img = cam.render(&world);
    assert_eq!(img.len(), 3 * 16 * cam.image_height as usize);
    for (i, j) in [(0u32, 0u32), (15, 0)] {
        let ray = cam.get_ray(i, j);
        // The lens origin stays near the eye: within the defocus radius.
        assert!(ray.origin().length() < 1_000_000);
        assert!(ray.direction().length_squared() >= 1);
    }
}

#[test]
fn depth_zero_yields_black() {
    let mut world: HitList<Sphere> = HitList::new();
    world.push(Sphere::new(Vec3::from(0, 0, -2_000_000), 500_000, gray()));
    let ray = Ray::from(Vec3::from(0, 0, 0), Vec3::from(0, 0, -1_000_000));
    let c = Camera::ray_color(&ray, 0, &world);
    assert_eq!((c.x(), c.y(), c.z()), (0, 0, 0));
}

#[test]
fn missing_everything_yields_the_sky_gradient() {
    let world: HitList<Sphere> = HitList::new();
    let ray = Ray::from(Vec3::from(0, 0, 0), Vec3::from(0, 1_000_000, 0));
    let c = Camera::ray_color(&ray, 5, &world);
    assert_eq!((c.x(), c.y(), c.z()), (500_000, 700_000, 1_000_000));
}

#[test]
fn render_of_a_two_sphere_scene_shades_center_and_sky() {
    // A ground sphere and a small diffuse sphere in front of a pinhole
    // camera: the center pixel shows the sphere's tint, and a top corner
    // pixel shows the sky gradient.
    let ground = Material::Lambertian(Color::from(800_000, 800_000, 0));
    let center_mat = Material::Lambertian(Color::from(700_000, 300_000, 300_000));
    let mut world: HitList<Sphere> = HitList::new();
    world.push(Sphere::new(Vec3::from(0, -100_500_000, -1_000_000), 100_000_000, ground));
    world.push(Sphere::new(Vec3::from(0, 0, -1_000_000), 500_000, center_mat));

    let mut b = CameraBuilder::new();
    b.image_width(800);
    b.aspect_ratio(1_777_777);
    b.look_from(Vec3::from(0, 0, 0));
    b.look_at(Vec3::from(0, 0, -1_000_000));
    b.focus_dist(1_000_000);
    b.samples(1);
    b.max_depth(4);
    b.defocus_angle(0);
    let cam = b.build();
    assert_eq!(cam.image_height, 450);

    let img = cam.render(&world);
    assert_eq!(img.len(), 800 * 450 * 3);

    // The center pixel: tinted by the small sphere's albedo (0.7, 0.3, 0.3),
    // so each channel stays below the gamma-corrected albedo, and the blue
    // channel is far below the sky's constant full blue.
    let center = 3 * (225 * 800 + 400);
    let (r, g, bl) = (img[center], img[center + 1], img[center + 2]);
    assert!(r <= 214, "center red {r}");
    assert!(g <= 140, "center green {g}");
    assert!(bl <= 140, "center blue {bl}");

    // The top-left corner pixel: pure sky. The gradient's blue channel is
    // exactly one, and red/green sit in the blend's range for an upward
    // direction.
    let (cr, cg, cb) = (img[0], img[1], img[2]);
    assert_eq!(cb, 255, "corner blue");
    assert!((180..=225).contains(&cr), "corner red {cr}");
    assert!((205..=245).contains(&cg), "corner green {cg}");
}
