use raytracer::scalar::Scalar;
use raytracer::objects::{Sphere, Triangle, ONE_BITS, SPHERE_EPSILON_BITS, TRIANGLE_EPSILON_BITS};
use raytracer::shading::{checker_dark, in_shadow, next_bounce, pack_rgb, reflects, MAX_BOUNCES};

fn s(x: f32) -> Scalar {
    Scalar::from_bits(x.to_bits())
}

fn triangle_hit(det: Scalar, u: Scalar, v: Scalar, uv: Scalar, t: Scalar) -> bool {
    let got = Triangle::intersect(det, u, v, uv, t);
    assert!(got.is_none() || got.map(|x| x.bits) == Some(t.bits));
    got.is_some()
}

fn tile(x: f32, z: f32) -> bool {
    checker_dark(x.floor() as i32, z.floor() as i32)
}

#[test]
fn checkerboard_alternates_at_tile_boundaries() {
    assert!(!tile(0.5, 0.5));
    assert!(tile(1.5, 0.5));
    assert!(tile(0.5, 1.5));
    assert!(!tile(1.5, 1.5));
    assert!(!tile(0.0, 0.999));
    assert!(tile(1.0, 0.999));
}

#[test]
fn checkerboard_mirrors_across_the_axes() {
    assert!(tile(-0.5, 0.5));
    assert!(tile(0.5, -0.5));
    assert!(!tile(-0.5, -0.5));
    assert!(!tile(-1.5, 0.5));
    assert!(tile(-1.5, -0.5));
}

#[test]
fn checkerboard_is_defined_at_the_ends_of_the_range() {
    assert!(!checker_dark(i32::MAX, i32::MAX));
    assert!(checker_dark(i32::MAX, i32::MIN));
    assert!(!checker_dark(i32::MIN, i32::MIN));
    assert!(checker_dark(i32::MAX, 0));
}

#[test]
fn opaque_blocker_before_the_light_shadows() {
    assert!(in_shadow(s(4.0), s(0.0), s(25.0)));
}

#[test]
fn no_shadow_from_what_lies_behind_the_light_or_emits() {
    assert!(!in_shadow(s(36.0), s(0.0), s(25.0)));
    assert!(!in_shadow(s(25.0), s(0.0), s(25.0)));
    assert!(!in_shadow(s(4.0), s(80.0), s(25.0)));
    assert!(!in_shadow(s(f32::NAN), s(0.0), s(25.0)));
}

#[test]
fn only_positive_reflectance_sends_the_ray_on() {
    assert!(reflects(s(0.9)));
    assert!(reflects(s(1e-30)));
    assert!(!reflects(s(0.0)));
    assert!(!reflects(s(-0.0)));
    assert!(!reflects(s(-0.5)));
    assert!(!reflects(s(f32::NAN)));
    assert_eq!(MAX_BOUNCES, 4);
}

#[test]
fn pixel_word_has_opaque_alpha_then_red_green_blue() {
    assert_eq!(pack_rgb(0, 0, 0), 0xff00_0000);
    assert_eq!(pack_rgb(255, 255, 255), 0xffff_ffff);
    assert_eq!(pack_rgb(0x12, 0x34, 0x56), 0xff12_3456);
    assert_eq!(pack_rgb(255, 0, 0), 0xffff_0000);
}

#[test]
fn at_most_four_rays_are_followed() {
    assert_eq!(next_bounce(0, true, s(0.5)), Some(1));
    assert_eq!(next_bounce(1, true, s(0.5)), Some(2));
    assert_eq!(next_bounce(2, true, s(0.5)), Some(3));
    assert_eq!(next_bounce(3, true, s(0.5)), None);
    assert_eq!(next_bounce(255, true, s(0.5)), None);
}

#[test]
fn a_miss_or_a_matte_surface_ends_the_path() {
    assert_eq!(next_bounce(0, false, s(0.5)), None);
    assert_eq!(next_bounce(0, true, s(0.0)), None);
    assert_eq!(next_bounce(0, true, s(f32::NAN)), None);
}

#[test]
fn thresholds_are_the_encodings_of_their_values() {
    assert_eq!(TRIANGLE_EPSILON_BITS, 1e-6f32.to_bits());
    assert_eq!(SPHERE_EPSILON_BITS, 0.001f32.to_bits());
    assert_eq!(ONE_BITS, 1.0f32.to_bits());
}

#[test]
fn sphere_is_hit_at_its_smallest_root_that_is_not_negative() {
    assert_eq!(Sphere::intersect(s(4.0), s(5.0), s(7.0)), Some(s(5.0)));
    assert_eq!(Sphere::intersect(s(0.0), s(2.0), s(2.0)), Some(s(2.0)));
    assert_eq!(Sphere::intersect(s(4.0), s(0.001), s(2.0)), Some(s(0.001)));
}

#[test]
fn sphere_is_hit_from_inside_at_the_far_root() {
    assert_eq!(Sphere::intersect(s(4.0), s(-1.0), s(1.0)), Some(s(1.0)));
    assert_eq!(Sphere::intersect(s(4.0), s(-1e-9), s(0.5)), Some(s(0.5)));
    assert_eq!(Sphere::intersect(s(4.0), s(-3.0), s(0.001)), Some(s(0.001)));
}

#[test]
fn sphere_is_missed_without_a_root_ahead_or_below_the_guard_distance() {
    assert_eq!(Sphere::intersect(s(-1e-9), s(5.0), s(7.0)), None);
    assert_eq!(Sphere::intersect(s(-4.0), s(5.0), s(7.0)), None);
    assert_eq!(Sphere::intersect(s(4.0), s(-3.0), s(-1.0)), None);
    assert_eq!(Sphere::intersect(s(4.0), s(0.0009), s(2.0)), None);
    assert_eq!(Sphere::intersect(s(4.0), s(0.0), s(2.0)), None);
    assert_eq!(Sphere::intersect(s(4.0), s(-3.0), s(0.0009)), None);
}

#[test]
fn sphere_roots_that_are_not_numbers_are_no_hit() {
    assert_eq!(Sphere::intersect(s(f32::NAN), s(f32::NAN), s(f32::NAN)), None);
    assert_eq!(Sphere::intersect(s(4.0), s(f32::NAN), s(f32::NAN)), None);
    assert_eq!(Sphere::intersect(s(4.0), s(f32::NAN), s(2.0)), Some(s(2.0)));
    assert_eq!(Sphere::intersect(s(f32::NAN), s(1.0), s(2.0)), Some(s(1.0)));
}

#[test]
fn triangle_solutions_count_inside_the_triangle_and_ahead() {
    assert!(triangle_hit(s(2.0), s(0.25), s(0.25), s(0.5), s(3.0)));
    assert!(triangle_hit(s(-2.0), s(0.0), s(0.0), s(0.0), s(3.0)));
    assert!(triangle_hit(s(2.0), s(1.0), s(0.0), s(1.0), s(3.0)));
    assert!(!triangle_hit(s(2.0), s(-0.1), s(0.25), s(0.15), s(3.0)));
    assert!(!triangle_hit(s(2.0), s(1.1), s(0.0), s(1.1), s(3.0)));
    assert!(!triangle_hit(s(2.0), s(0.25), s(-0.1), s(0.15), s(3.0)));
    assert!(!triangle_hit(s(2.0), s(0.75), s(0.5), s(1.25), s(3.0)));
    assert!(!triangle_hit(s(2.0), s(0.25), s(0.25), s(0.5), s(1e-6)));
    assert!(!triangle_hit(s(2.0), s(0.25), s(0.25), s(0.5), s(-3.0)));
    assert!(!triangle_hit(s(2.0), s(f32::NAN), s(0.25), s(f32::NAN), s(3.0)));
}

#[test]
fn a_ray_parallel_to_the_triangle_plane_misses() {
    assert!(!triangle_hit(s(0.0), s(0.25), s(0.25), s(0.5), s(3.0)));
    assert!(!triangle_hit(s(-0.0), s(0.25), s(0.25), s(0.5), s(3.0)));
    assert!(!triangle_hit(s(9e-7), s(0.25), s(0.25), s(0.5), s(3.0)));
    assert!(!triangle_hit(s(-9e-7), s(0.25), s(0.25), s(0.5), s(3.0)));
    assert!(triangle_hit(s(1e-6), s(0.25), s(0.25), s(0.5), s(3.0)));
}

#[test]
fn a_hit_is_reported_at_its_distance() {
    assert_eq!(Sphere::intersect(s(4.0), s(5.0), s(6.0)), Some(s(5.0)));
    assert_eq!(Sphere::intersect(s(-4.0), s(5.0), s(6.0)), None);
    assert_eq!(Triangle::intersect(s(2.0), s(0.25), s(0.25), s(0.5), s(3.0)), Some(s(3.0)));
    assert_eq!(Triangle::intersect(s(0.0), s(0.25), s(0.25), s(0.5), s(3.0)), None);
}
