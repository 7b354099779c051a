use raytracer::aabb::{surrounding_box, Aabb};
use raytracer::ray::Ray;
use raytracer::scalar::Scalar;
use raytracer::vec::Vec3;

fn s(x: f32) -> Scalar {
    Scalar::from_bits(x.to_bits())
}

fn f(x: Scalar) -> f32 {
    f32::from_bits(x.to_bits())
}

fn v(x: f32, y: f32, z: f32) -> Vec3 {
    Vec3::new(s(x), s(y), s(z))
}

fn a(v: Vec3) -> [f32; 3] {
    [f(v.x), f(v.y), f(v.z)]
}

#[test]
fn ray_keeps_origin_and_direction() {
    let r = Ray::new(v(1.0, 2.0, 3.0), v(0.0, -1.0, 0.5));
    assert_eq!(a(r.origin()), [1.0, 2.0, 3.0]);
    assert_eq!(a(r.direction()), [0.0, -1.0, 0.5]);
}

#[test]
fn empty_ray_is_all_zero() {
    let r = Ray::empty();
    assert_eq!(a(r.origin()), [0.0, 0.0, 0.0]);
    assert_eq!(a(r.direction()), [0.0, 0.0, 0.0]);
}

#[test]
fn ray_at_walks_along_the_direction() {
    let r = Ray::new(v(1.0, 2.0, 3.0), v(0.0, -1.0, 0.5));
    assert_eq!(a(r.at(s(0.0))), [1.0, 2.0, 3.0]);
    assert_eq!(a(r.at(s(2.0))), [1.0, 0.0, 4.0]);
    assert_eq!(a(r.at(s(-1.0))), [1.0, 3.0, 2.5]);
}

#[test]
fn ray_with_zero_direction_stays_at_its_origin() {
    let r = Ray::new(v(1.0, 2.0, 3.0), v(0.0, 0.0, 0.0));
    assert_eq!(a(r.at(s(5.0))), [1.0, 2.0, 3.0]);
}

#[test]
fn box_keeps_its_corners() {
    let b = Aabb::new(v(-1.0, -2.0, -3.0), v(1.0, 2.0, 3.0));
    assert_eq!(a(b.min()), [-1.0, -2.0, -3.0]);
    assert_eq!(a(b.max()), [1.0, 2.0, 3.0]);
    let e = Aabb::empty();
    assert_eq!(a(e.min()), [0.0, 0.0, 0.0]);
    assert_eq!(a(e.max()), [0.0, 0.0, 0.0]);
}

#[test]
fn surrounding_box_takes_the_outer_corners() {
    let b0 = Aabb::new(v(-1.0, 0.0, -3.0), v(1.0, 2.0, 3.0));
    let b1 = Aabb::new(v(0.0, -5.0, -2.0), v(4.0, 1.0, 3.5));
    let u = surrounding_box(&b0, &b1);
    assert_eq!(a(u.min()), [-1.0, -5.0, -3.0]);
    assert_eq!(a(u.max()), [4.0, 2.0, 3.5]);
    let w = surrounding_box(&b1, &b0);
    assert_eq!(a(w.min()), [-1.0, -5.0, -3.0]);
    assert_eq!(a(w.max()), [4.0, 2.0, 3.5]);
}

#[test]
fn surrounding_box_of_a_box_with_itself() {
    let b = Aabb::new(v(-1.0, 0.0, -3.0), v(1.0, 2.0, 3.0));
    let u = surrounding_box(&b, &b);
    assert_eq!(a(u.min()), a(b.min()));
    assert_eq!(a(u.max()), a(b.max()));
}

#[test]
fn ray_through_the_box_hits() {
    let b = Aabb::new(v(-1.0, -1.0, -1.0), v(1.0, 1.0, 1.0));
    let r = Ray::new(v(0.0, 0.0, 5.0), v(0.1, 0.1, -1.0));
    assert!(b.hit(&r, s(0.001), s(f32::INFINITY)));
    let back = Ray::new(v(0.2, -0.3, -5.0), v(0.01, 0.02, 1.0));
    assert!(b.hit(&back, s(0.001), s(f32::INFINITY)));
}

#[test]
fn ray_beside_the_box_misses() {
    let b = Aabb::new(v(-1.0, -1.0, -1.0), v(1.0, 1.0, 1.0));
    let r = Ray::new(v(3.0, 0.0, 5.0), v(0.1, 0.1, -1.0));
    assert!(!b.hit(&r, s(0.001), s(f32::INFINITY)));
    let away = Ray::new(v(0.0, 0.0, 5.0), v(0.1, 0.1, 1.0));
    assert!(!b.hit(&away, s(0.001), s(f32::INFINITY)));
}

#[test]
fn box_outside_the_interval_is_missed() {
    let b = Aabb::new(v(-1.0, -1.0, -1.0), v(1.0, 1.0, 1.0));
    let r = Ray::new(v(0.0, 0.0, 5.0), v(0.1, 0.1, -1.0));
    assert!(!b.hit(&r, s(0.001), s(3.0)));
    assert!(!b.hit(&r, s(7.0), s(f32::INFINITY)));
    assert!(b.hit(&r, s(4.5), s(5.5)));
}

#[test]
fn ray_parallel_to_a_face() {
    let b = Aabb::new(v(-1.0, -1.0, -1.0), v(1.0, 1.0, 1.0));
    let inside = Ray::new(v(0.5, 0.5, 5.0), v(0.0, 0.0, -1.0));
    assert!(b.hit(&inside, s(0.001), s(f32::INFINITY)));
    let outside = Ray::new(v(2.0, 0.5, 5.0), v(0.0, 0.0, -1.0));
    assert!(!b.hit(&outside, s(0.001), s(f32::INFINITY)));
}

#[test]
fn interval_that_is_no_number_is_never_hit() {
    let b = Aabb::new(v(-1.0, -1.0, -1.0), v(1.0, 1.0, 1.0));
    let r = Ray::new(v(0.0, 0.0, 5.0), v(0.1, 0.1, -1.0));
    assert!(!b.hit(&r, s(f32::NAN), s(f32::INFINITY)));
    assert!(!b.hit(&r, s(0.0), s(f32::NAN)));
}
