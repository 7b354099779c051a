use raytracer::scalar::Scalar;
use raytracer::utility::{clamp, degrees_to_radians, random_double, random_double_range, spread_over};
use raytracer::vec::{cross, dot, reflect, refract, unit_vector, Vec3};

fn s(x: f32) -> Scalar {
    Scalar::from_bits(x.to_bits())
}

fn f(x: Scalar) -> f32 {
    f32::from_bits(x.to_bits())
}

fn v(x: f32, y: f32, z: f32) -> Vec3 {
    Vec3::new(s(x), s(y), s(z))
}

fn a(v: Vec3) -> [f32; 3] {
    [f(v.x), f(v.y), f(v.z)]
}

#[test]
fn empty_is_the_zero_vector() {
    assert_eq!(a(Vec3::empty()), [0.0, 0.0, 0.0]);
    assert_eq!(Vec3::empty().x.to_bits(), 0);
}

#[test]
fn new_and_accessors() {
    let p = v(1.0, -2.0, 3.5);
    assert_eq!(f(p.x()), 1.0);
    assert_eq!(f(p.y()), -2.0);
    assert_eq!(f(p.z()), 3.5);
    assert_eq!(f(p[0]), 1.0);
    assert_eq!(f(p[1]), -2.0);
    assert_eq!(f(p[2]), 3.5);
}

#[test]
fn elementwise_arithmetic() {
    let p = v(1.0, 2.0, 3.0);
    let q = v(0.5, -4.0, 10.0);
    assert_eq!(a(p + q), [1.5, -2.0, 13.0]);
    assert_eq!(a(p - q), [0.5, 6.0, -7.0]);
    assert_eq!(a(p * q), [0.5, -8.0, 30.0]);
    assert_eq!(a(-p), [-1.0, -2.0, -3.0]);
}

#[test]
fn scaling_and_division() {
    let p = v(1.0, 2.0, 3.0);
    assert_eq!(a(p * s(2.0)), [2.0, 4.0, 6.0]);
    assert_eq!(a(p / s(2.0)), [0.5, 1.0, 1.5]);
}

#[test]
fn division_multiplies_by_the_reciprocal() {
    let p = v(1.0, 2.0, 7.0);
    let r = 1.0f32 / 3.0;
    assert_eq!(a(p / s(3.0)), [1.0 * r, 2.0 * r, 7.0 * r]);
}

#[test]
fn length_and_length_squared() {
    let p = v(3.0, 4.0, 12.0);
    assert_eq!(f(p.length_squared()), 169.0);
    assert_eq!(f(p.length()), 13.0);
    let q = v(0.1, 0.2, 0.3);
    assert_eq!(f(q.length_squared()), 0.1f32 * 0.1 + 0.2f32 * 0.2 + 0.3f32 * 0.3);
}

#[test]
fn dot_product_sums_the_products() {
    assert_eq!(f(dot(&v(1.0, 2.0, 3.0), &v(4.0, -5.0, 6.0))), 12.0);
    let (p, q) = ([0.1f32, 0.7, -0.3], [0.9f32, 0.2, 0.4]);
    assert_eq!(
        f(dot(&v(p[0], p[1], p[2]), &v(q[0], q[1], q[2]))),
        p[0] * q[0] + p[1] * q[1] + p[2] * q[2]
    );
}

#[test]
fn cross_product_of_axes() {
    assert_eq!(a(cross(&v(1.0, 0.0, 0.0), &v(0.0, 1.0, 0.0))), [0.0, 0.0, 1.0]);
    assert_eq!(a(cross(&v(0.0, 1.0, 0.0), &v(0.0, 0.0, 1.0))), [1.0, 0.0, 0.0]);
    assert_eq!(a(cross(&v(0.0, 0.0, 1.0), &v(1.0, 0.0, 0.0))), [0.0, 1.0, 0.0]);
    assert_eq!(a(cross(&v(1.0, 2.0, 3.0), &v(4.0, 5.0, 6.0))), [-3.0, 6.0, -3.0]);
}

#[test]
fn cross_product_is_orthogonal_to_both() {
    let pairs = [
        (v(1.0, 2.0, 3.0), v(-4.0, 0.5, 6.0)),
        (v(0.3, -0.7, 0.2), v(0.9, 0.1, -0.4)),
        (v(13.0, 2.0, 3.0), v(0.0, 1.0, 0.0)),
        (v(1.0, 0.0, 0.0), v(1.0, 1.0e-3, 0.0)),
    ];
    for (p, q) in pairs {
        let c = cross(&p, &q);
        assert!(f(dot(&c, &p)).abs() <= 1.0e-4);
        assert!(f(dot(&c, &q)).abs() <= 1.0e-4);
    }
}

#[test]
fn unit_vector_has_length_one() {
    let inputs = [
        v(3.0, 4.0, 0.0),
        v(1.0, 1.0, 1.0),
        v(-0.001, 0.002, 0.0005),
        v(1000.0, -2000.0, 3000.0),
        v(13.0, 2.0, 3.0),
        v(0.0, 0.0, -7.0),
    ];
    for p in inputs {
        let u = unit_vector(p);
        assert!((f(u.length()) - 1.0).abs() <= 1.0e-5);
    }
    assert_eq!(a(unit_vector(v(0.0, 0.0, -7.0))), [-0.0, -0.0, -7.0 * (1.0f32 / 7.0)]);
}

#[test]
fn unit_vector_of_a_vector_beyond_the_range_is_lost() {
    // The square of the length is infinite, so its reciprocal is zero.
    let u = unit_vector(v(3.0e38, 0.0, 0.0));
    assert_eq!(a(u), [0.0, 0.0, 0.0]);
    // The square of the length is zero, so its reciprocal is infinite.
    let u = unit_vector(v(1.0e-30, 0.0, 0.0));
    assert_eq!(f(u.x), f32::INFINITY);
    assert!(f(u.y).is_nan());
}

#[test]
fn cross_product_beyond_the_range_is_lost() {
    let c = cross(&v(1.0e30, 0.0, 0.0), &v(0.0, 1.0e30, 0.0));
    assert_eq!(f(c.z), f32::INFINITY);
    assert!(f(dot(&c, &v(1.0e30, 0.0, 0.0))).is_nan());
}

#[test]
fn unit_vector_of_zero_is_no_number() {
    let u = unit_vector(Vec3::empty());
    assert!(f(u.x).is_nan() && f(u.y).is_nan() && f(u.z).is_nan());
}

#[test]
fn reflect_mirrors_at_the_normal() {
    assert_eq!(a(reflect(&v(1.0, -1.0, 0.0), &v(0.0, 1.0, 0.0))), [1.0, 1.0, 0.0]);
    assert_eq!(a(reflect(&v(0.0, 0.0, -1.0), &v(0.0, 0.0, 1.0))), [0.0, 0.0, 1.0]);
    assert_eq!(a(reflect(&v(1.0, 2.0, 3.0), &v(1.0, 0.0, 0.0))), [-1.0, 2.0, 3.0]);
}

#[test]
fn refract_straight_through() {
    let r = refract(&v(0.0, -1.0, 0.0), &v(0.0, 1.0, 0.0), s(1.0));
    assert_eq!(a(r), [0.0, -1.0, 0.0]);
    let r = refract(&v(0.0, -1.0, 0.0), &v(0.0, 1.0, 0.0), s(1.0 / 1.5));
    assert_eq!(f(r.x), 0.0);
    assert_eq!(f(r.y), -1.0);
}

#[test]
fn refract_follows_the_formula() {
    let (uv, n, ratio) = ([0.6f32, -0.8, 0.0], [0.0f32, 1.0, 0.0], 1.0f32 / 1.5);
    let cos = (-uv[0] * n[0] + -uv[1] * n[1] + -uv[2] * n[2]).min(1.0);
    let perp = [
        (uv[0] + n[0] * cos) * ratio,
        (uv[1] + n[1] * cos) * ratio,
        (uv[2] + n[2] * cos) * ratio,
    ];
    let len2 = perp[0] * perp[0] + perp[1] * perp[1] + perp[2] * perp[2];
    let k = -((1.0 - len2).abs().sqrt());
    let want = [perp[0] + n[0] * k, perp[1] + n[1] * k, perp[2] + n[2] * k];
    let got = refract(&v(uv[0], uv[1], uv[2]), &v(n[0], n[1], n[2]), s(ratio));
    assert_eq!(a(got), want);
    assert!((f(got.x) - 0.4).abs() <= 1.0e-6);
}

#[test]
fn degrees_become_radians() {
    assert_eq!(f(degrees_to_radians(s(180.0))), std::f32::consts::PI);
    assert_eq!(f(degrees_to_radians(s(20.0))), 20.0f32 * std::f32::consts::PI / 180.0);
    assert_eq!(f(degrees_to_radians(s(0.0))), 0.0);
}

#[test]
fn clamp_brings_into_the_interval() {
    assert_eq!(f(clamp(s(0.5), s(0.0), s(0.999))), 0.5);
    assert_eq!(f(clamp(s(-0.5), s(0.0), s(0.999))), 0.0);
    assert_eq!(f(clamp(s(1.5), s(0.0), s(0.999))), 0.999);
    assert_eq!(f(clamp(s(0.0), s(0.0), s(0.999))), 0.0);
    assert_eq!(f(clamp(s(0.999), s(0.0), s(0.999))), 0.999);
    assert!(f(clamp(s(f32::NAN), s(0.0), s(0.999))).is_nan());
}

#[test]
fn spread_over_maps_the_unit_interval() {
    assert_eq!(f(spread_over(s(-1.0), s(1.0), s(0.0))), -1.0);
    assert_eq!(f(spread_over(s(-1.0), s(1.0), s(0.5))), 0.0);
    assert_eq!(f(spread_over(s(0.5), s(1.0), s(0.5))), 0.75);
    assert_eq!(f(spread_over(s(2.0), s(10.0), s(0.25))), 4.0);
}

#[test]
fn random_double_is_in_the_unit_interval() {
    let mut rng = rand::thread_rng();
    let mut distinct = false;
    let first = f(random_double(&mut rng));
    for _ in 0..10000 {
        let x = f(random_double(&mut rng));
        assert!(0.0 <= x && x < 1.0);
        distinct = distinct || x != first;
    }
    assert!(distinct);
}

#[test]
fn random_numbers_are_whole_steps_of_the_generator() {
    let mut rng = rand::thread_rng();
    let steps = 16_777_216.0f32;
    let mut odd = false;
    for _ in 0..10000 {
        let x = f(random_double(&mut rng)) * steps;
        assert_eq!(x, x.trunc());
        odd = odd || (x as u32) % 2 == 1;
        for c in a(Vec3::random(&mut rng)) {
            assert_eq!(c * steps, (c * steps).trunc());
        }
    }
    assert!(odd);
}

#[test]
fn random_double_range_is_in_the_range() {
    let mut rng = rand::thread_rng();
    for _ in 0..10000 {
        let x = f(random_double_range(&mut rng, s(-1.0), s(1.0)));
        assert!(-1.0 <= x && x < 1.0);
        let y = f(random_double_range(&mut rng, s(0.5), s(1.0)));
        assert!(0.5 <= y && y <= 1.0);
    }
}

#[test]
fn random_vectors_are_in_their_cubes() {
    let mut rng = rand::thread_rng();
    for _ in 0..1000 {
        let p = Vec3::random(&mut rng);
        for c in a(p) {
            assert!(0.0 <= c && c < 1.0);
        }
        let q = Vec3::random_range(&mut rng, s(0.5), s(1.0));
        for c in a(q) {
            assert!(0.5 <= c && c <= 1.0);
        }
    }
}

#[test]
fn from_units_maps_each_component() {
    assert_eq!(a(Vec3::from_units(s(-1.0), s(1.0), s(0.0), s(0.5), s(0.75))), [-1.0, 0.0, 0.5]);
}

#[test]
fn random_in_unit_sphere_is_inside() {
    let mut rng = rand::thread_rng();
    let mut moved = false;
    for _ in 0..10000 {
        let p = Vec3::random_in_unit_sphere(&mut rng);
        assert!(f(p.length_squared()) < 1.0);
        assert!(p.inside_unit_ball());
        moved = moved || f(p.x) != 0.0;
    }
    assert!(moved);
}

#[test]
fn random_in_unit_disk_is_inside_and_flat() {
    let mut rng = rand::thread_rng();
    for _ in 0..10000 {
        let p = Vec3::random_in_unit_disk(&mut rng);
        assert!(f(p.length_squared()) < 1.0);
        assert_eq!(p.z.to_bits(), 0);
    }
}

#[test]
fn inside_unit_ball_is_strict() {
    assert!(v(0.0, 0.0, 0.0).inside_unit_ball());
    assert!(v(0.5, 0.5, 0.5).inside_unit_ball());
    assert!(!v(1.0, 0.0, 0.0).inside_unit_ball());
    assert!(!v(0.6, 0.8, 0.1).inside_unit_ball());
    assert!(!v(f32::NAN, 0.0, 0.0).inside_unit_ball());
}

#[test]
fn random_unit_vector_has_length_one() {
    let mut rng = rand::thread_rng();
    for _ in 0..10000 {
        let p = Vec3::random_unit_vector(&mut rng);
        assert!((f(p.length()) - 1.0).abs() <= 1.0e-3);
        assert!(f(p.y) >= 0.0);
    }
}

#[test]
fn from_azimuth_and_height_follows_the_formula() {
    let (az, z) = (0.7f32, 0.25f32);
    let r = (1.0 - z * z).sqrt();
    let got = Vec3::from_azimuth_and_height(s(az), s(z));
    assert_eq!(f(got.z), z);
    assert_eq!(got.x.to_bits(), (s(r) * s(az).cos()).to_bits());
    assert_eq!(got.y.to_bits(), (s(r) * s(az).sin()).to_bits());
    assert!((f(got.x) - r * az.cos()).abs() <= 1.0e-6);
    assert!((f(got.y) - r * az.sin()).abs() <= 1.0e-6);
    assert_eq!(a(Vec3::from_azimuth_and_height(s(0.0), s(0.0))), [1.0, 0.0, 0.0]);
}
