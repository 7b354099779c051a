use raytracer::camera::Camera;
use raytracer::color::{push_decimal, quantize, write_color};
use raytracer::render::{image_height, write_header};
use raytracer::scalar::Scalar;
use raytracer::vec::{cross, unit_vector, Vec3};

fn s(x: f32) -> Scalar {
    Scalar::from_bits(x.to_bits())
}

fn f(x: Scalar) -> f32 {
    f32::from_bits(x.to_bits())
}

fn v(x: f32, y: f32, z: f32) -> Vec3 {
    Vec3::new(s(x), s(y), s(z))
}

fn a(v: Vec3) -> [f32; 3] {
    [f(v.x), f(v.y), f(v.z)]
}

fn close(got: Vec3, want: [f32; 3]) -> bool {
    let g = a(got);
    (0..3).all(|i| (g[i] - want[i]).abs() <= 1.0e-5)
}

fn line(pixel: Vec3, samples: i32) -> String {
    let mut out = Vec::new();
    write_color(&mut out, pixel, samples);
    String::from_utf8(out).expect("a line of a pixel is ASCII")
}

fn number(n: i32) -> String {
    let mut out = Vec::new();
    push_decimal(&mut out, n);
    String::from_utf8(out).expect("a number is ASCII")
}

#[test]
fn camera_looking_down_z() {
    let c = Camera::new(
        v(0.0, 0.0, 0.0),
        v(0.0, 0.0, -1.0),
        v(0.0, 1.0, 0.0),
        s(90.0),
        s(2.0),
        s(0.0),
        s(1.0),
    );
    assert_eq!(a(c.origin), [0.0, 0.0, 0.0]);
    assert_eq!(a(c.w), [0.0, 0.0, 1.0]);
    assert_eq!(a(c.u), [1.0, 0.0, 0.0]);
    assert_eq!(a(c.v), [0.0, 1.0, 0.0]);
    assert_eq!(f(c.lens_radius), 0.0);
    assert!(close(c.horizontal, [4.0, 0.0, 0.0]));
    assert!(close(c.vertical, [0.0, 2.0, 0.0]));
    assert!(close(c.lower_left_corner, [-2.0, -1.0, -1.0]));
    let middle = c.get_ray_from(s(0.5), s(0.5), v(0.3, -0.4, 0.0));
    assert_eq!(a(middle.origin()), [0.0, 0.0, 0.0]);
    assert!(close(middle.direction(), [0.0, 0.0, -1.0]));
    let corner = c.get_ray_from(s(1.0), s(1.0), v(0.0, 0.0, 0.0));
    assert!(close(corner.direction(), [2.0, 1.0, -1.0]));
}

#[test]
fn camera_follows_the_formulas() {
    let (from, at, up) = (v(13.0, 2.0, 3.0), v(0.0, 0.0, 0.0), v(0.0, 1.0, 0.0));
    let (vfov, aspect, aperture, focus) = (s(20.0), s(16.0) / s(9.0), s(0.1), s(10.0));
    let c = Camera::new(from, at, up, vfov, aspect, aperture, focus);

    let theta = vfov * s(std::f32::consts::PI) / s(180.0);
    let half = theta / s(2.0);
    let h = half.sin() / half.cos();
    assert!((f(h) - 10.0f32.to_radians().tan()).abs() <= 1.0e-6);
    let height = s(2.0) * h;
    let width = aspect * height;
    let w = unit_vector(from - at);
    let u = unit_vector(cross(&up, &w));
    let vv = cross(&w, &u);
    let horizontal = u * width * focus;
    let vertical = vv * height * focus;
    let corner = from - horizontal / s(2.0) - vertical / s(2.0) - w * focus;

    assert_eq!(a(c.origin), [13.0, 2.0, 3.0]);
    assert_eq!(a(c.w), a(w));
    assert_eq!(a(c.u), a(u));
    assert_eq!(a(c.v), a(vv));
    assert_eq!(a(c.horizontal), a(horizontal));
    assert_eq!(a(c.vertical), a(vertical));
    assert_eq!(a(c.lower_left_corner), a(corner));
    assert_eq!(f(c.lens_radius), 0.05);
    assert!((f(c.u.length()) - 1.0).abs() <= 1.0e-5);
    assert!((f(c.v.length()) - 1.0).abs() <= 1.0e-5);
    assert!((f(c.w.length()) - 1.0).abs() <= 1.0e-5);

    let p = v(0.5, -0.25, 0.0);
    let ray = c.get_ray_from(s(0.25), s(0.75), p);
    let rd = p * c.lens_radius;
    let offset = c.u * rd.x + c.v * rd.y;
    assert_eq!(a(ray.origin()), a(c.origin + offset));
    assert_eq!(
        a(ray.direction()),
        a(c.lower_left_corner + c.horizontal * s(0.25) + c.vertical * s(0.75) - c.origin - offset)
    );
}

#[test]
fn pinhole_rays_start_at_the_camera() {
    let c = Camera::new(
        v(13.0, 2.0, 3.0),
        v(0.0, 0.0, 0.0),
        v(0.0, 1.0, 0.0),
        s(20.0),
        s(16.0) / s(9.0),
        s(0.0),
        s(10.0),
    );
    assert_eq!(f(c.lens_radius), 0.0);
    let mut rng = rand::thread_rng();
    for k in 0..1000 {
        let t = (k as f32) / 1000.0;
        let ray = c.get_ray(s(t), s(1.0 - t), &mut rng);
        assert_eq!(a(ray.origin()), [13.0, 2.0, 3.0]);
    }
    for p in [v(0.9, 0.1, 0.0), v(-0.5, -0.5, 0.0), v(0.0, 0.0, 0.0)] {
        assert_eq!(a(c.get_ray_from(s(0.3), s(0.6), p).origin()), [13.0, 2.0, 3.0]);
    }
}

#[test]
fn lens_moves_the_start_of_a_ray() {
    let c = Camera::new(
        v(0.0, 0.0, 0.0),
        v(0.0, 0.0, -1.0),
        v(0.0, 1.0, 0.0),
        s(90.0),
        s(2.0),
        s(2.0),
        s(1.0),
    );
    assert_eq!(f(c.lens_radius), 1.0);
    let ray = c.get_ray_from(s(0.5), s(0.5), v(0.5, -0.25, 0.0));
    assert_eq!(a(ray.origin()), [0.5, -0.25, 0.0]);
    let mut rng = rand::thread_rng();
    let mut moved = false;
    for _ in 0..100 {
        let r = c.get_ray(s(0.5), s(0.5), &mut rng);
        assert!(f(r.origin().length_squared()) < 1.0);
        moved = moved || f(r.origin().x) != 0.0;
    }
    assert!(moved);
}

#[test]
fn full_white_is_255() {
    assert_eq!(line(v(4.0, 4.0, 4.0), 4), "255 255 255\n");
    assert_eq!(line(v(1.0, 1.0, 1.0), 1), "255 255 255\n");
    assert_eq!(line(v(100.0, 100.0, 100.0), 100), "255 255 255\n");
}

#[test]
fn the_sum_is_divided_by_the_number_of_samples() {
    assert_eq!(line(v(1.0, 1.0, 1.0), 4), "128 128 128\n");
    assert_eq!(quantize(s(1.0), 4), 128);
}

#[test]
fn channels_are_gamma_corrected() {
    assert_eq!(line(v(0.25, 0.5, 1.0), 1), "128 181 255\n");
    assert_eq!(line(v(0.0, 0.01, 0.04), 1), "0 25 51\n");
    let mean = 0.3f32 / 3.0;
    let want = (256.0 * mean.sqrt().clamp(0.0, 0.999)) as i32;
    assert_eq!(quantize(s(0.3), 3), want);
}

#[test]
fn channels_are_clamped() {
    assert_eq!(line(v(9.0, -1.0, 0.0), 1), "255 0 0\n");
    assert_eq!(line(v(f32::INFINITY, f32::NAN, -0.0), 1), "255 0 0\n");
    assert_eq!(quantize(s(0.999 * 0.999), 1), 255);
}

#[test]
fn no_samples_give_no_failure() {
    let text = line(v(1.0, 0.0, -1.0), 0);
    assert_eq!(text, "255 0 0\n");
}

#[test]
fn whole_numbers_in_base_ten() {
    assert_eq!(number(0), "0");
    assert_eq!(number(7), "7");
    assert_eq!(number(10), "10");
    assert_eq!(number(255), "255");
    assert_eq!(number(1920), "1920");
    assert_eq!(number(-1), "-1");
    assert_eq!(number(-1080), "-1080");
    assert_eq!(number(i32::MAX), "2147483647");
    assert_eq!(number(i32::MIN), "-2147483648");
}

#[test]
fn numbers_are_appended() {
    let mut out = vec![b'x'];
    push_decimal(&mut out, 42);
    push_decimal(&mut out, -5);
    assert_eq!(out, b"x42-5".to_vec());
    write_color(&mut out, v(1.0, 1.0, 1.0), 1);
    assert_eq!(out, b"x42-5255 255 255\n".to_vec());
}

#[test]
fn header_of_an_image() {
    let mut out = Vec::new();
    write_header(&mut out, 20, 10);
    assert_eq!(out, b"P3\n20 10\n255\n".to_vec());
    write_header(&mut out, 1920, 1080);
    assert_eq!(out, b"P3\n20 10\n255\nP3\n1920 1080\n255\n".to_vec());
}

#[test]
fn height_of_an_image() {
    assert_eq!(image_height(1920, s(16.0) / s(9.0)), 1080);
    assert_eq!(image_height(1920, s(16.0) / s(9.0)), (1920.0f32 / (16.0f32 / 9.0)) as i32);
    assert_eq!(image_height(400, s(16.0) / s(9.0)), 225);
    assert_eq!(image_height(20, s(2.0)), 10);
    assert_eq!(image_height(7, s(2.0)), 3);
}
