use raytracer::camera::Camera;
use raytracer::hittable::{Hittable, HittableList};
use raytracer::material::{Lambertian, Material};
use raytracer::ray::Ray;
use raytracer::render::{ray_color, render, render_pixel, render_row, sky_color};
use raytracer::scalar::Scalar;
use raytracer::scene::{
    clear_of_feature, grid_center, random_scene, scene_camera as camera_of_the_scene,
    small_material, ASPECT_RATIO, IMAGE_WIDTH, MAX_DEPTH, SAMPLES_PER_PIXEL,
};
use raytracer::sphere::Sphere;
use raytracer::vec::Vec3;

fn s(x: f32) -> Scalar {
    Scalar::from_bits(x.to_bits())
}

fn f(x: Scalar) -> f32 {
    f32::from_bits(x.to_bits())
}

fn v(x: f32, y: f32, z: f32) -> Vec3 {
    Vec3::new(s(x), s(y), s(z))
}

fn a(v: Vec3) -> [f32; 3] {
    [f(v.x), f(v.y), f(v.z)]
}

fn sphere_of(h: &Hittable) -> Sphere {
    match h {
        Hittable::Sphere(sphere) => *sphere,
        _ => panic!("the scene holds spheres only"),
    }
}

fn scene_camera() -> Camera {
    Camera::new(
        v(13.0, 2.0, 3.0),
        v(0.0, 0.0, 0.0),
        v(0.0, 1.0, 0.0),
        s(20.0),
        s(16.0) / s(9.0),
        s(0.1),
        s(10.0),
    )
}

fn check_image(text: &[u8], width: usize, height: usize) {
    let text = String::from_utf8(text.to_vec()).expect("an image is ASCII");
    let head = format!("P3\n{} {}\n255\n", width, height);
    assert!(text.starts_with(&head));
    let body = &text[head.len()..];
    assert!(body.is_empty() || body.ends_with('\n'));
    let lines: Vec<&str> = body.lines().collect();
    assert_eq!(lines.len(), width * height);
    for l in lines {
        let channels: Vec<i32> = l.split(' ').map(|c| c.parse().expect("a whole number")).collect();
        assert_eq!(channels.len(), 3);
        for c in channels {
            assert!((0..=255).contains(&c));
        }
    }
}

#[test]
fn sky_is_white_below_and_blue_above() {
    assert_eq!(a(sky_color(&Ray::new(v(0.0, 0.0, 0.0), v(0.0, 1.0, 0.0)))), [0.5, 0.7, 1.0]);
    assert_eq!(a(sky_color(&Ray::new(v(0.0, 0.0, 0.0), v(0.0, -2.0, 0.0)))), [1.0, 1.0, 1.0]);
    assert_eq!(a(sky_color(&Ray::new(v(5.0, 5.0, 5.0), v(1.0, 0.0, 0.0)))), [0.75, 0.85, 1.0]);
}

#[test]
fn sky_follows_the_formula() {
    let d = [0.3f32, 0.4, -1.2];
    let inv = 1.0 / (d[0] * d[0] + d[1] * d[1] + d[2] * d[2]).sqrt();
    let t = 0.5 * (d[1] * inv + 1.0);
    let want = [1.0 * (1.0 - t) + 0.5 * t, 1.0 * (1.0 - t) + 0.7 * t, 1.0 * (1.0 - t) + 1.0 * t];
    assert_eq!(a(sky_color(&Ray::new(v(1.0, 2.0, 3.0), v(d[0], d[1], d[2])))), want);
}

#[test]
fn no_depth_left_is_black() {
    let world = Hittable::List(HittableList::new());
    let mut rng = rand::thread_rng();
    let ray = Ray::new(v(0.0, 0.0, 0.0), v(0.0, 1.0, 0.0));
    assert_eq!(a(ray_color(&ray, &world, &mut rng, 0)), [0.0, 0.0, 0.0]);
    assert_eq!(a(ray_color(&ray, &world, &mut rng, -3)), [0.0, 0.0, 0.0]);
}

#[test]
fn a_ray_that_hits_nothing_brings_the_sky() {
    let mut list = HittableList::new();
    list.add(Hittable::Sphere(Sphere::new(
        v(0.0, 0.0, -5.0),
        s(1.0),
        Material::Lambertian(Lambertian::new(v(0.5, 0.5, 0.5))),
    )));
    let world = Hittable::List(list);
    let mut rng = rand::thread_rng();
    let ray = Ray::new(v(0.0, 0.0, 0.0), v(0.0, 1.0, 0.0));
    assert_eq!(a(ray_color(&ray, &world, &mut rng, 50)), [0.5, 0.7, 1.0]);
}

#[test]
fn a_matt_surface_under_the_sky_is_darker_than_the_sky() {
    let mut list = HittableList::new();
    list.add(Hittable::Sphere(Sphere::new(
        v(0.0, -100.5, -1.0),
        s(100.0),
        Material::Lambertian(Lambertian::new(v(0.5, 0.5, 0.5))),
    )));
    let world = Hittable::List(list);
    let mut rng = rand::thread_rng();
    let ray = Ray::new(v(0.0, 0.0, 0.0), v(0.0, -1.0, -1.0));
    for _ in 0..100 {
        let c = a(ray_color(&ray, &world, &mut rng, 50));
        for channel in c {
            assert!((0.0..=0.5).contains(&channel));
        }
    }
    assert_eq!(a(ray_color(&ray, &world, &mut rng, 1)), [0.0, 0.0, 0.0]);
}

#[test]
fn small_spheres_lie_on_the_grid() {
    assert_eq!(a(grid_center(-11, 10, s(0.0), s(0.5))), [-11.0, 0.2, 10.0 + 0.9 * 0.5]);
    assert_eq!(a(grid_center(3, -2, s(0.25), s(0.0))), [3.0 + 0.9 * 0.25, 0.2, -2.0]);
}

#[test]
fn small_spheres_keep_clear_of_the_large_metal_sphere() {
    assert!(!clear_of_feature(v(4.0, 0.2, 0.0)));
    assert!(!clear_of_feature(v(4.5, 0.2, 0.5)));
    assert!(!clear_of_feature(v(4.8, 0.2, 0.0)));
    assert!(clear_of_feature(v(5.0, 0.2, 0.0)));
    assert!(clear_of_feature(v(4.0, 0.2, -1.0)));
    assert!(clear_of_feature(v(-4.0, 0.2, 0.0)));
}

#[test]
fn materials_of_small_spheres() {
    let mut rng = rand::thread_rng();
    for _ in 0..100 {
        for choose in [0.0f32, 0.5, 0.799] {
            match small_material(s(choose), &mut rng) {
                Material::Lambertian(m) => {
                    for c in a(m.albedo) {
                        assert!((0.0..1.0).contains(&c));
                    }
                }
                _ => panic!("below 0.8 the material is matt"),
            }
        }
        for choose in [0.8f32, 0.9, 0.949] {
            match small_material(s(choose), &mut rng) {
                Material::Metal(m) => {
                    for c in a(m.albedo) {
                        assert!((0.5..=1.0).contains(&c));
                    }
                    assert!((0.0..=0.5).contains(&f(m.fuzz)));
                }
                _ => panic!("from 0.8 to 0.95 the material is metal"),
            }
        }
        for choose in [0.95f32, 0.99] {
            match small_material(s(choose), &mut rng) {
                Material::Dielectric(m) => assert_eq!(f(m.refraction_index), 1.5),
                _ => panic!("from 0.95 on the material is glass"),
            }
        }
    }
}

#[test]
fn scene_has_ground_field_and_features() {
    let mut rng = rand::thread_rng();
    let world = random_scene(&mut rng);
    let n = world.objects.len();
    assert!(n >= 4 && n <= 488);
    assert!(n > 400);

    let ground = sphere_of(&world.objects[0]);
    assert_eq!(a(ground.center), [0.0, -1000.0, 0.0]);
    assert_eq!(f(ground.radius), 1000.0);
    match ground.material {
        Material::Lambertian(m) => assert_eq!(a(m.albedo), [0.5, 0.5, 0.5]),
        _ => panic!("the ground is matt"),
    }

    for object in &world.objects[1..n - 3] {
        let small = sphere_of(object);
        assert_eq!(f(small.radius), 0.2);
        let c = a(small.center);
        assert_eq!(c[1], 0.2);
        assert!(-11.0 <= c[0] && c[0] < 11.0);
        assert!(-11.0 <= c[2] && c[2] < 11.0);
        assert!(clear_of_feature(small.center));
    }

    let glass = sphere_of(&world.objects[n - 3]);
    assert_eq!(a(glass.center), [0.0, 1.0, 0.0]);
    assert_eq!(f(glass.radius), 1.0);
    match glass.material {
        Material::Dielectric(m) => assert_eq!(f(m.refraction_index), 1.5),
        _ => panic!("the first large sphere is glass"),
    }
    let matt = sphere_of(&world.objects[n - 2]);
    assert_eq!(a(matt.center), [-4.0, 1.0, 0.0]);
    assert_eq!(f(matt.radius), 1.0);
    match matt.material {
        Material::Lambertian(m) => assert_eq!(a(m.albedo), [0.4, 0.2, 0.1]),
        _ => panic!("the second large sphere is matt"),
    }
    let metal = sphere_of(&world.objects[n - 1]);
    assert_eq!(a(metal.center), [4.0, 1.0, 0.0]);
    assert_eq!(f(metal.radius), 1.0);
    match metal.material {
        Material::Metal(m) => {
            assert_eq!(a(m.albedo), [0.7, 0.6, 0.5]);
            assert_eq!(f(m.fuzz), 0.0);
        }
        _ => panic!("the third large sphere is metal"),
    }
}

#[test]
fn pixel_is_the_sum_of_its_samples() {
    let world = Hittable::List(HittableList::new());
    let camera = scene_camera();
    let mut rng = rand::thread_rng();
    let none = render_pixel(&camera, &world, 3, 4, 20, 10, 0, 50, &mut rng);
    assert_eq!(a(none), [0.0, 0.0, 0.0]);
    let four = a(render_pixel(&camera, &world, 3, 4, 20, 10, 4, 50, &mut rng));
    for c in four {
        assert!(2.0 <= c && c <= 4.0);
    }
    assert_eq!(four[2], 4.0);
}

#[test]
fn row_has_one_line_for_each_pixel() {
    let world = Hittable::List(HittableList::new());
    let camera = scene_camera();
    let mut rng = rand::thread_rng();
    let mut out = b"P3\n5 3\n255\n".to_vec();
    render_row(&mut out, &camera, &world, 2, 5, 3, 2, 50, &mut rng);
    render_row(&mut out, &camera, &world, 1, 5, 3, 2, 50, &mut rng);
    render_row(&mut out, &camera, &world, 0, 5, 3, 2, 50, &mut rng);
    check_image(&out, 5, 3);
}

#[test]
fn image_without_pixels_is_its_header() {
    let world = Hittable::List(HittableList::new());
    let camera = scene_camera();
    let mut rng = rand::thread_rng();
    assert_eq!(render(&camera, &world, 0, 0, 4, 50, &mut rng), b"P3\n0 0\n255\n".to_vec());
    assert_eq!(render(&camera, &world, 5, 0, 4, 50, &mut rng), b"P3\n5 0\n255\n".to_vec());
    assert_eq!(render(&camera, &world, 0, 5, 4, 50, &mut rng), b"P3\n0 5\n255\n".to_vec());
}

#[test]
fn empty_world_renders_the_sky() {
    let world = Hittable::List(HittableList::new());
    let camera = scene_camera();
    let mut rng = rand::thread_rng();
    let out = render(&camera, &world, 4, 2, 1, 50, &mut rng);
    check_image(&out, 4, 2);
    let text = String::from_utf8(out).expect("an image is ASCII");
    for l in text.lines().skip(3) {
        assert!(l.ends_with(" 255"));
    }
}

#[test]
fn scene_renders_at_low_resolution() {
    let mut rng = rand::thread_rng();
    let world = Hittable::List(random_scene(&mut rng));
    let camera = scene_camera();
    let out = render(&camera, &world, 20, 10, 4, 50, &mut rng);
    check_image(&out, 20, 10);
}

#[test]
fn camera_and_picture_of_the_scene() {
    let c = camera_of_the_scene();
    let d = scene_camera();
    assert_eq!(a(c.origin), [13.0, 2.0, 3.0]);
    assert_eq!(a(c.origin), a(d.origin));
    assert_eq!(a(c.lower_left_corner), a(d.lower_left_corner));
    assert_eq!(a(c.horizontal), a(d.horizontal));
    assert_eq!(a(c.vertical), a(d.vertical));
    assert_eq!(f(c.lens_radius), 0.05);
    assert_eq!(f(Scalar(ASPECT_RATIO)), 16.0 / 9.0);
    assert_eq!(IMAGE_WIDTH, 1920);
    assert_eq!(SAMPLES_PER_PIXEL, 100);
    assert_eq!(MAX_DEPTH, 50);
    assert_eq!(raytracer::render::image_height(IMAGE_WIDTH, Scalar(ASPECT_RATIO)), 1080);
}
