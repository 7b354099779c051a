use raytracer::aabb::Aabb;
use raytracer::hittable::{BvhNode, HitRecord, Hittable, HittableList};
use raytracer::material::{Dielectric, Lambertian, Material, Metal};
use raytracer::ray::Ray;
use raytracer::scalar::Scalar;
use raytracer::sphere::Sphere;
use raytracer::triangle::Triangle;
use raytracer::vec::Vec3;

fn s(x: f32) -> Scalar {
    Scalar::from_bits(x.to_bits())
}

fn f(x: Scalar) -> f32 {
    f32::from_bits(x.to_bits())
}

fn v(x: f32, y: f32, z: f32) -> Vec3 {
    Vec3::new(s(x), s(y), s(z))
}

fn a(v: Vec3) -> [f32; 3] {
    [f(v.x), f(v.y), f(v.z)]
}

fn matt(r: f32, g: f32, b: f32) -> Material {
    Material::Lambertian(Lambertian::new(v(r, g, b)))
}

fn glass() -> Material {
    Material::Dielectric(Dielectric::new(s(1.5)))
}

fn albedo(m: Material) -> [f32; 3] {
    match m {
        Material::Lambertian(l) => a(l.albedo),
        Material::Metal(l) => a(l.albedo),
        Material::Dielectric(_) => panic!("glass has no colour"),
    }
}

fn down_z() -> Ray {
    Ray::new(v(0.0, 0.0, 0.0), v(0.0, 0.0, -1.0))
}

#[test]
fn empty_record() {
    let r = HitRecord::empty();
    assert_eq!(a(r.p), [0.0, 0.0, 0.0]);
    assert_eq!(a(r.normal), [0.0, 0.0, 0.0]);
    assert_eq!(f(r.t), f32::MIN);
    assert!(r.front_face);
    assert_eq!(albedo(r.material), [0.0, 0.0, 0.0]);
}

#[test]
fn normal_is_turned_against_the_ray() {
    let mut r = HitRecord::empty();
    r.set_normale_face(&down_z(), &v(0.0, 0.0, 1.0));
    assert!(r.front_face);
    assert_eq!(a(r.normal), [0.0, 0.0, 1.0]);
    r.set_normale_face(&down_z(), &v(0.0, 0.0, -1.0));
    assert!(!r.front_face);
    assert_eq!(a(r.normal), [0.0, 0.0, 1.0]);
    r.set_normale_face(&down_z(), &v(1.0, 0.0, 0.0));
    assert!(!r.front_face);
    assert_eq!(a(r.normal), [-1.0, -0.0, -0.0]);
    assert_eq!(f(r.t), f32::MIN);
}

#[test]
fn ray_hits_sphere_in_front() {
    let sphere = Sphere::new(v(0.0, 0.0, -1.0), s(0.5), matt(0.1, 0.2, 0.3));
    let mut record = HitRecord::empty();
    assert!(sphere.hit(&down_z(), s(0.001), s(f32::INFINITY), &mut record));
    assert_eq!(f(record.t), 0.5);
    assert_eq!(a(record.normal), [0.0, 0.0, 1.0]);
    assert!(record.front_face);
    assert_eq!(a(record.p), [0.0, 0.0, -0.5]);
    assert_eq!(albedo(record.material), [0.1, 0.2, 0.3]);
}

#[test]
fn ray_from_inside_hits_the_far_side() {
    let sphere = Sphere::new(v(0.0, 0.0, 0.0), s(2.0), glass());
    let mut record = HitRecord::empty();
    assert!(sphere.hit(&down_z(), s(0.001), s(f32::INFINITY), &mut record));
    assert_eq!(f(record.t), 2.0);
    assert!(!record.front_face);
    assert_eq!(a(record.normal), [-0.0, -0.0, 1.0]);
    assert!(matches!(record.material, Material::Dielectric(_)));
}

#[test]
fn sphere_outside_the_interval_is_missed() {
    let sphere = Sphere::new(v(0.0, 0.0, -1.0), s(0.5), matt(0.1, 0.2, 0.3));
    let mut record = HitRecord::empty();
    assert!(!sphere.hit(&down_z(), s(0.001), s(0.4), &mut record));
    assert!(!sphere.hit(&down_z(), s(1.6), s(f32::INFINITY), &mut record));
    assert!(!sphere.hit(&down_z(), s(0.5), s(1.5), &mut record));
    assert_eq!(f(record.t), f32::MIN);
    assert!(sphere.hit(&down_z(), s(0.6), s(f32::INFINITY), &mut record));
    assert_eq!(f(record.t), 1.5);
    assert!(!record.front_face);
}

#[test]
fn ray_beside_the_sphere_misses() {
    let sphere = Sphere::new(v(2.0, 0.0, -1.0), s(0.5), matt(0.1, 0.2, 0.3));
    let mut record = HitRecord::empty();
    assert!(!sphere.hit(&down_z(), s(0.001), s(f32::INFINITY), &mut record));
    let behind = Sphere::new(v(0.0, 0.0, 1.0), s(0.5), matt(0.1, 0.2, 0.3));
    assert!(!behind.hit(&down_z(), s(0.001), s(f32::INFINITY), &mut record));
    assert_eq!(a(record.p), [0.0, 0.0, 0.0]);
}

#[test]
fn sphere_with_negative_radius_has_its_normal_turned() {
    let sphere = Sphere::new(v(0.0, 0.0, -1.0), s(-0.5), glass());
    let mut record = HitRecord::empty();
    assert!(sphere.hit(&down_z(), s(0.001), s(f32::INFINITY), &mut record));
    assert_eq!(f(record.t), 0.5);
    assert!(!record.front_face);
    assert_eq!(a(record.normal), [0.0, 0.0, 1.0]);
}

#[test]
fn sphere_hit_follows_the_formula() {
    let (o, d, c, r) = ([0.3f32, -0.2, 1.0], [0.1f32, 0.05, -1.0], [0.5f32, 0.1, -3.0], 1.25f32);
    let oc = [o[0] - c[0], o[1] - c[1], o[2] - c[2]];
    let qa = d[0] * d[0] + d[1] * d[1] + d[2] * d[2];
    let half_b = oc[0] * d[0] + oc[1] * d[1] + oc[2] * d[2];
    let qc = (oc[0] * oc[0] + oc[1] * oc[1] + oc[2] * oc[2]) - r * r;
    let disc = half_b * half_b - qa * qc;
    assert!(disc > 0.0);
    let t = (-half_b - disc.sqrt()) / qa;
    let p = [o[0] + d[0] * t, o[1] + d[1] * t, o[2] + d[2] * t];
    let inv = 1.0 / r;
    let n = [(p[0] - c[0]) * inv, (p[1] - c[1]) * inv, (p[2] - c[2]) * inv];

    let sphere = Sphere::new(v(c[0], c[1], c[2]), s(r), glass());
    let ray = Ray::new(v(o[0], o[1], o[2]), v(d[0], d[1], d[2]));
    let mut record = HitRecord::empty();
    assert!(sphere.hit(&ray, s(0.001), s(f32::INFINITY), &mut record));
    assert_eq!(f(record.t), t);
    assert_eq!(a(record.p), p);
    assert_eq!(a(record.normal), n);
    assert!(record.front_face);
}

#[test]
fn sphere_box() {
    let sphere = Sphere::new(v(1.0, 2.0, 3.0), s(0.5), glass());
    let mut b = Aabb::empty();
    assert!(sphere.bounding_box(s(0.0), s(1.0), &mut b));
    assert_eq!(a(b.min()), [0.5, 1.5, 2.5]);
    assert_eq!(a(b.max()), [1.5, 2.5, 3.5]);
}

fn corner_triangle() -> Triangle {
    Triangle::new([v(0.0, 0.0, 0.0), v(1.0, 0.0, 0.0), v(0.0, 1.0, 0.0)], matt(0.9, 0.8, 0.7))
}

#[test]
fn ray_hits_triangle() {
    let ray = Ray::new(v(-0.25, -0.25, 1.0), v(0.0, 0.0, -1.0));
    let mut record = HitRecord::empty();
    assert!(corner_triangle().hit(&ray, s(0.001), s(f32::INFINITY), &mut record));
    assert_eq!(f(record.t), 1.0);
    assert_eq!(a(record.p), [-0.25, -0.25, 0.0]);
    assert_eq!(a(record.normal), [0.0, 0.0, 1.0]);
    assert!(record.front_face);
    assert_eq!(albedo(record.material), [0.9, 0.8, 0.7]);
}

#[test]
fn triangle_from_behind_is_missed() {
    // The second coordinate is not divided by the determinant, which is
    // negative from behind: the coordinate comes out negative.
    let ray = Ray::new(v(-0.25, -0.25, -2.0), v(0.0, 0.0, 1.0));
    let mut record = HitRecord::empty();
    assert!(!corner_triangle().hit(&ray, s(0.001), s(f32::INFINITY), &mut record));
    assert_eq!(f(record.t), f32::MIN);
}

#[test]
fn triangle_hit_follows_the_formula() {
    let (v0, v1, v2) = ([0.5f32, 0.25, -1.0], [1.5f32, 0.25, -1.5], [0.5f32, 1.5, -1.25]);
    let (o, d) = ([0.2f32, -0.1, 2.0], [0.01f32, 0.02, -1.0]);
    let sub = |p: [f32; 3], q: [f32; 3]| [p[0] - q[0], p[1] - q[1], p[2] - q[2]];
    let cr = |p: [f32; 3], q: [f32; 3]| {
        [p[1] * q[2] - p[2] * q[1], p[2] * q[0] - p[0] * q[2], p[0] * q[1] - p[1] * q[0]]
    };
    let dt = |p: [f32; 3], q: [f32; 3]| p[0] * q[0] + p[1] * q[1] + p[2] * q[2];
    let e1 = sub(v0, v1);
    let e2 = sub(v0, v2);
    let pvec = cr(d, e2);
    let det = dt(e1, pvec);
    let inv_det = 1.0 / det;
    let tvec = sub(o, v0);
    let u = dt(tvec, pvec) * inv_det;
    let qvec = cr(tvec, e1);
    let w = dt(d, qvec);
    let t = dt(e2, qvec) * inv_det;
    let expect_hit = !(det < f32::EPSILON && det > -f32::EPSILON)
        && !(u < 0.0 || u > 1.0)
        && !(w < 0.0 || u + w > 1.0)
        && t > 0.001;
    assert!(expect_hit);

    let triangle = Triangle::new(
        [v(v0[0], v0[1], v0[2]), v(v1[0], v1[1], v1[2]), v(v2[0], v2[1], v2[2])],
        glass(),
    );
    let ray = Ray::new(v(o[0], o[1], o[2]), v(d[0], d[1], d[2]));
    let mut record = HitRecord::empty();
    assert!(triangle.hit(&ray, s(0.001), s(f32::INFINITY), &mut record));
    assert_eq!(f(record.t), t);
    assert_eq!(a(record.p), [o[0] + d[0] * t, o[1] + d[1] * t, o[2] + d[2] * t]);
    let n = cr(e1, e2);
    assert_eq!(record.front_face, dt(d, n) < 0.0);
    let want = if record.front_face { n } else { [-n[0], -n[1], -n[2]] };
    assert_eq!(a(record.normal), want);
}

#[test]
fn ray_beside_the_triangle_misses() {
    let mut record = HitRecord::empty();
    let t = corner_triangle();
    assert!(!t.hit(&Ray::new(v(0.25, 0.25, 1.0), v(0.0, 0.0, -1.0)), s(0.001), s(f32::INFINITY), &mut record));
    assert!(!t.hit(&Ray::new(v(-0.75, -0.75, 1.0), v(0.0, 0.0, -1.0)), s(0.001), s(f32::INFINITY), &mut record));
    assert!(!t.hit(&Ray::new(v(-2.0, -0.25, 1.0), v(0.0, 0.0, -1.0)), s(0.001), s(f32::INFINITY), &mut record));
    assert_eq!(f(record.t), f32::MIN);
}

#[test]
fn triangle_outside_the_interval_is_missed() {
    let ray = Ray::new(v(-0.25, -0.25, 1.0), v(0.0, 0.0, -1.0));
    let mut record = HitRecord::empty();
    let t = corner_triangle();
    assert!(!t.hit(&ray, s(0.001), s(1.0), &mut record));
    assert!(!t.hit(&ray, s(1.0), s(f32::INFINITY), &mut record));
    assert!(t.hit(&ray, s(0.5), s(1.5), &mut record));
}

#[test]
fn ray_in_the_plane_of_the_triangle_misses() {
    let t = corner_triangle();
    let directions = [v(1.0, 0.0, 0.0), v(0.0, 1.0, 0.0), v(-0.3, 0.8, 0.0), v(1.0, 1.0, 0.0)];
    let origins = [
        v(0.0, 0.0, 0.0),
        v(-5.0, -0.25, 0.0),
        v(-0.25, -0.25, 1.0),
        v(3.0, 7.0, -2.0),
        v(-0.25, -5.0, 0.0),
    ];
    for d in directions {
        for o in origins {
            let mut record = HitRecord::empty();
            assert!(!t.hit(&Ray::new(o, d), s(-1000.0), s(1000.0), &mut record));
            assert_eq!(f(record.t), f32::MIN);
        }
    }
}

#[test]
fn triangle_has_no_box() {
    let mut b = Aabb::new(v(1.0, 1.0, 1.0), v(2.0, 2.0, 2.0));
    assert!(!corner_triangle().bounding_box(s(0.0), s(1.0), &mut b));
    assert_eq!(a(b.min()), [1.0, 1.0, 1.0]);
    assert_eq!(a(b.max()), [2.0, 2.0, 2.0]);
}

fn near_sphere() -> Hittable {
    Hittable::Sphere(Sphere::new(v(0.0, 0.0, -2.0), s(0.5), matt(1.0, 0.0, 0.0)))
}

fn far_sphere() -> Hittable {
    Hittable::Sphere(Sphere::new(v(0.0, 0.0, -5.0), s(1.0), matt(0.0, 1.0, 0.0)))
}

#[test]
fn list_gives_the_nearer_of_two_spheres() {
    for near_first in [true, false] {
        let mut list = HittableList::new();
        if near_first {
            list.add(near_sphere());
            list.add(far_sphere());
        } else {
            list.add(far_sphere());
            list.add(near_sphere());
        }
        for (lo, hi) in [(0.001, f32::INFINITY), (0.0, 100.0), (1.0, 4.5), (1.4, 4.1)] {
            let mut record = HitRecord::empty();
            assert!(list.hit(&down_z(), s(lo), s(hi), &mut record));
            assert_eq!(f(record.t), 1.5);
            assert_eq!(albedo(record.material), [1.0, 0.0, 0.0]);
            assert_eq!(a(record.p), [0.0, 0.0, -1.5]);
        }
    }
}

#[test]
fn list_gives_the_farther_sphere_when_the_nearer_is_cut_off() {
    let mut list = HittableList::new();
    list.add(near_sphere());
    list.add(far_sphere());
    let mut record = HitRecord::empty();
    assert!(list.hit(&down_z(), s(3.0), s(f32::INFINITY), &mut record));
    assert_eq!(f(record.t), 4.0);
    assert_eq!(albedo(record.material), [0.0, 1.0, 0.0]);
}

#[test]
fn empty_list_is_never_hit_and_has_no_box() {
    let list = HittableList::new();
    let mut record = HitRecord::empty();
    assert!(!list.hit(&down_z(), s(0.001), s(f32::INFINITY), &mut record));
    assert_eq!(f(record.t), f32::MIN);
    let mut b = Aabb::empty();
    assert!(!list.bounding_box(s(0.0), s(1.0), &mut b));
}

#[test]
fn list_that_is_missed_leaves_the_record() {
    let mut list = HittableList::new();
    list.add(near_sphere());
    list.add(far_sphere());
    let mut record = HitRecord::empty();
    let up = Ray::new(v(0.0, 0.0, 0.0), v(0.0, 1.0, 0.0));
    assert!(!list.hit(&up, s(0.001), s(f32::INFINITY), &mut record));
    assert_eq!(f(record.t), f32::MIN);
}

#[test]
fn cleared_list_is_empty() {
    let mut list = HittableList::new();
    list.add(near_sphere());
    list.add(far_sphere());
    assert_eq!(list.objects.len(), 2);
    list.clear();
    assert_eq!(list.objects.len(), 0);
    let mut record = HitRecord::empty();
    assert!(!list.hit(&down_z(), s(0.001), s(f32::INFINITY), &mut record));
}

#[test]
fn list_box_surrounds_all_members() {
    let mut list = HittableList::new();
    list.add(near_sphere());
    let mut b = Aabb::empty();
    assert!(list.bounding_box(s(0.0), s(1.0), &mut b));
    assert_eq!(a(b.min()), [-0.5, -0.5, -2.5]);
    assert_eq!(a(b.max()), [0.5, 0.5, -1.5]);
    list.add(far_sphere());
    assert!(list.bounding_box(s(0.0), s(1.0), &mut b));
    assert_eq!(a(b.min()), [-1.0, -1.0, -6.0]);
    assert_eq!(a(b.max()), [1.0, 1.0, -1.5]);
}

#[test]
fn list_with_a_triangle_has_no_box() {
    let mut list = HittableList::new();
    list.add(near_sphere());
    list.add(Hittable::Triangle(corner_triangle()));
    list.add(far_sphere());
    let mut b = Aabb::new(v(9.0, 9.0, 9.0), v(9.0, 9.0, 9.0));
    assert!(!list.bounding_box(s(0.0), s(1.0), &mut b));
    assert_eq!(a(b.min()), [9.0, 9.0, 9.0]);
}

#[test]
fn list_inside_a_list() {
    let mut inner = HittableList::new();
    inner.add(far_sphere());
    inner.add(near_sphere());
    let mut outer = HittableList::new();
    outer.add(Hittable::Sphere(Sphere::new(v(0.0, 0.0, -9.0), s(1.0), glass())));
    outer.add(Hittable::List(inner));
    let world = Hittable::List(outer);
    let mut record = HitRecord::empty();
    assert!(world.hit(&down_z(), s(0.001), s(f32::INFINITY), &mut record));
    assert_eq!(f(record.t), 1.5);
    let mut b = Aabb::empty();
    assert!(world.bounding_box(s(0.0), s(1.0), &mut b));
    assert_eq!(a(b.min()), [-1.0, -1.0, -10.0]);
    assert_eq!(a(b.max()), [1.0, 1.0, -1.5]);
}

#[test]
fn node_tries_both_children() {
    let node = BvhNode::new(far_sphere(), near_sphere()).expect("both spheres have boxes");
    assert_eq!(a(node.bounds.min()), [-1.0, -1.0, -6.0]);
    assert_eq!(a(node.bounds.max()), [1.0, 1.0, -1.5]);
    let ray = Ray::new(v(0.05, 0.05, 0.0), v(0.01, 0.01, -1.0));
    let mut record = HitRecord::empty();
    assert!(node.hit(&ray, s(0.001), s(f32::INFINITY), &mut record));
    assert_eq!(albedo(record.material), [1.0, 0.0, 0.0]);
    assert!(f(record.t) > 1.4 && f(record.t) < 1.6);

    let swapped = BvhNode::new(near_sphere(), far_sphere()).expect("both spheres have boxes");
    let mut again = HitRecord::empty();
    assert!(swapped.hit(&ray, s(0.001), s(f32::INFINITY), &mut again));
    assert_eq!(again.t.to_bits(), record.t.to_bits());

    let mut b = Aabb::empty();
    assert!(node.bounding_box(s(0.0), s(1.0), &mut b));
    assert_eq!(a(b.max()), [1.0, 1.0, -1.5]);
}

#[test]
fn node_is_missed_where_its_box_is_missed() {
    let node = Hittable::Node(BvhNode::new(far_sphere(), near_sphere()).expect("boxes"));
    let mut record = HitRecord::empty();
    let beside = Ray::new(v(3.0, 0.05, 0.0), v(0.01, 0.01, -1.0));
    assert!(!node.hit(&beside, s(0.001), s(f32::INFINITY), &mut record));
    assert_eq!(f(record.t), f32::MIN);
}

#[test]
fn node_needs_boxes() {
    assert!(BvhNode::new(near_sphere(), Hittable::Triangle(corner_triangle())).is_none());
    assert!(BvhNode::new(Hittable::List(HittableList::new()), near_sphere()).is_none());
}

#[test]
fn metal_keeps_its_fuzz_below_one() {
    assert_eq!(f(Metal::new(v(0.5, 0.5, 0.5), s(0.3)).fuzz), 0.3);
    assert_eq!(f(Metal::new(v(0.5, 0.5, 0.5), s(1.0)).fuzz), 1.0);
    assert_eq!(f(Metal::new(v(0.5, 0.5, 0.5), s(7.0)).fuzz), 1.0);
    assert_eq!(f(Metal::new(v(0.5, 0.5, 0.5), s(-2.0)).fuzz), -2.0);
    assert_eq!(f(Metal::new(v(0.5, 0.5, 0.5), s(f32::NAN)).fuzz), 1.0);
}
