//! Spheres.
use core::ops::Neg;
use crate::aabb::Aabb;
use crate::hittable::{in_window, reaches, HitRecord};
use crate::material::Material;
use crate::ray::Ray;
use crate::scalar::{Scalar, ZERO};
use crate::vec::{dot, dot_product, Point3, Vec3};
use vstd::prelude::*;

verus! {

/// The sphere of a given radius about a centre.
#[derive(Clone, Copy, Debug)]
pub struct Sphere {
    pub center: Point3,
    pub radius: Scalar,
    pub material: Material,
}

impl Sphere {
    /// `a` of the quadratic in the ray's parameter: the square of the length
    /// of the direction.
    pub open spec fn quadratic_a(self, ray: Ray) -> Scalar {
        ray.direction.norm_squared()
    }

    /// Half of `b` of the quadratic: `(origin - center) . direction`.
    pub open spec fn half_b(self, ray: Ray) -> Scalar {
        dot_product(ray.origin.minus(self.center), ray.direction)
    }

    /// `c` of the quadratic: `|origin - center|^2 - radius^2`.
    pub open spec fn quadratic_c(self, ray: Ray) -> Scalar {
        ray.origin.minus(self.center).norm_squared().minus(self.radius.times(self.radius))
    }

    /// A quarter of the discriminant: `half_b^2 - a c`.
    pub open spec fn discriminant(self, ray: Ray) -> Scalar {
        self.half_b(ray).times(self.half_b(ray)).minus(
            self.quadratic_a(ray).times(self.quadratic_c(ray)),
        )
    }

    /// The smaller root: `(-half_b - sqrt(discriminant)) / a`.
    pub open spec fn near_root(self, ray: Ray) -> Scalar {
        self.half_b(ray).negated().minus(self.discriminant(ray).root()).over(self.quadratic_a(ray))
    }

    /// The larger root: `(-half_b + sqrt(discriminant)) / a`.
    pub open spec fn far_root(self, ray: Ray) -> Scalar {
        self.half_b(ray).negated().plus(self.discriminant(ray).root()).over(self.quadratic_a(ray))
    }

    /// The parameter at which the ray hits the sphere between `t_min` and
    /// `t_max`: with a positive discriminant, the smaller root if it lies
    /// strictly between them, else the larger root if that does.
    pub open spec fn hit_parameter(self, ray: Ray, t_min: Scalar, t_max: Scalar) -> Option<Scalar> {
        if Scalar(ZERO).less(self.discriminant(ray)) {
            if in_window(self.near_root(ray), t_min, t_max) {
                Some(self.near_root(ray))
            } else if in_window(self.far_root(ray), t_min, t_max) {
                Some(self.far_root(ray))
            } else {
                None
            }
        } else {
            None
        }
    }

    /// The outward normal at a point of the surface: `(p - center) / radius`.
    pub open spec fn outward_normal(self, p: Point3) -> Vec3 {
        p.minus(self.center).divided(self.radius)
    }

    /// The record of a hit at parameter `t`.
    pub open spec fn record_at(self, ray: Ray, t: Scalar) -> HitRecord {
        HitRecord::at(ray, t, self.outward_normal(ray.point_at(t)), self.material)
    }

    /// The record of the hit between `t_min` and `t_max`, if there is one.
    pub open spec fn hit_record(self, ray: Ray, t_min: Scalar, t_max: Scalar) -> Option<HitRecord> {
        match self.hit_parameter(ray, t_min, t_max) {
            Some(t) => Some(self.record_at(ray, t)),
            None => None,
        }
    }

    /// The box around the sphere: `center - (r, r, r)` to `center + (r, r, r)`.
    pub open spec fn bounds(self) -> Aabb {
        let reach = Vec3 { x: self.radius, y: self.radius, z: self.radius };
        Aabb { min: self.center.minus(reach), max: self.center.plus(reach) }
    }

    /// The sphere about `center`. No radius is refused: with a negative one
    /// the outward normals point inwards.
    pub fn new(center: Point3, radius: Scalar, material: Material) -> (r: Sphere)
        ensures
            r == (Sphere { center, radius, material }),
    {
        Sphere { center, radius, material }
    }

    fn record_hit(&self, ray: &Ray, t: Scalar, record: &mut HitRecord)
        ensures
            *final(record) == self.record_at(*ray, t),
    {
        record.t = t;
        record.p = ray.at(t);
        let outward_normal = (record.p - self.center) / self.radius;
        record.set_normale_face(ray, &outward_normal);
        record.material = self.material;
    }

    /// Looks for the nearest hit of the ray strictly between `t_min` and
    /// `t_max`. Writes it to `record` and gives true if there is one; leaves
    /// `record` as it is and gives false if there is none.
    pub fn hit(&self, ray: &Ray, t_min: Scalar, t_max: Scalar, record: &mut HitRecord) -> (r: bool)
        ensures
            r == self.hit_record(*ray, t_min, t_max).is_some(),
            r ==> *final(record) == self.hit_record(*ray, t_min, t_max).unwrap(),
            !r ==> *final(record) == *old(record),
    {
        let oc = ray.origin - self.center;
        let a = ray.direction.length_squared();
        let half_b = dot(&oc, &ray.direction);
        let c = oc.length_squared() - self.radius * self.radius;
        let discriminant = half_b * half_b - a * c;

        if discriminant.gt(Scalar(ZERO)) {
            let root = discriminant.sqrt();

            let near = (half_b.neg() - root) / a;
            if near.lt(t_max) && near.gt(t_min) {
                self.record_hit(ray, near, record);
                return true;
            }
            let far = (half_b.neg() + root) / a;
            if far.lt(t_max) && far.gt(t_min) {
                self.record_hit(ray, far, record);
                return true;
            }
        }
        false
    }

    /// Writes the box around the sphere to `output_box` and gives true: a
    /// sphere always has one. The two times are not looked at.
    pub fn bounding_box(&self, t0: Scalar, t1: Scalar, output_box: &mut Aabb) -> (r: bool)
        ensures
            r,
            *final(output_box) == self.bounds(),
    {
        let reach = Vec3::new(self.radius, self.radius, self.radius);
        *output_box = Aabb::new(self.center - reach, self.center + reach);
        true
    }

    /// How the hit depends on the upper end of the interval. A hit lies
    /// strictly inside the interval. Where the upper end is lowered to `c`, a
    /// hit below `c` stays as it is, and a hit that is found below `c` is no
    /// farther than the hit that is found below `t_max`.
    pub proof fn lemma_window(self, ray: Ray, t_min: Scalar, c: Scalar, t_max: Scalar)
        requires
            reaches(c, t_max),
        ensures
            self.hit_record(ray, t_min, t_max) is Some ==> in_window(
                self.hit_record(ray, t_min, t_max).unwrap().t,
                t_min,
                t_max,
            ),
            self.hit_record(ray, t_min, t_max) is Some && self.hit_record(
                ray,
                t_min,
                t_max,
            ).unwrap().t.less(c) ==> self.hit_record(ray, t_min, c) == self.hit_record(
                ray,
                t_min,
                t_max,
            ),
            self.hit_record(ray, t_min, c) is Some ==> self.hit_record(ray, t_min, t_max) is Some
                && self.hit_record(ray, t_min, c).unwrap().t.at_most(
                self.hit_record(ray, t_min, t_max).unwrap().t,
            ),
    {
    }
}

} // verus!
