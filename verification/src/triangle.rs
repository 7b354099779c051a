//! Triangles.
use crate::aabb::Aabb;
use crate::hittable::{in_window, reaches, HitRecord};
use crate::material::Material;
use crate::ray::Ray;
use crate::scalar::{Scalar, EPSILON, ONE, ZERO};
use crate::vec::{cross, cross_product, dot, dot_product, Point3, Vec3};
use vstd::prelude::*;

verus! {

/// -2^-23: the negative of `EPSILON`.
pub const MINUS_EPSILON: u32 = 0xb400_0000;

/// The triangle between three corners.
#[derive(Clone, Copy, Debug)]
pub struct Triangle {
    pub vertices: [Point3; 3],
    pub material: Material,
}

impl Triangle {
    /// The first edge, taken from the second corner to the first: `v0 - v1`.
    pub open spec fn edge1(self) -> Vec3 {
        self.vertices[0].minus(self.vertices[1])
    }

    /// The second edge, taken from the third corner to the first: `v0 - v2`.
    pub open spec fn edge2(self) -> Vec3 {
        self.vertices[0].minus(self.vertices[2])
    }

    /// The normal of the plane of the triangle, not brought to length 1:
    /// `edge1 x edge2`.
    pub open spec fn plane_normal(self) -> Vec3 {
        cross_product(self.edge1(), self.edge2())
    }

    /// `direction x edge2`
    pub open spec fn pvec(self, ray: Ray) -> Vec3 {
        cross_product(ray.direction, self.edge2())
    }

    /// The determinant `edge1 . pvec`, which is zero for a ray in the plane
    /// of the triangle.
    pub open spec fn determinant(self, ray: Ray) -> Scalar {
        dot_product(self.edge1(), self.pvec(ray))
    }

    /// Whether the ray runs along the plane of the triangle: whether the
    /// determinant lies strictly between `-EPSILON` and `EPSILON`.
    pub open spec fn is_parallel(self, ray: Ray) -> bool {
        self.determinant(ray).less(Scalar(EPSILON)) && Scalar(MINUS_EPSILON).less(
            self.determinant(ray),
        )
    }

    /// The reciprocal of the determinant.
    pub open spec fn inverse_determinant(self, ray: Ray) -> Scalar {
        Scalar(ONE).over(self.determinant(ray))
    }

    /// `origin - v0`
    pub open spec fn tvec(self, ray: Ray) -> Vec3 {
        ray.origin.minus(self.vertices[0])
    }

    /// The first barycentric coordinate: `(tvec . pvec) / det`.
    pub open spec fn coordinate_u(self, ray: Ray) -> Scalar {
        dot_product(self.tvec(ray), self.pvec(ray)).times(self.inverse_determinant(ray))
    }

    /// `tvec x edge1`
    pub open spec fn qvec(self, ray: Ray) -> Vec3 {
        cross_product(self.tvec(ray), self.edge1())
    }

    /// The second coordinate, `direction . qvec`, which is not divided by the
    /// determinant.
    pub open spec fn coordinate_v(self, ray: Ray) -> Scalar {
        dot_product(ray.direction, self.qvec(ray))
    }

    /// The parameter of the ray where it meets the plane:
    /// `(edge2 . qvec) / det`.
    pub open spec fn plane_parameter(self, ray: Ray) -> Scalar {
        dot_product(self.edge2(), self.qvec(ray)).times(self.inverse_determinant(ray))
    }

    /// Whether the two coordinates lie in the triangle: `0 <= u <= 1`,
    /// `0 <= v` and `u + v <= 1`, where a coordinate that is no number passes.
    pub open spec fn covers(self, ray: Ray) -> bool {
        let u = self.coordinate_u(ray);
        let v = self.coordinate_v(ray);
        !u.less(Scalar(ZERO)) && !Scalar(ONE).less(u) && !v.less(Scalar(ZERO)) && !Scalar(ONE).less(
            u.plus(v),
        )
    }

    /// The parameter at which the ray hits the triangle between `t_min` and
    /// `t_max`: that of the plane, if the ray does not run along the plane,
    /// the coordinates lie in the triangle, and the parameter lies strictly
    /// between the two bounds.
    pub open spec fn hit_parameter(self, ray: Ray, t_min: Scalar, t_max: Scalar) -> Option<Scalar> {
        if !self.is_parallel(ray) && self.covers(ray) && in_window(
            self.plane_parameter(ray),
            t_min,
            t_max,
        ) {
            Some(self.plane_parameter(ray))
        } else {
            None
        }
    }

    /// The record of a hit at parameter `t`.
    pub open spec fn record_at(self, ray: Ray, t: Scalar) -> HitRecord {
        HitRecord::at(ray, t, self.plane_normal(), self.material)
    }

    /// The record of the hit between `t_min` and `t_max`, if there is one.
    pub open spec fn hit_record(self, ray: Ray, t_min: Scalar, t_max: Scalar) -> Option<HitRecord> {
        match self.hit_parameter(ray, t_min, t_max) {
            Some(t) => Some(self.record_at(ray, t)),
            None => None,
        }
    }

    /// The triangle between three corners.
    pub fn new(vertices: [Point3; 3], material: Material) -> (r: Triangle)
        ensures
            r == (Triangle { vertices, material }),
    {
        Triangle { vertices, material }
    }

    /// Looks for the hit of the ray strictly between `t_min` and `t_max`.
    /// Writes it to `record` and gives true if there is one; leaves `record`
    /// as it is and gives false if there is none. A ray along the plane of
    /// the triangle hits nothing, wherever it starts.
    pub fn hit(&self, ray: &Ray, t_min: Scalar, t_max: Scalar, record: &mut HitRecord) -> (r: bool)
        ensures
            r == self.hit_record(*ray, t_min, t_max).is_some(),
            r ==> *final(record) == self.hit_record(*ray, t_min, t_max).unwrap(),
            !r ==> *final(record) == *old(record),
            self.is_parallel(*ray) ==> !r,
    {
        let e1 = self.vertices[0] - self.vertices[1];
        let e2 = self.vertices[0] - self.vertices[2];
        let normal = cross(&e1, &e2);

        let pvec = cross(&ray.direction, &e2);
        let det = dot(&e1, &pvec);
        if det.lt(Scalar(EPSILON)) && det.gt(Scalar(MINUS_EPSILON)) {
            return false;
        }
        let inv_det = Scalar(ONE) / det;
        let tvec = ray.origin - self.vertices[0];
        let u = dot(&tvec, &pvec) * inv_det;
        if u.lt(Scalar(ZERO)) || u.gt(Scalar(ONE)) {
            return false;
        }
        let qvec = cross(&tvec, &e1);
        let v = dot(&ray.direction, &qvec);
        if v.lt(Scalar(ZERO)) || (u + v).gt(Scalar(ONE)) {
            return false;
        }
        let t = dot(&e2, &qvec) * inv_det;
        if t.lt(t_max) && t.gt(t_min) {
            record.t = t;
            record.p = ray.at(t);
            record.set_normale_face(ray, &normal);
            record.material = self.material;
            return true;
        }
        false
    }

    /// Gives false and leaves `output_box` as it is: no box is computed for a
    /// triangle, so none can stand in a tree of boxes.
    pub fn bounding_box(&self, t0: Scalar, t1: Scalar, output_box: &mut Aabb) -> (r: bool)
        ensures
            !r,
            *final(output_box) == *old(output_box),
    {
        false
    }

    /// How the hit depends on the upper end of the interval. A hit lies
    /// strictly inside the interval. Where the upper end is lowered to `c`, a
    /// hit below `c` stays as it is, and a hit that is found below `c` is the
    /// hit that is found below `t_max`.
    pub proof fn lemma_window(self, ray: Ray, t_min: Scalar, c: Scalar, t_max: Scalar)
        requires
            reaches(c, t_max),
        ensures
            self.hit_record(ray, t_min, t_max) is Some ==> in_window(
                self.hit_record(ray, t_min, t_max).unwrap().t,
                t_min,
                t_max,
            ),
            self.hit_record(ray, t_min, t_max) is Some && self.hit_record(
                ray,
                t_min,
                t_max,
            ).unwrap().t.less(c) ==> self.hit_record(ray, t_min, c) == self.hit_record(
                ray,
                t_min,
                t_max,
            ),
            self.hit_record(ray, t_min, c) is Some ==> self.hit_record(ray, t_min, t_max) is Some
                && self.hit_record(ray, t_min, c).unwrap().t.at_most(
                self.hit_record(ray, t_min, t_max).unwrap().t,
            ),
    {
    }

    /// A ray along the plane of the triangle hits nothing, wherever it
    /// starts and whatever the interval is.
    pub proof fn lemma_ray_in_plane_misses(
        self,
        origin: Point3,
        direction: Vec3,
        t_min: Scalar,
        t_max: Scalar,
    )
        requires
            self.is_parallel(Ray { origin: Vec3::zero(), direction }),
        ensures
            self.hit_record(Ray { origin, direction }, t_min, t_max) is None,
    {
    }
}

} // verus!
