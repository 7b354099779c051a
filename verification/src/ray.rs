//! Rays: a point of origin and a direction.
use crate::scalar::Scalar;
use crate::vec::{Point3, Vec3};
use vstd::prelude::*;

verus! {

/// The half-line `origin + t * direction`.
#[derive(Clone, Copy, Debug)]
pub struct Ray {
    pub origin: Point3,
    pub direction: Vec3,
}

impl Ray {
    /// The point at parameter `t`: `origin + direction * t`.
    pub open spec fn point_at(self, t: Scalar) -> Point3 {
        self.origin.plus(self.direction.scaled(t))
    }

    /// The ray from `origin` along `direction`. Any direction is taken, the
    /// zero vector too.
    pub fn new(origin: Point3, direction: Vec3) -> (r: Ray)
        ensures
            r == (Ray { origin, direction }),
    {
        Ray { origin, direction }
    }

    /// The ray from the origin of space with the zero vector as direction.
    pub fn empty() -> (r: Ray)
        ensures
            r == (Ray { origin: Vec3::zero(), direction: Vec3::zero() }),
    {
        Ray { origin: Point3::empty(), direction: Vec3::empty() }
    }

    /// The point that the ray starts from.
    pub fn origin(&self) -> (r: Point3)
        ensures
            r == self.origin,
    {
        self.origin
    }

    /// The direction of the ray.
    pub fn direction(&self) -> (r: Vec3)
        ensures
            r == self.direction,
    {
        self.direction
    }

    /// The point at parameter `t`.
    pub fn at(&self, t: Scalar) -> (r: Point3)
        ensures
            r == self.point_at(t),
    {
        self.origin + self.direction * t
    }
}

} // verus!
