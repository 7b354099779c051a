//! Boxes whose faces are parallel to the coordinate planes.
use crate::ray::Ray;
use crate::scalar::{Scalar, ONE, ZERO};
use crate::vec::{Point3, Vec3};
use vstd::prelude::*;

verus! {

/// The box between a corner `min` and a corner `max`.
#[derive(Clone, Copy, Debug)]
pub struct Aabb {
    pub min: Point3,
    pub max: Point3,
}

/// The vector of the smaller components of two vectors.
pub open spec fn lower_corner(a: Vec3, b: Vec3) -> Vec3 {
    Vec3 { x: a.x.smaller(b.x), y: a.y.smaller(b.y), z: a.z.smaller(b.z) }
}

/// The vector of the larger components of two vectors.
pub open spec fn upper_corner(a: Vec3, b: Vec3) -> Vec3 {
    Vec3 { x: a.x.larger(b.x), y: a.y.larger(b.y), z: a.z.larger(b.z) }
}

/// The smallest box around two boxes.
pub open spec fn union_box(a: Aabb, b: Aabb) -> Aabb {
    Aabb { min: lower_corner(a.min, b.min), max: upper_corner(a.max, b.max) }
}

/// Whether no coordinate of a corner of the box is a NaN.
pub open spec fn is_ordered(a: Aabb) -> bool {
    &&& !a.min.x.is_nan() && !a.min.y.is_nan() && !a.min.z.is_nan()
    &&& !a.max.x.is_nan() && !a.max.y.is_nan() && !a.max.z.is_nan()
}

/// Whether the box `outer` reaches at least as far as the box `inner` on all
/// six sides.
pub open spec fn encloses(outer: Aabb, inner: Aabb) -> bool {
    &&& outer.min.x.at_most(inner.min.x) && inner.max.x.at_most(outer.max.x)
    &&& outer.min.y.at_most(inner.min.y) && inner.max.y.at_most(outer.max.y)
    &&& outer.min.z.at_most(inner.min.z) && inner.max.z.at_most(outer.max.z)
}

/// The smallest box around two boxes reaches at least as far as either on all
/// six sides, where no coordinate is a NaN.
pub proof fn lemma_union_encloses(a: Aabb, b: Aabb)
    requires
        is_ordered(a),
        is_ordered(b),
    ensures
        encloses(union_box(a, b), a),
        encloses(union_box(a, b), b),
        is_ordered(union_box(a, b)),
{
}

/// An interval of ray parameters, from `lo` to `hi`.
pub struct Window {
    pub lo: Scalar,
    pub hi: Scalar,
}

impl Window {
    /// Whether any parameter lies in the interval: `lo < hi`.
    pub open spec fn is_open(self) -> bool {
        self.lo.less(self.hi)
    }

    /// The interval cut down to the parameters from `entry` to `exit`: the
    /// lower end rises to `entry` where that is larger, the upper end falls
    /// to `exit` where that is smaller.
    pub open spec fn cut(self, entry: Scalar, exit: Scalar) -> Window {
        Window {
            lo: if self.lo.less(entry) {
                entry
            } else {
                self.lo
            },
            hi: if exit.less(self.hi) {
                exit
            } else {
                self.hi
            },
        }
    }
}

impl Aabb {
    /// The reciprocal of the ray's direction along an axis.
    pub open spec fn inverse_direction(ray: Ray, axis: int) -> Scalar {
        Scalar(ONE).over(ray.direction.component(axis))
    }

    /// The parameter at which the ray meets the plane of the `min` corner
    /// across an axis: `(min - origin) / direction`.
    pub open spec fn at_min(self, ray: Ray, axis: int) -> Scalar {
        self.min.component(axis).minus(ray.origin.component(axis)).times(
            Aabb::inverse_direction(ray, axis),
        )
    }

    /// The parameter at which the ray meets the plane of the `max` corner
    /// across an axis: `(max - origin) / direction`.
    pub open spec fn at_max(self, ray: Ray, axis: int) -> Scalar {
        self.max.component(axis).minus(ray.origin.component(axis)).times(
            Aabb::inverse_direction(ray, axis),
        )
    }

    /// The parameter at which the ray enters the slab of an axis: that of the
    /// `min` plane, or of the `max` plane where the ray runs backwards.
    pub open spec fn entry(self, ray: Ray, axis: int) -> Scalar {
        if Aabb::inverse_direction(ray, axis).less(Scalar(ZERO)) {
            self.at_max(ray, axis)
        } else {
            self.at_min(ray, axis)
        }
    }

    /// The parameter at which the ray leaves the slab of an axis.
    pub open spec fn exit(self, ray: Ray, axis: int) -> Scalar {
        if Aabb::inverse_direction(ray, axis).less(Scalar(ZERO)) {
            self.at_min(ray, axis)
        } else {
            self.at_max(ray, axis)
        }
    }

    /// The interval from `tmin` to `tmax`, cut down by the slabs of the
    /// first `axes` axes.
    pub open spec fn window_after(self, ray: Ray, tmin: Scalar, tmax: Scalar, axes: int) -> Window
        decreases axes,
    {
        if axes <= 0 {
            Window { lo: tmin, hi: tmax }
        } else {
            self.window_after(ray, tmin, tmax, axes - 1).cut(
                self.entry(ray, axes - 1),
                self.exit(ray, axes - 1),
            )
        }
    }

    /// Whether the ray passes through the box at a parameter between `tmin`
    /// and `tmax`: whether the interval, cut down by all three slabs, still
    /// holds a parameter.
    pub open spec fn meets(self, ray: Ray, tmin: Scalar, tmax: Scalar) -> bool {
        self.window_after(ray, tmin, tmax, 3).is_open()
    }

    /// The box whose corners both lie at the origin.
    pub fn empty() -> (r: Aabb)
        ensures
            r == (Aabb { min: Vec3::zero(), max: Vec3::zero() }),
    {
        Aabb { min: Point3::empty(), max: Point3::empty() }
    }

    /// The box between two corners.
    pub fn new(min: Point3, max: Point3) -> (r: Aabb)
        ensures
            r == (Aabb { min, max }),
    {
        Aabb { min, max }
    }

    /// The corner with the smallest coordinates.
    pub fn min(&self) -> (r: Point3)
        ensures
            r == self.min,
    {
        self.min
    }

    /// The corner with the largest coordinates.
    pub fn max(&self) -> (r: Point3)
        ensures
            r == self.max,
    {
        self.max
    }

    /// Whether the ray passes through the box at a parameter between `tmin`
    /// and `tmax`. The search ends at the first axis that leaves no
    /// parameter.
    pub fn hit(&self, ray: &Ray, tmin: Scalar, tmax: Scalar) -> (r: bool)
        ensures
            r == self.meets(*ray, tmin, tmax),
    {
        let mut lo = tmin;
        let mut hi = tmax;
        let mut axis: usize = 0;
        while axis < 3
            invariant
                axis <= 3,
                (Window { lo, hi }) == self.window_after(*ray, tmin, tmax, axis as int),
                axis > 0 ==> lo.less(hi),
            decreases 3 - axis,
        {
            let inv_d = Scalar(ONE) / ray.direction[axis];
            let mut t0 = (self.min[axis] - ray.origin[axis]) * inv_d;
            let mut t1 = (self.max[axis] - ray.origin[axis]) * inv_d;
            if inv_d.lt(Scalar(ZERO)) {
                let swap = t0;
                t0 = t1;
                t1 = swap;
            }
            lo = if t0.gt(lo) {
                t0
            } else {
                lo
            };
            hi = if t1.lt(hi) {
                t1
            } else {
                hi
            };
            if !lo.lt(hi) {
                proof {
                    self.lemma_closed_stays_closed(*ray, tmin, tmax, axis as int + 1);
                }
                return false;
            }
            axis = axis + 1;
        }
        true
    }

    /// Once the slabs have cut the interval down to nothing, the remaining
    /// slabs leave it so.
    pub proof fn lemma_closed_stays_closed(self, ray: Ray, tmin: Scalar, tmax: Scalar, axes: int)
        requires
            0 <= axes <= 3,
            !self.window_after(ray, tmin, tmax, axes).is_open(),
        ensures
            !self.meets(ray, tmin, tmax),
        decreases 3 - axes,
    {
        if axes < 3 {
            let w = self.window_after(ray, tmin, tmax, axes);
            assert(self.window_after(ray, tmin, tmax, axes + 1) == w.cut(
                self.entry(ray, axes),
                self.exit(ray, axes),
            ));
            self.lemma_closed_stays_closed(ray, tmin, tmax, axes + 1);
        }
    }
}

/// The smallest box around two boxes: the smaller of the `min` corners and the
/// larger of the `max` corners, coordinate by coordinate.
pub fn surrounding_box(box0: &Aabb, box1: &Aabb) -> (r: Aabb)
    ensures
        r == union_box(*box0, *box1),
{
    let small = Point3::new(
        box0.min.x.min(box1.min.x),
        box0.min.y.min(box1.min.y),
        box0.min.z.min(box1.min.z),
    );
    let big = Point3::new(
        box0.max.x.max(box1.max.x),
        box0.max.y.max(box1.max.y),
        box0.max.z.max(box1.max.z),
    );
    Aabb::new(small, big)
}

} // verus!
