//! The camera: where rays start and through which point of the image they
//! pass.
use crate::product::lemma_product_with_zero;
use crate::ray::Ray;
use crate::scalar::{Scalar, TWO};
use crate::sum::lemma_sum_with_zero;
use crate::utility::{degrees_to_radians, radians};
use crate::vec::{
    cross, cross_product, is_disk_draw, lemma_disk_draw_is_finite, unit_vector, Point3, Vec3,
};
use rand::rngs::ThreadRng;
use vstd::prelude::*;

verus! {

/// A camera with a round lens.
#[derive(Clone, Copy, Debug)]
pub struct Camera {
    /// The centre of the lens.
    pub origin: Point3,
    /// The corner of the image plane that is seen at the lower left.
    pub lower_left_corner: Point3,
    /// The lower edge of the image plane.
    pub horizontal: Vec3,
    /// The left edge of the image plane.
    pub vertical: Vec3,
    /// The direction to the right, of length 1.
    pub u: Vec3,
    /// The direction upwards, of length 1.
    pub v: Vec3,
    /// The direction backwards, away from what is looked at, of length 1.
    pub w: Vec3,
    /// The radius of the lens. With radius 0 everything is sharp.
    pub lens_radius: Scalar,
}

/// Whether two points have the same coordinates, as numbers: a negative zero
/// is the same as a positive one.
pub open spec fn same_point(a: Point3, b: Point3) -> bool {
    a.x.same(b.x) && a.y.same(b.y) && a.z.same(b.z)
}

/// One coordinate of the start of a ray through a lens of radius zero is the
/// coordinate `o` of the centre of the lens: `o + (u (px r) + v (py r))` is
/// `o` where `r` is zero, the other numbers are finite and `o` is no NaN.
pub proof fn lemma_no_offset(o: Scalar, u: Scalar, v: Scalar, px: Scalar, py: Scalar, r: Scalar)
    requires
        r.is_zero(),
        u.is_finite(),
        v.is_finite(),
        px.is_finite(),
        py.is_finite(),
        !o.is_nan(),
    ensures
        o.plus(u.times(px.times(r)).plus(v.times(py.times(r)))).same(o),
{
    lemma_product_with_zero(px.0, r.0);
    lemma_product_with_zero(py.0, r.0);
    lemma_product_with_zero(u.0, px.times(r).0);
    lemma_product_with_zero(v.0, py.times(r).0);
    let offset = u.times(px.times(r)).plus(v.times(py.times(r)));
    lemma_sum_with_zero(u.times(px.times(r)).0, v.times(py.times(r)).0);
    lemma_sum_with_zero(o.0, offset.0);
}

impl Camera {
    /// The height of the image plane at distance 1:
    /// `2 tan(vfov / 2)`, with `vfov` in degrees.
    pub open spec fn viewport_height(vfov: Scalar) -> Scalar {
        Scalar(TWO).times(radians(vfov).over(Scalar(TWO)).tangent())
    }

    /// The camera at `look_from` that looks at `look_at`, with `vup` upwards,
    /// a vertical field of view of `vfov` degrees, an image `aspect_ratio`
    /// times as wide as high, a lens of diameter `aperture`, and the image
    /// plane at distance `focus_dist`.
    pub open spec fn looking(
        look_from: Point3,
        look_at: Point3,
        vup: Vec3,
        vfov: Scalar,
        aspect_ratio: Scalar,
        aperture: Scalar,
        focus_dist: Scalar,
    ) -> Camera {
        let viewport_height = Camera::viewport_height(vfov);
        let viewport_width = aspect_ratio.times(viewport_height);
        let w = look_from.minus(look_at).unit();
        let u = cross_product(vup, w).unit();
        let v = cross_product(w, u);
        let horizontal = u.scaled(viewport_width).scaled(focus_dist);
        let vertical = v.scaled(viewport_height).scaled(focus_dist);
        Camera {
            origin: look_from,
            lower_left_corner: look_from.minus(horizontal.divided(Scalar(TWO))).minus(
                vertical.divided(Scalar(TWO)),
            ).minus(w.scaled(focus_dist)),
            horizontal,
            vertical,
            u,
            v,
            w,
            lens_radius: aperture.over(Scalar(TWO)),
        }
    }

    /// Whether the camera has a lens of radius zero, directions to the right
    /// and upwards that are finite, and a centre without a NaN.
    pub open spec fn is_pinhole(self) -> bool {
        self.lens_radius.is_zero() && self.u.is_finite() && self.v.is_finite()
            && self.origin.has_no_nan()
    }

    /// How far from the centre of the lens a ray starts, for a given point
    /// of the unit disk: `u * (radius * x) + v * (radius * y)`.
    pub open spec fn lens_offset(self, lens_point: Vec3) -> Vec3 {
        let rd = lens_point.scaled(self.lens_radius);
        self.u.scaled(rd.x).plus(self.v.scaled(rd.y))
    }

    /// The point of the image plane at `s` of its width and `t` of its
    /// height: `lower_left_corner + horizontal * s + vertical * t`.
    pub open spec fn target(self, s: Scalar, t: Scalar) -> Point3 {
        self.lower_left_corner.plus(self.horizontal.scaled(s)).plus(self.vertical.scaled(t))
    }

    /// The ray through the point of the image plane at `s` and `t` that
    /// starts at the point of the lens that `lens_point` picks.
    pub open spec fn ray_through(self, s: Scalar, t: Scalar, lens_point: Vec3) -> Ray {
        Ray {
            origin: self.origin.plus(self.lens_offset(lens_point)),
            direction: self.target(s, t).minus(self.origin).minus(self.lens_offset(lens_point)),
        }
    }

    /// Sets the camera up.
    pub fn new(
        look_from: Point3,
        look_at: Point3,
        vup: Vec3,
        vfov: Scalar,
        aspect_ratio: Scalar,
        aperture: Scalar,
        focus_dist: Scalar,
    ) -> (r: Camera)
        ensures
            r == Camera::looking(look_from, look_at, vup, vfov, aspect_ratio, aperture, focus_dist),
    {
        let theta = degrees_to_radians(vfov);
        let h = (theta / Scalar(TWO)).tan();
        let viewport_height = Scalar(TWO) * h;
        let viewport_width = aspect_ratio * viewport_height;

        let w = unit_vector(look_from - look_at);
        let u = unit_vector(cross(&vup, &w));
        let v = cross(&w, &u);

        let origin = look_from;
        let horizontal = u * viewport_width * focus_dist;
        let vertical = v * viewport_height * focus_dist;
        let lower_left_corner = origin - horizontal / Scalar(TWO) - vertical / Scalar(TWO) - w
            * focus_dist;
        let lens_radius = aperture / Scalar(TWO);
        Camera { origin, lower_left_corner, horizontal, vertical, u, v, w, lens_radius }
    }

    /// The ray through the point of the image plane at `s` and `t` that
    /// starts at the point of the lens that `lens_point`, a point of the unit
    /// disk, picks.
    pub fn get_ray_from(&self, s: Scalar, t: Scalar, lens_point: Vec3) -> (r: Ray)
        ensures
            r == self.ray_through(s, t, lens_point),
    {
        let rd = lens_point * self.lens_radius;
        let offset = self.u * rd.x + self.v * rd.y;
        Ray::new(
            self.origin + offset,
            self.lower_left_corner + self.horizontal * s + self.vertical * t - self.origin - offset,
        )
    }

    /// The ray through the point of the image plane at `s` and `t` that
    /// starts at a random point of the lens.
    pub fn get_ray(&self, s: Scalar, t: Scalar, rng: &mut ThreadRng) -> (r: Ray)
        ensures
            exists|lens_point: Vec3|
                is_disk_draw(lens_point) && r == #[trigger] self.ray_through(s, t, lens_point),
            self.is_pinhole() ==> same_point(r.origin, self.origin),
    {
        let lens_point = Vec3::random_in_unit_disk(rng);
        let r = self.get_ray_from(s, t, lens_point);
        proof {
            assert(is_disk_draw(lens_point) && r == self.ray_through(s, t, lens_point));
            if self.is_pinhole() {
                lemma_disk_draw_is_finite(lens_point);
                self.lemma_pinhole(s, t, lens_point);
            }
        }
        r
    }

    /// With a lens of radius zero every ray starts at the centre of the
    /// lens, whichever point of the unit disk is drawn: for a camera whose
    /// directions to the right and upwards are finite and whose centre holds
    /// no NaN, and a point with finite coordinates.
    pub proof fn lemma_pinhole(self, s: Scalar, t: Scalar, lens_point: Vec3)
        requires
            self.is_pinhole(),
            lens_point.is_finite(),
        ensures
            same_point(self.ray_through(s, t, lens_point).origin, self.origin),
    {
        let r = self.lens_radius;
        let (px, py) = (lens_point.x, lens_point.y);
        lemma_no_offset(self.origin.x, self.u.x, self.v.x, px, py, r);
        lemma_no_offset(self.origin.y, self.u.y, self.v.y, px, py, r);
        lemma_no_offset(self.origin.z, self.u.z, self.v.z, px, py, r);
    }
}

} // verus!
