//! Vectors of three binary32 components, used as points, directions and
//! colours.
use core::ops::Neg;
use crate::scalar::{Scalar, MINUS_ONE, ONE, PI, TWO, ZERO};
use crate::utility::{is_unit, is_unit_draw, random_double, random_double_range, spread};
use rand::rngs::ThreadRng;
use vstd::prelude::*;

verus! {

/// A position in space.
pub type Point3 = Vec3;

/// Red, green and blue, each nominally between 0 and 1.
pub type Color = Vec3;

/// How many candidates in a row a rejection sampler draws before it settles
/// for the origin.
pub const DRAW_LIMIT: u32 = 0xffff_ffff;

/// A vector of three components.
#[derive(Clone, Copy, Debug)]
pub struct Vec3 {
    pub x: Scalar,
    pub y: Scalar,
    pub z: Scalar,
}

/// `u . v`: the products of the components, summed from left to right.
pub open spec fn dot_product(u: Vec3, v: Vec3) -> Scalar {
    u.x.times(v.x).plus(u.y.times(v.y)).plus(u.z.times(v.z))
}

/// `u x v`
pub open spec fn cross_product(u: Vec3, v: Vec3) -> Vec3 {
    Vec3 {
        x: u.y.times(v.z).minus(u.z.times(v.y)),
        y: u.z.times(v.x).minus(u.x.times(v.z)),
        z: u.x.times(v.y).minus(u.y.times(v.x)),
    }
}

/// `v` mirrored at the plane with normal `n`: `v - 2 (v . n) n`.
pub open spec fn reflected(v: Vec3, n: Vec3) -> Vec3 {
    v.minus(n.scaled(Scalar(TWO).times(dot_product(v, n))))
}

/// The cosine of the angle between `-uv` and `n`, capped at 1.
pub open spec fn cos_incidence(uv: Vec3, n: Vec3) -> Scalar {
    dot_product(uv.negated(), n).smaller(Scalar(ONE))
}

/// The part of the refracted direction that lies across the normal:
/// `ratio * (uv + cos * n)`.
pub open spec fn refracted_across(uv: Vec3, n: Vec3, ratio: Scalar) -> Vec3 {
    uv.plus(n.scaled(cos_incidence(uv, n))).scaled(ratio)
}

/// The part of the refracted direction that lies along the normal:
/// `-sqrt(|1 - |across|^2|) * n`.
pub open spec fn refracted_along(uv: Vec3, n: Vec3, ratio: Scalar) -> Vec3 {
    n.scaled(
        Scalar(ONE).minus(refracted_across(uv, n, ratio).norm_squared()).absolute().root().negated(),
    )
}

/// The direction of `uv` after it passes a surface with normal `n`, where the
/// refractive indices before and behind it are as `ratio` to 1.
pub open spec fn refracted(uv: Vec3, n: Vec3, ratio: Scalar) -> Vec3 {
    refracted_across(uv, n, ratio).plus(refracted_along(uv, n, ratio))
}

/// The vector whose components are three numbers between 0 and 1, each mapped
/// into the interval from `min` to `max`.
pub open spec fn spread_vec(min: Scalar, max: Scalar, a: Scalar, b: Scalar, c: Scalar) -> Vec3 {
    Vec3 { x: spread(min, max, a), y: spread(min, max, b), z: spread(min, max, c) }
}

/// The point on the unit sphere at height `z` and azimuth `a`:
/// `(r cos a, r sin a, z)` with `r = sqrt(1 - z^2)`.
pub open spec fn on_sphere(a: Scalar, z: Scalar) -> Vec3 {
    let r = Scalar(ONE).minus(z.times(z)).root();
    Vec3 { x: r.times(a.cosine()), y: r.times(a.sine()), z: z }
}

/// Whether a vector can come from `Vec3::random_unit_vector`: whether it is
/// the point of the unit sphere for an azimuth drawn between 0 and pi and a
/// height drawn between -1 and 1.
pub open spec fn is_sphere_draw(v: Vec3) -> bool {
    exists|s: Scalar, t: Scalar|
        is_unit(s) && is_unit(t) && v == #[trigger] on_sphere(
            spread(Scalar(ZERO), Scalar(PI), s),
            spread(Scalar(MINUS_ONE), Scalar(ONE), t),
        )
}

/// Whether a vector can come from `Vec3::random_in_unit_sphere`: whether it
/// lies strictly inside the unit sphere and is a point drawn from the cube
/// from -1 to 1, or the origin.
pub open spec fn is_ball_draw(v: Vec3) -> bool {
    v.in_unit_ball() && (v == Vec3::zero() || exists|a: Scalar, b: Scalar, c: Scalar|
        is_unit(a) && is_unit(b) && is_unit(c) && v == #[trigger] spread_vec(
            Scalar(MINUS_ONE),
            Scalar(ONE),
            a,
            b,
            c,
        ))
}

/// Whether a vector can come from `Vec3::random_in_unit_disk`: whether it lies
/// strictly inside the unit sphere and is a point drawn from the square from
/// -1 to 1 of the plane `z = 0`, or the origin.
pub open spec fn is_disk_draw(v: Vec3) -> bool {
    v.in_unit_ball() && v.z == Scalar(ZERO) && (v == Vec3::zero() || exists|a: Scalar, b: Scalar|
        is_unit(a) && is_unit(b) && v.x == #[trigger] spread(Scalar(MINUS_ONE), Scalar(ONE), a)
            && v.y == #[trigger] spread(Scalar(MINUS_ONE), Scalar(ONE), b))
}

/// The dot product with the negative of a vector is the negative of the dot
/// product with the vector, or a NaN as that is: for vectors without a NaN.
pub proof fn lemma_dot_of_negated(u: Vec3, v: Vec3)
    requires
        u.has_no_nan(),
        v.has_no_nan(),
    ensures
        dot_product(u, v.negated()).is_nan() <==> dot_product(u, v).is_nan(),
        !dot_product(u, v).is_nan() ==> dot_product(u, v.negated()).key() == -dot_product(
            u,
            v,
        ).key(),
{
    let (px, py, pz) = (u.x.times(v.x), u.y.times(v.y), u.z.times(v.z));
    let (qx, qy, qz) = (
        u.x.times(v.x.negated()),
        u.y.times(v.y.negated()),
        u.z.times(v.z.negated()),
    );
    lemma_times_negated(u.x, v.x);
    lemma_times_negated(u.y, v.y);
    lemma_times_negated(u.z, v.z);
    lemma_plus_negated(px, py, qx, qy);
    lemma_plus_negated(px.plus(py), pz, qx.plus(qy), qz);
}

/// The product with the negative of a number is the negative of the product
/// with the number, or a NaN as that is.
pub proof fn lemma_times_negated(a: Scalar, b: Scalar)
    requires
        !a.is_nan(),
        !b.is_nan(),
    ensures
        a.times(b.negated()).is_nan() <==> a.times(b).is_nan(),
        !a.times(b).is_nan() ==> a.times(b.negated()).key() == -a.times(b).key(),
{
    crate::product::lemma_product_of_negative(b.0, a.0, b.negated().0, a.0);
    crate::product::lemma_product_commutes(a.0, b.0);
    crate::product::lemma_product_commutes(a.0, b.negated().0);
}

/// The sum of two numbers that are the negatives of two others is the
/// negative of their sum, or a NaN as that is; and so where some of them are
/// NaNs in step.
pub proof fn lemma_plus_negated(a: Scalar, b: Scalar, c: Scalar, d: Scalar)
    requires
        c.is_nan() <==> a.is_nan(),
        d.is_nan() <==> b.is_nan(),
        !a.is_nan() ==> c.key() == -a.key(),
        !b.is_nan() ==> d.key() == -b.key(),
    ensures
        c.plus(d).is_nan() <==> a.plus(b).is_nan(),
        !a.plus(b).is_nan() ==> c.plus(d).key() == -a.plus(b).key(),
{
    if a.is_nan() || b.is_nan() {
        crate::sum::lemma_sum_with_nan(a.0, b.0);
        crate::sum::lemma_sum_with_nan(c.0, d.0);
    } else {
        crate::sum::lemma_sum_of_negatives(a.0, b.0, c.0, d.0);
    }
}

/// A point that can come from `Vec3::random_in_unit_disk` has finite
/// coordinates.
pub proof fn lemma_disk_draw_is_finite(v: Vec3)
    requires
        is_disk_draw(v),
    ensures
        v.is_finite(),
{
    if v != Vec3::zero() {
        let (a, b) = choose|a: Scalar, b: Scalar|
            is_unit(a) && is_unit(b) && v.x == #[trigger] spread(Scalar(MINUS_ONE), Scalar(ONE), a)
                && v.y == #[trigger] spread(Scalar(MINUS_ONE), Scalar(ONE), b);
        crate::utility::lemma_spread_is_finite(Scalar(MINUS_ONE), Scalar(ONE), a);
        crate::utility::lemma_spread_is_finite(Scalar(MINUS_ONE), Scalar(ONE), b);
    }
}

/// The origin lies strictly inside the unit sphere.
pub proof fn lemma_origin_in_unit_ball()
    ensures
        Vec3::zero().in_unit_ball(),
{
    crate::product::lemma_product_with_zero(ZERO, ZERO);
    crate::sum::lemma_sum_with_zero(ZERO, ZERO);
}

impl Vec3 {
    /// The vector of three zeros.
    pub open spec fn zero() -> Vec3 {
        Vec3 { x: Scalar(ZERO), y: Scalar(ZERO), z: Scalar(ZERO) }
    }

    /// `self + rhs`, component by component.
    pub open spec fn plus(self, rhs: Vec3) -> Vec3 {
        Vec3 { x: self.x.plus(rhs.x), y: self.y.plus(rhs.y), z: self.z.plus(rhs.z) }
    }

    /// `self - rhs`, component by component.
    pub open spec fn minus(self, rhs: Vec3) -> Vec3 {
        Vec3 { x: self.x.minus(rhs.x), y: self.y.minus(rhs.y), z: self.z.minus(rhs.z) }
    }

    /// `self * rhs`, component by component.
    pub open spec fn times(self, rhs: Vec3) -> Vec3 {
        Vec3 { x: self.x.times(rhs.x), y: self.y.times(rhs.y), z: self.z.times(rhs.z) }
    }

    /// Every component times `t`.
    pub open spec fn scaled(self, t: Scalar) -> Vec3 {
        Vec3 { x: self.x.times(t), y: self.y.times(t), z: self.z.times(t) }
    }

    /// Every component times the reciprocal of `t`.
    pub open spec fn divided(self, t: Scalar) -> Vec3 {
        self.scaled(Scalar(ONE).over(t))
    }

    /// Every component with its sign flipped.
    pub open spec fn negated(self) -> Vec3 {
        Vec3 { x: self.x.negated(), y: self.y.negated(), z: self.z.negated() }
    }

    /// The component with the given index: 0 for x, 1 for y, anything else
    /// for z.
    pub open spec fn component(self, i: int) -> Scalar {
        if i == 0 {
            self.x
        } else if i == 1 {
            self.y
        } else {
            self.z
        }
    }

    /// The square of the length: the squares of the components, summed from
    /// left to right.
    pub open spec fn norm_squared(self) -> Scalar {
        self.x.times(self.x).plus(self.y.times(self.y)).plus(self.z.times(self.z))
    }

    /// The length.
    pub open spec fn norm(self) -> Scalar {
        self.norm_squared().root()
    }

    /// The vector divided by its length.
    pub open spec fn unit(self) -> Vec3 {
        self.divided(self.norm())
    }

    /// Whether the vector lies strictly inside the sphere of radius 1 about
    /// the origin.
    pub open spec fn in_unit_ball(self) -> bool {
        self.norm_squared().less(Scalar(ONE))
    }

    /// Whether no component is a NaN.
    pub open spec fn has_no_nan(self) -> bool {
        !self.x.is_nan() && !self.y.is_nan() && !self.z.is_nan()
    }

    /// Whether every component is a zero or a number.
    pub open spec fn is_finite(self) -> bool {
        self.x.is_finite() && self.y.is_finite() && self.z.is_finite()
    }

    /// The vector of three zeros.
    pub fn empty() -> (r: Vec3)
        ensures
            r == Vec3::zero(),
    {
        Vec3 { x: Scalar(ZERO), y: Scalar(ZERO), z: Scalar(ZERO) }
    }

    /// The vector with the given components.
    pub fn new(e0: Scalar, e1: Scalar, e2: Scalar) -> (r: Vec3)
        ensures
            r == (Vec3 { x: e0, y: e1, z: e2 }),
    {
        Vec3 { x: e0, y: e1, z: e2 }
    }

    /// The first component.
    pub fn x(&self) -> (r: Scalar)
        ensures
            r == self.x,
    {
        self.x
    }

    /// The second component.
    pub fn y(&self) -> (r: Scalar)
        ensures
            r == self.y,
    {
        self.y
    }

    /// The third component.
    pub fn z(&self) -> (r: Scalar)
        ensures
            r == self.z,
    {
        self.z
    }

    /// The length.
    pub fn length(&self) -> (r: Scalar)
        ensures
            r == self.norm(),
    {
        self.length_squared().sqrt()
    }

    /// The square of the length.
    pub fn length_squared(&self) -> (r: Scalar)
        ensures
            r == self.norm_squared(),
    {
        self.x * self.x + self.y * self.y + self.z * self.z
    }

    /// A vector whose components are random numbers that are 0 or more and
    /// less than 1, drawn one after the other: each a whole number of steps
    /// of 2^-24.
    pub fn random(rng: &mut ThreadRng) -> (r: Vec3)
        ensures
            is_unit_draw(r.x),
            is_unit_draw(r.y),
            is_unit_draw(r.z),
            is_unit(r.x),
            is_unit(r.y),
            is_unit(r.z),
    {
        let x = random_double(rng);
        let y = random_double(rng);
        let z = random_double(rng);
        Vec3::new(x, y, z)
    }

    /// A vector whose components are random numbers between `min` and `max`,
    /// drawn one after the other.
    pub fn random_range(rng: &mut ThreadRng, min: Scalar, max: Scalar) -> (r: Vec3)
        ensures
            exists|a: Scalar, b: Scalar, c: Scalar|
                is_unit(a) && is_unit(b) && is_unit(c) && r == #[trigger] spread_vec(
                    min,
                    max,
                    a,
                    b,
                    c,
                ),
    {
        let a = random_double(rng);
        let b = random_double(rng);
        let c = random_double(rng);
        let r = Vec3::from_units(min, max, a, b, c);
        assert(is_unit(a) && is_unit(b) && is_unit(c) && r == spread_vec(min, max, a, b, c));
        r
    }

    /// The vector whose components are `a`, `b` and `c`, three numbers
    /// between 0 and 1, each mapped into the interval from `min` to `max`.
    pub fn from_units(min: Scalar, max: Scalar, a: Scalar, b: Scalar, c: Scalar) -> (r: Vec3)
        ensures
            r == spread_vec(min, max, a, b, c),
    {
        Vec3::new(
            crate::utility::spread_over(min, max, a),
            crate::utility::spread_over(min, max, b),
            crate::utility::spread_over(min, max, c),
        )
    }

    /// Whether the vector lies strictly inside the unit sphere: the test by
    /// which the rejection samplers keep a candidate.
    pub fn inside_unit_ball(&self) -> (r: bool)
        ensures
            r == self.in_unit_ball(),
    {
        self.length_squared().lt(Scalar(ONE))
    }

    /// A random point strictly inside the unit sphere: the first of a row of
    /// random points of the cube from -1 to 1 that lies inside. After
    /// `DRAW_LIMIT` candidates outside, the origin is given.
    pub fn random_in_unit_sphere(rng: &mut ThreadRng) -> (r: Vec3)
        ensures
            is_ball_draw(r),
    {
        let mut drawn: u32 = 0;
        while drawn < DRAW_LIMIT
            decreases DRAW_LIMIT - drawn,
        {
            let candidate = Vec3::random_range(rng, Scalar(MINUS_ONE), Scalar(ONE));
            if candidate.inside_unit_ball() {
                return candidate;
            }
            drawn = drawn + 1;
        }
        proof {
            lemma_origin_in_unit_ball();
        }
        Vec3::empty()
    }

    /// A random point strictly inside the unit disk of the plane `z = 0`:
    /// the first of a row of random points of the square from -1 to 1 that
    /// lies inside. After `DRAW_LIMIT` candidates outside, the origin is given.
    pub fn random_in_unit_disk(rng: &mut ThreadRng) -> (r: Vec3)
        ensures
            is_disk_draw(r),
    {
        let mut drawn: u32 = 0;
        while drawn < DRAW_LIMIT
            decreases DRAW_LIMIT - drawn,
        {
            let x = random_double_range(rng, Scalar(MINUS_ONE), Scalar(ONE));
            let y = random_double_range(rng, Scalar(MINUS_ONE), Scalar(ONE));
            let candidate = Vec3::new(x, y, Scalar(ZERO));
            if candidate.inside_unit_ball() {
                return candidate;
            }
            drawn = drawn + 1;
        }
        proof {
            lemma_origin_in_unit_ball();
        }
        Vec3::empty()
    }

    /// The point on the unit sphere at azimuth `a` and height `z`.
    pub fn from_azimuth_and_height(a: Scalar, z: Scalar) -> (r: Vec3)
        ensures
            r == on_sphere(a, z),
    {
        let r = (Scalar(ONE) - z * z).sqrt();
        Vec3::new(r * a.cos(), r * a.sin(), z)
    }

    /// A random direction of length 1: an azimuth drawn between 0 and pi and
    /// a height drawn between -1 and 1, put on the unit sphere.
    pub fn random_unit_vector(rng: &mut ThreadRng) -> (r: Vec3)
        ensures
            is_sphere_draw(r),
    {
        let s = random_double(rng);
        let t = random_double(rng);
        let a = crate::utility::spread_over(Scalar(ZERO), Scalar(PI), s);
        let z = crate::utility::spread_over(Scalar(MINUS_ONE), Scalar(ONE), t);
        let r = Vec3::from_azimuth_and_height(a, z);
        assert(is_unit(s) && is_unit(t) && r == on_sphere(
            spread(Scalar(ZERO), Scalar(PI), s),
            spread(Scalar(MINUS_ONE), Scalar(ONE), t),
        ));
        r
    }
}

impl core::ops::Neg for Vec3 {
    type Output = Vec3;

    /// The vector with the sign of every component flipped.
    fn neg(self) -> (r: Vec3)
        ensures
            r == self.negated(),
    {
        Vec3::new(self.x.neg(), self.y.neg(), self.z.neg())
    }
}

impl vstd::std_specs::ops::NegSpecImpl for Vec3 {
    open spec fn obeys_neg_spec() -> bool {
        true
    }

    open spec fn neg_req(self) -> bool {
        true
    }

    open spec fn neg_spec(self) -> Vec3 {
        self.negated()
    }
}

impl core::ops::Index<usize> for Vec3 {
    type Output = Scalar;

    /// The component with the given index, which is 0, 1 or 2.
    fn index(&self, index: usize) -> (r: &Scalar)
        ensures
            *r == self.component(index as int),
    {
        if index == 0 {
            &self.x
        } else if index == 1 {
            &self.y
        } else {
            &self.z
        }
    }
}

impl vstd::std_specs::core::IndexSpecImpl<usize> for Vec3 {
    open spec fn index_req(&self, index: &usize) -> bool {
        *index < 3
    }
}

impl core::ops::Add for Vec3 {
    type Output = Vec3;

    /// The sum of two vectors, component by component.
    fn add(self, other: Vec3) -> (r: Vec3)
        ensures
            r == self.plus(other),
    {
        Vec3::new(self.x + other.x, self.y + other.y, self.z + other.z)
    }
}

impl vstd::std_specs::ops::AddSpecImpl for Vec3 {
    open spec fn obeys_add_spec() -> bool {
        true
    }

    open spec fn add_req(self, other: Vec3) -> bool {
        true
    }

    open spec fn add_spec(self, other: Vec3) -> Vec3 {
        self.plus(other)
    }
}

impl core::ops::Sub for Vec3 {
    type Output = Vec3;

    /// The difference of two vectors, component by component.
    fn sub(self, other: Vec3) -> (r: Vec3)
        ensures
            r == self.minus(other),
    {
        Vec3::new(self.x - other.x, self.y - other.y, self.z - other.z)
    }
}

impl vstd::std_specs::ops::SubSpecImpl for Vec3 {
    open spec fn obeys_sub_spec() -> bool {
        true
    }

    open spec fn sub_req(self, other: Vec3) -> bool {
        true
    }

    open spec fn sub_spec(self, other: Vec3) -> Vec3 {
        self.minus(other)
    }
}

impl core::ops::Mul for Vec3 {
    type Output = Vec3;

    /// The product of two vectors, component by component.
    fn mul(self, other: Vec3) -> (r: Vec3)
        ensures
            r == self.times(other),
    {
        Vec3::new(self.x * other.x, self.y * other.y, self.z * other.z)
    }
}

impl vstd::std_specs::ops::MulSpecImpl for Vec3 {
    open spec fn obeys_mul_spec() -> bool {
        true
    }

    open spec fn mul_req(self, other: Vec3) -> bool {
        true
    }

    open spec fn mul_spec(self, other: Vec3) -> Vec3 {
        self.times(other)
    }
}

impl core::ops::Mul<Scalar> for Vec3 {
    type Output = Vec3;

    /// The vector with every component multiplied by a number.
    fn mul(self, other: Scalar) -> (r: Vec3)
        ensures
            r == self.scaled(other),
    {
        Vec3::new(self.x * other, self.y * other, self.z * other)
    }
}

impl vstd::std_specs::ops::MulSpecImpl<Scalar> for Vec3 {
    open spec fn obeys_mul_spec() -> bool {
        true
    }

    open spec fn mul_req(self, other: Scalar) -> bool {
        true
    }

    open spec fn mul_spec(self, other: Scalar) -> Vec3 {
        self.scaled(other)
    }
}

impl core::ops::Div<Scalar> for Vec3 {
    type Output = Vec3;

    /// The vector with every component multiplied by the reciprocal of a
    /// number.
    fn div(self, t: Scalar) -> (r: Vec3)
        ensures
            r == self.divided(t),
    {
        self * (Scalar(ONE) / t)
    }
}

impl vstd::std_specs::ops::DivSpecImpl<Scalar> for Vec3 {
    open spec fn obeys_div_spec() -> bool {
        true
    }

    open spec fn div_req(self, t: Scalar) -> bool {
        true
    }

    open spec fn div_spec(self, t: Scalar) -> Vec3 {
        self.divided(t)
    }
}

/// The dot product of two vectors.
pub fn dot(u: &Vec3, v: &Vec3) -> (r: Scalar)
    ensures
        r == dot_product(*u, *v),
{
    u.x * v.x + u.y * v.y + u.z * v.z
}

/// The cross product of two vectors.
pub fn cross(u: &Vec3, v: &Vec3) -> (r: Vec3)
    ensures
        r == cross_product(*u, *v),
{
    Vec3::new(u.y * v.z - u.z * v.y, u.z * v.x - u.x * v.z, u.x * v.y - u.y * v.x)
}

/// The vector divided by its length. A vector of length zero gives
/// components that are no numbers.
pub fn unit_vector(v: Vec3) -> (r: Vec3)
    ensures
        r == v.unit(),
{
    v / v.length()
}

/// The direction `v` mirrored at a surface with normal `n`.
pub fn reflect(v: &Vec3, n: &Vec3) -> (r: Vec3)
    ensures
        r == reflected(*v, *n),
{
    *v - *n * (Scalar(TWO) * dot(v, n))
}

/// The direction `uv`, of length 1, bent at a surface with normal `n` of
/// length 1, by Snell's law for the given ratio of refractive indices.
pub fn refract(uv: &Vec3, n: &Vec3, etai_over_etat: Scalar) -> (r: Vec3)
    ensures
        r == refracted(*uv, *n, etai_over_etat),
{
    let cos_theta = dot(&uv.neg(), n).min(Scalar(ONE));
    let r_out_perp = (*uv + *n * cos_theta) * etai_over_etat;
    let r_out_parallel = *n * (Scalar(ONE) - r_out_perp.length_squared()).abs().sqrt().neg();
    r_out_perp + r_out_parallel
}

} // verus!
