//! What a ray can hit: the record of a hit, the closed set of shapes, the
//! list of shapes and the node of two shapes inside a box.
use core::ops::Neg;
use crate::aabb::{encloses, is_ordered, lemma_union_encloses, surrounding_box, union_box, Aabb};
use crate::material::{Lambertian, Material};
use crate::ray::Ray;
use crate::scalar::{Scalar, MIN, ZERO};
use crate::sphere::Sphere;
use crate::triangle::Triangle;
use crate::vec::{dot, dot_product, Point3, Vec3};
use vstd::prelude::*;

verus! {

/// Where and how a ray met a surface.
#[derive(Clone, Copy, Debug)]
pub struct HitRecord {
    /// The point that was hit.
    pub p: Point3,
    /// The normal of the surface there, turned against the ray.
    pub normal: Vec3,
    /// The material of the surface.
    pub material: Material,
    /// The parameter of the ray at the point.
    pub t: Scalar,
    /// Whether the ray came from outside.
    pub front_face: bool,
}

/// Whether `t` lies strictly between `t_min` and `t_max`.
pub open spec fn in_window(t: Scalar, t_min: Scalar, t_max: Scalar) -> bool {
    t.less(t_max) && t_min.less(t)
}

/// Whether the upper end `c` of an interval is `t_max` or lies below it.
pub open spec fn reaches(c: Scalar, t_max: Scalar) -> bool {
    c == t_max || c.less(t_max)
}

impl HitRecord {
    /// The record before any hit: at the origin, with the zero vector as
    /// normal, a black diffuse material, the most negative parameter, and
    /// from outside.
    pub open spec fn blank() -> HitRecord {
        HitRecord {
            p: Vec3::zero(),
            normal: Vec3::zero(),
            material: Material::Lambertian(Lambertian { albedo: Vec3::zero() }),
            t: Scalar(MIN),
            front_face: true,
        }
    }

    /// Whether a ray that meets a surface with the given outward normal comes
    /// from outside: whether it runs against the normal.
    pub open spec fn faces(ray: Ray, outward_normal: Vec3) -> bool {
        dot_product(ray.direction, outward_normal).less(Scalar(ZERO))
    }

    /// The outward normal, turned against the ray.
    pub open spec fn facing_normal(ray: Ray, outward_normal: Vec3) -> Vec3 {
        if HitRecord::faces(ray, outward_normal) {
            outward_normal
        } else {
            outward_normal.negated()
        }
    }

    /// The record of a hit at parameter `t` of the ray, on a surface with the
    /// given outward normal and material.
    pub open spec fn at(ray: Ray, t: Scalar, outward_normal: Vec3, material: Material) -> HitRecord {
        HitRecord {
            p: ray.point_at(t),
            normal: HitRecord::facing_normal(ray, outward_normal),
            material,
            t,
            front_face: HitRecord::faces(ray, outward_normal),
        }
    }

    /// The record before any hit.
    pub fn empty() -> (r: HitRecord)
        ensures
            r == HitRecord::blank(),
    {
        HitRecord {
            p: Point3::empty(),
            normal: Vec3::empty(),
            material: Material::Lambertian(Lambertian { albedo: Vec3::empty() }),
            t: Scalar(MIN),
            front_face: true,
        }
    }

    /// Notes from which side the ray came, and stores the normal turned
    /// against it.
    pub fn set_normale_face(&mut self, ray: &Ray, outward_normal: &Vec3)
        ensures
            final(self).front_face == HitRecord::faces(*ray, *outward_normal),
            final(self).normal == HitRecord::facing_normal(*ray, *outward_normal),
            final(self).p == old(self).p,
            final(self).t == old(self).t,
            final(self).material == old(self).material,
    {
        self.front_face = dot(&ray.direction, outward_normal).lt(Scalar(ZERO));
        self.normal = if self.front_face {
            *outward_normal
        } else {
            outward_normal.neg()
        };
    }
}

/// The normal that is stored never runs along the ray: its dot product with
/// the direction of the ray is not positive, for a direction and an outward
/// normal without a NaN.
pub proof fn lemma_normal_opposes_ray(ray: Ray, outward_normal: Vec3)
    requires
        ray.direction.has_no_nan(),
        outward_normal.has_no_nan(),
    ensures
        !Scalar(ZERO).less(
            dot_product(ray.direction, HitRecord::facing_normal(ray, outward_normal)),
        ),
{
    crate::vec::lemma_dot_of_negated(ray.direction, outward_normal);
}

/// A shape that a ray can hit.
pub enum Hittable {
    Sphere(Sphere),
    Triangle(Triangle),
    List(HittableList),
    Node(BvhNode),
}

/// Shapes in the order in which they were added.
pub struct HittableList {
    pub objects: Vec<Hittable>,
}

/// Two shapes and a box around both. A ray that misses the box is not tried
/// on the shapes.
pub struct BvhNode {
    pub left: Box<Hittable>,
    pub right: Box<Hittable>,
    pub bounds: Aabb,
}

/// The upper end of the interval in which the next shape is tried: the
/// parameter of the nearest hit so far, or `t_max` where there is none.
pub open spec fn closest_so_far(found: Option<HitRecord>, t_max: Scalar) -> Scalar {
    match found {
        Some(record) => record.t,
        None => t_max,
    }
}

/// The later of two finds, where there is one, else the earlier.
pub open spec fn latest(earlier: Option<HitRecord>, later: Option<HitRecord>) -> Option<HitRecord> {
    match later {
        Some(record) => Some(record),
        None => earlier,
    }
}

/// The nearest hit of the ray on the first `n` shapes, strictly between
/// `t_min` and `t_max`: each shape in turn is tried between `t_min` and the
/// nearest hit so far.
pub open spec fn nearest_hit(
    objects: Seq<Hittable>,
    n: nat,
    ray: Ray,
    t_min: Scalar,
    t_max: Scalar,
) -> Option<HitRecord>
    decreases objects, n,
{
    if n == 0 || n > objects.len() {
        None
    } else {
        let found = nearest_hit(objects, (n - 1) as nat, ray, t_min, t_max);
        latest(found, objects[n - 1].hit_record(ray, t_min, closest_so_far(found, t_max)))
    }
}

/// The box around the first `n` shapes, if `n` is not zero and each of them
/// has one.
pub open spec fn bounds_of(objects: Seq<Hittable>, n: nat) -> Option<Aabb>
    decreases objects, n,
{
    if n == 0 || n > objects.len() {
        None
    } else if n == 1 {
        objects[0].bounds()
    } else {
        match (bounds_of(objects, (n - 1) as nat), objects[n - 1].bounds()) {
            (Some(so_far), Some(next)) => Some(union_box(so_far, next)),
            _ => None,
        }
    }
}

impl Hittable {
    /// The record of the nearest hit of the ray on the shape, strictly
    /// between `t_min` and `t_max`, if there is one.
    pub open spec fn hit_record(self, ray: Ray, t_min: Scalar, t_max: Scalar) -> Option<HitRecord>
        decreases self, 0nat,
    {
        match self {
            Hittable::Sphere(sphere) => sphere.hit_record(ray, t_min, t_max),
            Hittable::Triangle(triangle) => triangle.hit_record(ray, t_min, t_max),
            Hittable::List(list) => nearest_hit(
                list.objects@,
                list.objects@.len(),
                ray,
                t_min,
                t_max,
            ),
            Hittable::Node(node) => if node.bounds.meets(ray, t_min, t_max) {
                let found = node.left.hit_record(ray, t_min, t_max);
                latest(found, node.right.hit_record(ray, t_min, closest_so_far(found, t_max)))
            } else {
                None
            },
        }
    }

    /// The box around the shape, if it has one.
    pub open spec fn bounds(self) -> Option<Aabb>
        decreases self, 0nat,
    {
        match self {
            Hittable::Sphere(sphere) => Some(sphere.bounds()),
            Hittable::Triangle(triangle) => None,
            Hittable::List(list) => bounds_of(list.objects@, list.objects@.len()),
            Hittable::Node(node) => Some(node.bounds),
        }
    }

    /// Looks for the nearest hit of the ray strictly between `t_min` and
    /// `t_max`. Writes it to `record` and gives true if there is one; leaves
    /// `record` as it is and gives false if there is none.
    pub fn hit(&self, ray: &Ray, t_min: Scalar, t_max: Scalar, record: &mut HitRecord) -> (r: bool)
        ensures
            r == self.hit_record(*ray, t_min, t_max).is_some(),
            r ==> *final(record) == self.hit_record(*ray, t_min, t_max).unwrap(),
            !r ==> *final(record) == *old(record),
        decreases self, 0nat,
    {
        match self {
            Hittable::Sphere(sphere) => sphere.hit(ray, t_min, t_max, record),
            Hittable::Triangle(triangle) => triangle.hit(ray, t_min, t_max, record),
            Hittable::List(list) => list.hit(ray, t_min, t_max, record),
            Hittable::Node(node) => node.hit(ray, t_min, t_max, record),
        }
    }

    /// Looks for the box around the shape. Writes it to `output_box` and
    /// gives true if there is one; leaves `output_box` as it is and gives
    /// false if there is none. The two times are not looked at.
    pub fn bounding_box(&self, t0: Scalar, t1: Scalar, output_box: &mut Aabb) -> (r: bool)
        ensures
            r == self.bounds().is_some(),
            r ==> *final(output_box) == self.bounds().unwrap(),
            !r ==> *final(output_box) == *old(output_box),
        decreases self, 0nat,
    {
        match self {
            Hittable::Sphere(sphere) => sphere.bounding_box(t0, t1, output_box),
            Hittable::Triangle(triangle) => triangle.bounding_box(t0, t1, output_box),
            Hittable::List(list) => list.bounding_box(t0, t1, output_box),
            Hittable::Node(node) => node.bounding_box(t0, t1, output_box),
        }
    }
}

impl HittableList {
    /// The record of the nearest hit of the ray on any shape of the list,
    /// strictly between `t_min` and `t_max`, if there is one.
    pub open spec fn hit_record(self, ray: Ray, t_min: Scalar, t_max: Scalar) -> Option<HitRecord> {
        Hittable::List(self).hit_record(ray, t_min, t_max)
    }

    /// The box around all shapes of the list, if the list is not empty and
    /// each shape has one.
    pub open spec fn bounds(self) -> Option<Aabb> {
        Hittable::List(self).bounds()
    }

    /// The list without shapes.
    pub fn new() -> (r: HittableList)
        ensures
            r.objects@ == Seq::<Hittable>::empty(),
    {
        HittableList { objects: Vec::new() }
    }

    /// Puts a shape at the end of the list.
    pub fn add(&mut self, object: Hittable)
        ensures
            final(self).objects@ == old(self).objects@.push(object),
    {
        self.objects.push(object);
    }

    /// Takes every shape out of the list.
    pub fn clear(&mut self)
        ensures
            final(self).objects@ == Seq::<Hittable>::empty(),
    {
        self.objects.clear();
    }

    /// Looks for the nearest hit of the ray on any shape of the list,
    /// strictly between `t_min` and `t_max`: tries every shape in turn, each
    /// between `t_min` and the nearest hit so far. Writes the hit to `record`
    /// and gives true if there is one; leaves `record` as it is and gives
    /// false if there is none.
    pub fn hit(&self, ray: &Ray, t_min: Scalar, t_max: Scalar, record: &mut HitRecord) -> (r: bool)
        ensures
            r == self.hit_record(*ray, t_min, t_max).is_some(),
            r ==> *final(record) == self.hit_record(*ray, t_min, t_max).unwrap(),
            !r ==> *final(record) == *old(record),
        decreases self.objects, 1nat,
    {
        let mut temp_record = HitRecord::empty();
        let mut hit_anything = false;
        let mut closest = t_max;
        let mut i: usize = 0;
        while i < self.objects.len()
            invariant
                i <= self.objects.len(),
                hit_anything == nearest_hit(self.objects@, i as nat, *ray, t_min, t_max).is_some(),
                hit_anything ==> *record == nearest_hit(
                    self.objects@,
                    i as nat,
                    *ray,
                    t_min,
                    t_max,
                ).unwrap(),
                !hit_anything ==> *record == *old(record),
                closest == closest_so_far(
                    nearest_hit(self.objects@, i as nat, *ray, t_min, t_max),
                    t_max,
                ),
            decreases self.objects.len() - i,
        {
            assert(decreases_to!(self.objects => self.objects[i as int]));
            if self.objects[i].hit(ray, t_min, closest, &mut temp_record) {
                hit_anything = true;
                closest = temp_record.t;
                *record = temp_record;
            }
            i = i + 1;
        }
        hit_anything
    }

    /// Looks for the box around all shapes of the list. Writes it to
    /// `output_box` and gives true if the list is not empty and each shape
    /// has a box; else leaves `output_box` as it is and gives false. The two
    /// times are not looked at.
    pub fn bounding_box(&self, t0: Scalar, t1: Scalar, output_box: &mut Aabb) -> (r: bool)
        ensures
            r == self.bounds().is_some(),
            r ==> *final(output_box) == self.bounds().unwrap(),
            !r ==> *final(output_box) == *old(output_box),
        decreases self.objects, 1nat,
    {
        if self.objects.len() == 0 {
            return false;
        }
        let mut temp_box = Aabb::empty();
        let mut union = Aabb::empty();
        let mut i: usize = 0;
        while i < self.objects.len()
            invariant
                i <= self.objects.len(),
                i > 0 ==> bounds_of(self.objects@, i as nat) == Some(union),
            decreases self.objects.len() - i,
        {
            assert(decreases_to!(self.objects => self.objects[i as int]));
            if !self.objects[i].bounding_box(t0, t1, &mut temp_box) {
                proof {
                    lemma_no_bounds_from(self.objects@, i as nat + 1, self.objects@.len());
                }
                return false;
            }
            union = if i == 0 {
                temp_box
            } else {
                surrounding_box(&union, &temp_box)
            };
            i = i + 1;
        }
        *output_box = union;
        true
    }
}

impl BvhNode {
    /// The record of the nearest hit of the ray on either shape, strictly
    /// between `t_min` and `t_max`, if the ray passes through the box and
    /// there is one.
    pub open spec fn hit_record(self, ray: Ray, t_min: Scalar, t_max: Scalar) -> Option<HitRecord> {
        Hittable::Node(self).hit_record(ray, t_min, t_max)
    }

    /// Whether the box of the node is the smallest box around the boxes of
    /// its two shapes.
    pub open spec fn is_built(self) -> bool {
        match (self.left.bounds(), self.right.bounds()) {
            (Some(a), Some(b)) => self.bounds == union_box(a, b),
            _ => false,
        }
    }

    /// The node of two shapes with the smallest box around both, if each has
    /// a box.
    pub fn new(left: Hittable, right: Hittable) -> (r: Option<BvhNode>)
        ensures
            match (left.bounds(), right.bounds()) {
                (Some(a), Some(b)) => r == Some(
                    BvhNode { left: Box::new(left), right: Box::new(right), bounds: union_box(a, b) },
                ),
                _ => r.is_none(),
            },
            r is Some ==> r.unwrap().is_built(),
    {
        let mut left_box = Aabb::empty();
        let mut right_box = Aabb::empty();
        if left.bounding_box(Scalar(ZERO), Scalar(ZERO), &mut left_box) && right.bounding_box(
            Scalar(ZERO),
            Scalar(ZERO),
            &mut right_box,
        ) {
            let bounds = surrounding_box(&left_box, &right_box);
            Some(BvhNode { left: Box::new(left), right: Box::new(right), bounds })
        } else {
            None
        }
    }

    /// Looks for the nearest hit of the ray strictly between `t_min` and
    /// `t_max`: on nothing if the ray misses the box, else on the left shape
    /// and then on the right one, between `t_min` and the hit on the left.
    /// Writes the hit to `record` and gives true if there is one; leaves
    /// `record` as it is and gives false if there is none.
    pub fn hit(&self, ray: &Ray, t_min: Scalar, t_max: Scalar, record: &mut HitRecord) -> (r: bool)
        ensures
            r == self.hit_record(*ray, t_min, t_max).is_some(),
            r ==> *final(record) == self.hit_record(*ray, t_min, t_max).unwrap(),
            !r ==> *final(record) == *old(record),
        decreases self, 0nat,
    {
        if !self.bounds.hit(ray, t_min, t_max) {
            return false;
        }
        let hit_left = self.left.hit(ray, t_min, t_max, record);
        let closest = if hit_left {
            record.t
        } else {
            t_max
        };
        let hit_right = self.right.hit(ray, t_min, closest, record);
        hit_left || hit_right
    }

    /// Writes the box of the node to `output_box` and gives true. The two
    /// times are not looked at.
    pub fn bounding_box(&self, t0: Scalar, t1: Scalar, output_box: &mut Aabb) -> (r: bool)
        ensures
            r,
            *final(output_box) == self.bounds,
    {
        *output_box = self.bounds;
        true
    }
}

/// Once the first `n` shapes have no box around them, no longer row of the
/// shapes has one.
pub proof fn lemma_no_bounds_from(objects: Seq<Hittable>, n: nat, m: nat)
    requires
        1 <= n <= m <= objects.len(),
        bounds_of(objects, n).is_none(),
    ensures
        bounds_of(objects, m).is_none(),
    decreases m - n,
{
    if n < m {
        lemma_no_bounds_from(objects, n, (m - 1) as nat);
    }
}

impl Hittable {
    /// Whether the shape is a sphere or a triangle.
    pub open spec fn is_primitive(self) -> bool {
        self is Sphere || self is Triangle
    }

    /// How the hit on a sphere or a triangle depends on the upper end of the
    /// interval. A hit lies strictly inside the interval. Where the upper end
    /// is lowered to `c`, a hit below `c` stays as it is, and a hit that is
    /// found below `c` is no farther than the hit that is found below `t_max`.
    pub proof fn lemma_window(self, ray: Ray, t_min: Scalar, c: Scalar, t_max: Scalar)
        requires
            self.is_primitive(),
            reaches(c, t_max),
        ensures
            self.hit_record(ray, t_min, t_max) is Some ==> in_window(
                self.hit_record(ray, t_min, t_max).unwrap().t,
                t_min,
                t_max,
            ),
            self.hit_record(ray, t_min, t_max) is Some && self.hit_record(
                ray,
                t_min,
                t_max,
            ).unwrap().t.less(c) ==> self.hit_record(ray, t_min, c) == self.hit_record(
                ray,
                t_min,
                t_max,
            ),
            self.hit_record(ray, t_min, c) is Some ==> self.hit_record(ray, t_min, t_max) is Some
                && self.hit_record(ray, t_min, c).unwrap().t.at_most(
                self.hit_record(ray, t_min, t_max).unwrap().t,
            ),
    {
        match self {
            Hittable::Sphere(sphere) => sphere.lemma_window(ray, t_min, c, t_max),
            Hittable::Triangle(triangle) => triangle.lemma_window(ray, t_min, c, t_max),
            _ => {},
        }
    }
}

/// Whether each of the shapes is a sphere or a triangle.
pub open spec fn all_primitive(objects: Seq<Hittable>) -> bool {
    forall|i: int| 0 <= i < objects.len() ==> (#[trigger] objects[i]).is_primitive()
}

/// The nearest hit on the first `n` of a row of spheres and triangles lies
/// strictly inside the interval, there is one exactly if one of the shapes is
/// hit in the interval, and it is no farther than the hit on any one of them.
pub proof fn lemma_nearest_hit(
    objects: Seq<Hittable>,
    n: nat,
    ray: Ray,
    t_min: Scalar,
    t_max: Scalar,
)
    requires
        n <= objects.len(),
        all_primitive(objects),
    ensures
        nearest_hit(objects, n, ray, t_min, t_max) is Some ==> in_window(
            nearest_hit(objects, n, ray, t_min, t_max).unwrap().t,
            t_min,
            t_max,
        ),
        nearest_hit(objects, n, ray, t_min, t_max) is Some ==> exists|i: int|
            0 <= i < n && (#[trigger] objects[i]).hit_record(ray, t_min, t_max) is Some,
        forall|i: int|
            0 <= i < n && (#[trigger] objects[i]).hit_record(ray, t_min, t_max) is Some
                ==> nearest_hit(objects, n, ray, t_min, t_max) is Some && nearest_hit(
                objects,
                n,
                ray,
                t_min,
                t_max,
            ).unwrap().t.at_most(objects[i].hit_record(ray, t_min, t_max).unwrap().t),
    decreases n,
{
    if n > 0 {
        let before = nearest_hit(objects, (n - 1) as nat, ray, t_min, t_max);
        let c = closest_so_far(before, t_max);
        let last = objects[n - 1];
        lemma_nearest_hit(objects, (n - 1) as nat, ray, t_min, t_max);
        assert(last.is_primitive());
        assert(reaches(c, t_max));
        last.lemma_window(ray, t_min, c, t_max);
        let found = nearest_hit(objects, n, ray, t_min, t_max);
        assert(found == latest(before, last.hit_record(ray, t_min, c)));
        if found is Some {
            if last.hit_record(ray, t_min, c) is Some {
                assert(objects[n - 1].hit_record(ray, t_min, t_max) is Some);
            } else {
                let i = choose|i: int|
                    0 <= i < n - 1 && (#[trigger] objects[i]).hit_record(ray, t_min, t_max) is Some;
                assert(objects[i].hit_record(ray, t_min, t_max) is Some);
            }
        }
        assert forall|i: int|
            0 <= i < n && (#[trigger] objects[i]).hit_record(ray, t_min, t_max) is Some implies found
            is Some && found.unwrap().t.at_most(
            objects[i].hit_record(ray, t_min, t_max).unwrap().t,
        ) by {
            if i < n - 1 {
                assert(before is Some);
            }
        }
    }
}

/// The box around the first `n` shapes reaches at least as far as the box of
/// each of them, where no coordinate of their boxes is a NaN.
pub proof fn lemma_bounds_enclose(objects: Seq<Hittable>, n: nat, i: int)
    requires
        0 <= i < n <= objects.len(),
        bounds_of(objects, n) is Some,
        forall|k: int|
            0 <= k < n && (#[trigger] objects[k]).bounds() is Some ==> is_ordered(
                objects[k].bounds().unwrap(),
            ),
    ensures
        objects[i].bounds() is Some,
        encloses(bounds_of(objects, n).unwrap(), objects[i].bounds().unwrap()),
        is_ordered(bounds_of(objects, n).unwrap()),
    decreases n,
{
    if n > 1 {
        let so_far = bounds_of(objects, (n - 1) as nat).unwrap();
        let next = objects[n - 1].bounds().unwrap();
        lemma_bounds_enclose(objects, (n - 1) as nat, if i < n - 1 {
            i
        } else {
            0
        });
        lemma_union_encloses(so_far, next);
    }
}

impl HittableList {
    /// A list of spheres and triangles gives a hit exactly if one of them is
    /// hit in the interval, and then the nearest: its parameter is no larger
    /// than that of the hit on any single shape of the list.
    pub proof fn lemma_hit_is_nearest(self, ray: Ray, t_min: Scalar, t_max: Scalar, i: int)
        requires
            all_primitive(self.objects@),
            0 <= i < self.objects@.len(),
            self.objects@[i].hit_record(ray, t_min, t_max) is Some,
        ensures
            self.hit_record(ray, t_min, t_max) is Some,
            self.hit_record(ray, t_min, t_max).unwrap().t.at_most(
                self.objects@[i].hit_record(ray, t_min, t_max).unwrap().t,
            ),
    {
        lemma_nearest_hit(self.objects@, self.objects@.len(), ray, t_min, t_max);
    }

    /// A list of spheres and triangles gives no hit where none of them is hit
    /// in the interval.
    pub proof fn lemma_miss_is_miss_of_all(self, ray: Ray, t_min: Scalar, t_max: Scalar)
        requires
            all_primitive(self.objects@),
            forall|i: int|
                0 <= i < self.objects@.len() ==> (#[trigger] self.objects@[i]).hit_record(
                    ray,
                    t_min,
                    t_max,
                ) is None,
        ensures
            self.hit_record(ray, t_min, t_max) is None,
    {
        lemma_nearest_hit(self.objects@, self.objects@.len(), ray, t_min, t_max);
    }
}

} // verus!
