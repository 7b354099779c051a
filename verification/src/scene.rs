//! The scene: a ground, a field of small random spheres, and three large
//! spheres.
use crate::camera::Camera;
use crate::hittable::{all_primitive, Hittable, HittableList};
use crate::material::{Dielectric, Lambertian, Material, Metal};
use crate::scalar::{Scalar, HALF, ONE, TWO, ZERO};
use crate::sphere::Sphere;
use crate::utility::{is_unit, random_double, random_double_range, spread};
use crate::vec::{spread_vec, Color, Point3, Vec3};
use rand::rngs::ThreadRng;
use vstd::prelude::*;

verus! {

/// 1000.0, the radius of the ground.
pub const GROUND_RADIUS: u32 = 0x447a_0000;

/// -1000.0, the height of the centre of the ground.
pub const GROUND_HEIGHT: u32 = 0xc47a_0000;

/// 0.2, the radius of a small sphere and the height of its centre.
pub const SMALL_RADIUS: u32 = 0x3e4c_cccd;

/// 0.9, how far a small sphere is moved at most from its place in the grid,
/// and how near it may come to the place of the large metal sphere.
pub const SPACING: u32 = 0x3f66_6666;

/// 0.8: below this the material of a small sphere is matt.
pub const MATT_SHARE: u32 = 0x3f4c_cccd;

/// 0.95: below this, and not below 0.8, the material of a small sphere is
/// metal; from here on it is glass.
pub const METAL_SHARE: u32 = 0x3f73_3333;

/// 1.5, the refractive index of glass.
pub const GLASS_INDEX: u32 = 0x3fc0_0000;

/// 4.0
pub const FOUR: u32 = 0x4080_0000;

/// -4.0
pub const MINUS_FOUR: u32 = 0xc080_0000;

/// 0.4
pub const BROWN_RED: u32 = 0x3ecc_cccd;

/// 0.2
pub const BROWN_GREEN: u32 = 0x3e4c_cccd;

/// 0.1
pub const BROWN_BLUE: u32 = 0x3dcc_cccd;

/// 0.1, the diameter of the lens.
pub const APERTURE: u32 = 0x3dcc_cccd;

/// 0.7
pub const BRASS_RED: u32 = 0x3f33_3333;

/// 0.6
pub const BRASS_GREEN: u32 = 0x3f19_999a;

/// The first place of the grid along each axis.
pub const GRID_FIRST: i32 = -11;

/// The place behind the last one of the grid along each axis.
pub const GRID_END: i32 = 11;

/// The number of places along each axis.
pub const GRID_SIDE: i32 = 22;

/// The number of places of the grid.
pub const GRID_CELLS: i32 = 484;

/// The width of the picture in pixels.
pub const IMAGE_WIDTH: i32 = 1920;

/// 16/9, the width of the picture over its height.
pub const ASPECT_RATIO: u32 = 0x3fe3_8e39;

/// How many rays are sent through each pixel.
pub const SAMPLES_PER_PIXEL: i32 = 100;

/// How many times a ray is followed from surface to surface at most.
pub const MAX_DEPTH: i32 = 50;

/// 13.0, where the camera stands along x.
pub const CAMERA_X: u32 = 0x4150_0000;

/// 3.0, where the camera stands along z.
pub const CAMERA_Z: u32 = 0x4040_0000;

/// 20.0, the height of the field of view in degrees.
pub const FIELD_OF_VIEW: u32 = 0x41a0_0000;

/// 10.0, the distance at which the picture is sharp.
pub const FOCUS_DISTANCE: u32 = 0x4120_0000;

/// The camera of the picture: at `(13, 2, 3)`, looking at the origin with
/// `(0, 1, 0)` upwards, 20 degrees high and 16/9 as wide as high, with a lens
/// of diameter 0.1 that is focused at distance 10.
pub open spec fn scene_view() -> Camera {
    Camera::looking(
        Vec3 { x: Scalar(CAMERA_X), y: Scalar(TWO), z: Scalar(CAMERA_Z) },
        Vec3::zero(),
        Vec3 { x: Scalar(ZERO), y: Scalar(ONE), z: Scalar(ZERO) },
        Scalar(FIELD_OF_VIEW),
        Scalar(ASPECT_RATIO),
        Scalar(APERTURE),
        Scalar(FOCUS_DISTANCE),
    )
}

/// The camera of the picture.
pub fn scene_camera() -> (r: Camera)
    ensures
        r == scene_view(),
{
    Camera::new(
        Point3::new(Scalar(CAMERA_X), Scalar(TWO), Scalar(CAMERA_Z)),
        Point3::empty(),
        Vec3::new(Scalar(ZERO), Scalar(ONE), Scalar(ZERO)),
        Scalar(FIELD_OF_VIEW),
        Scalar(ASPECT_RATIO),
        Scalar(APERTURE),
        Scalar(FOCUS_DISTANCE),
    )
}

/// The ground: a matt grey sphere of radius 1000 about `(0, -1000, 0)`.
pub open spec fn ground() -> Hittable {
    Hittable::Sphere(
        Sphere {
            center: Vec3 { x: Scalar(ZERO), y: Scalar(GROUND_HEIGHT), z: Scalar(ZERO) },
            radius: Scalar(GROUND_RADIUS),
            material: Material::Lambertian(
                Lambertian { albedo: Vec3 { x: Scalar(HALF), y: Scalar(HALF), z: Scalar(HALF) } },
            ),
        },
    )
}

/// The large glass sphere: radius 1 about `(0, 1, 0)`, index 1.5.
pub open spec fn glass_feature() -> Hittable {
    Hittable::Sphere(
        Sphere {
            center: Vec3 { x: Scalar(ZERO), y: Scalar(ONE), z: Scalar(ZERO) },
            radius: Scalar(ONE),
            material: Material::Dielectric(Dielectric { refraction_index: Scalar(GLASS_INDEX) }),
        },
    )
}

/// The large matt sphere: radius 1 about `(-4, 1, 0)`, colour
/// `(0.4, 0.2, 0.1)`.
pub open spec fn matt_feature() -> Hittable {
    Hittable::Sphere(
        Sphere {
            center: Vec3 { x: Scalar(MINUS_FOUR), y: Scalar(ONE), z: Scalar(ZERO) },
            radius: Scalar(ONE),
            material: Material::Lambertian(
                Lambertian {
                    albedo: Vec3 {
                        x: Scalar(BROWN_RED),
                        y: Scalar(BROWN_GREEN),
                        z: Scalar(BROWN_BLUE),
                    },
                },
            ),
        },
    )
}

/// The large metal sphere: radius 1 about `(4, 1, 0)`, colour
/// `(0.7, 0.6, 0.5)`, no blur.
pub open spec fn metal_feature() -> Hittable {
    Hittable::Sphere(
        Sphere {
            center: Vec3 { x: Scalar(FOUR), y: Scalar(ONE), z: Scalar(ZERO) },
            radius: Scalar(ONE),
            material: Material::Metal(
                Metal {
                    albedo: Vec3 { x: Scalar(BRASS_RED), y: Scalar(BRASS_GREEN), z: Scalar(HALF) },
                    fuzz: Scalar(ZERO),
                },
            ),
        },
    )
}

/// The centre of the small sphere at place `(a, b)` of the grid, moved by
/// `0.9 u` along x and `0.9 w` along z: `(a + 0.9 u, 0.2, b + 0.9 w)`.
pub open spec fn grid_point(a: i32, b: i32, u: Scalar, w: Scalar) -> Point3 {
    Vec3 {
        x: Scalar::of_int(a).plus(Scalar(SPACING).times(u)),
        y: Scalar(SMALL_RADIUS),
        z: Scalar::of_int(b).plus(Scalar(SPACING).times(w)),
    }
}

/// Whether a centre keeps clear of the large metal sphere: whether it lies
/// more than 0.9 from `(4, 0.2, 0)`.
pub open spec fn keeps_clear(center: Point3) -> bool {
    Scalar(SPACING).less(
        center.minus(Vec3 { x: Scalar(FOUR), y: Scalar(SMALL_RADIUS), z: Scalar(ZERO) }).norm(),
    )
}

/// Whether a colour is the product of two colours with channels between 0 and
/// 1.
pub open spec fn is_matt_draw(albedo: Color) -> bool {
    exists|c: Color, d: Color|
        is_unit(c.x) && is_unit(c.y) && is_unit(c.z) && is_unit(d.x) && is_unit(d.y) && is_unit(
            d.z,
        ) && albedo == #[trigger] c.times(d)
}

/// Whether a metal has channels drawn between 0.5 and 1 and a blur drawn
/// between 0 and 0.5.
pub open spec fn is_metal_draw(metal: Metal) -> bool {
    (exists|a: Scalar, b: Scalar, c: Scalar|
        is_unit(a) && is_unit(b) && is_unit(c) && metal.albedo == #[trigger] spread_vec(
            Scalar(HALF),
            Scalar(ONE),
            a,
            b,
            c,
        )) && (exists|f: Scalar|
        is_unit(f) && metal.fuzz == Metal::capped(#[trigger] spread(Scalar(ZERO), Scalar(HALF), f)))
}

/// Whether a material can be that of a small sphere for a given number
/// `choose_mat` between 0 and 1: below 0.8 a matt one, else below 0.95 a
/// metal, else glass of index 1.5.
pub open spec fn is_small_material(choose_mat: Scalar, material: Material) -> bool {
    if choose_mat.less(Scalar(MATT_SHARE)) {
        material is Lambertian && is_matt_draw(material->Lambertian_0.albedo)
    } else if choose_mat.less(Scalar(METAL_SHARE)) {
        material is Metal && is_metal_draw(material->Metal_0)
    } else {
        material == Material::Dielectric(Dielectric { refraction_index: Scalar(GLASS_INDEX) })
    }
}

/// The place along x of the place of the grid with a given number, the
/// places counted along z first.
pub open spec fn cell_a(cell: int) -> i32 {
    (GRID_FIRST + cell / GRID_SIDE as int) as i32
}

/// The place along z of the place of the grid with a given number.
pub open spec fn cell_b(cell: int) -> i32 {
    (GRID_FIRST + cell % GRID_SIDE as int) as i32
}

/// Whether a shape can be the small sphere of place `(a, b)` of the grid: a
/// sphere of radius 0.2 about a centre near that place which keeps clear of
/// the large metal sphere, of a material that a number between 0 and 1 picks.
pub open spec fn is_cell_sphere(object: Hittable, a: i32, b: i32) -> bool {
    &&& object is Sphere
    &&& object->Sphere_0.radius == Scalar(SMALL_RADIUS)
    &&& keeps_clear(object->Sphere_0.center)
    &&& exists|u: Scalar, w: Scalar|
        is_unit(u) && is_unit(w) && object->Sphere_0.center == #[trigger] grid_point(a, b, u, w)
    &&& exists|choose_mat: Scalar|
        is_unit(choose_mat) && #[trigger] is_small_material(
            choose_mat,
            object->Sphere_0.material,
        )
}

/// Whether place `(a, b)` of the grid can stay empty: whether a centre near
/// it does not keep clear of the large metal sphere.
pub open spec fn may_stay_empty(a: i32, b: i32) -> bool {
    exists|u: Scalar, w: Scalar|
        is_unit(u) && is_unit(w) && !keeps_clear(#[trigger] grid_point(a, b, u, w))
}

/// Whether a row of shapes can be the small spheres of the first `cells`
/// places of the grid: each place in turn stays empty or adds its sphere.
pub open spec fn is_field(objects: Seq<Hittable>, cells: int) -> bool
    decreases cells,
{
    if cells <= 0 {
        objects.len() == 0
    } else {
        ||| (may_stay_empty(cell_a(cells - 1), cell_b(cells - 1)) && is_field(objects, cells - 1))
        ||| (objects.len() > 0 && is_cell_sphere(
            objects.last(),
            cell_a(cells - 1),
            cell_b(cells - 1),
        ) && is_field(objects.drop_last(), cells - 1))
    }
}

/// Whether a row of shapes can be the scene: the ground first, then the small
/// spheres of the 484 places of the grid, then the large glass, matt and
/// metal spheres.
pub open spec fn is_scene(objects: Seq<Hittable>) -> bool {
    &&& 4 <= objects.len() <= 4 + GRID_CELLS
    &&& objects[0] == ground()
    &&& is_field(objects.subrange(1, objects.len() - 3), GRID_CELLS as int)
    &&& objects[objects.len() - 3] == glass_feature()
    &&& objects[objects.len() - 2] == matt_feature()
    &&& objects[objects.len() - 1] == metal_feature()
}

/// The centre of the small sphere at place `(a, b)` of the grid for two
/// numbers between 0 and 1.
pub fn grid_center(a: i32, b: i32, u: Scalar, w: Scalar) -> (r: Point3)
    ensures
        r == grid_point(a, b, u, w),
{
    Point3::new(
        Scalar::from_i32(a) + Scalar(SPACING) * u,
        Scalar(SMALL_RADIUS),
        Scalar::from_i32(b) + Scalar(SPACING) * w,
    )
}

/// Whether a centre keeps clear of the large metal sphere.
pub fn clear_of_feature(center: Point3) -> (r: bool)
    ensures
        r == keeps_clear(center),
{
    (center - Point3::new(Scalar(FOUR), Scalar(SMALL_RADIUS), Scalar(ZERO))).length().gt(
        Scalar(SPACING),
    )
}

/// The material of a small sphere for a given number between 0 and 1: below
/// 0.8 a matt one whose colour is the product of two random colours, else
/// below 0.95 a metal with random channels between 0.5 and 1 and a random
/// blur between 0 and 0.5, else glass of index 1.5.
pub fn small_material(choose_mat: Scalar, rng: &mut ThreadRng) -> (r: Material)
    ensures
        is_small_material(choose_mat, r),
{
    if choose_mat.lt(Scalar(MATT_SHARE)) {
        let c = Color::random(rng);
        let d = Color::random(rng);
        let albedo = c * d;
        assert(albedo == c.times(d));
        Material::Lambertian(Lambertian::new(albedo))
    } else if choose_mat.lt(Scalar(METAL_SHARE)) {
        let albedo = Color::random_range(rng, Scalar(HALF), Scalar(ONE));
        let fuzz = random_double_range(rng, Scalar(ZERO), Scalar(HALF));
        Material::Metal(Metal::new(albedo, fuzz))
    } else {
        Material::Dielectric(Dielectric::new(Scalar(GLASS_INDEX)))
    }
}

/// Builds the scene: the ground; for each place of the grid of 22 by 22 a
/// small sphere at a random spot near it, left out where it would come near
/// the large metal sphere; and the three large spheres.
pub fn random_scene(rng: &mut ThreadRng) -> (world: HittableList)
    ensures
        is_scene(world.objects@),
        all_primitive(world.objects@),
{
    let mut world = HittableList::new();
    assert(is_field(Seq::<Hittable>::empty(), 0));
    let material_ground = Material::Lambertian(
        Lambertian::new(Color::new(Scalar(HALF), Scalar(HALF), Scalar(HALF))),
    );
    world.add(
        Hittable::Sphere(
            Sphere::new(
                Point3::new(Scalar(ZERO), Scalar(GROUND_HEIGHT), Scalar(ZERO)),
                Scalar(GROUND_RADIUS),
                material_ground,
            ),
        ),
    );

    let mut a: i32 = GRID_FIRST;
    while a < GRID_END
        invariant
            GRID_FIRST <= a <= GRID_END,
            1 <= world.objects@.len() <= 1 + (a - GRID_FIRST) * GRID_SIDE,
            world.objects@[0] == ground(),
            all_primitive(world.objects@),
            is_field(
                world.objects@.subrange(1, world.objects@.len() as int),
                (a - GRID_FIRST) * GRID_SIDE,
            ),
        decreases GRID_END - a,
    {
        let mut b: i32 = GRID_FIRST;
        while b < GRID_END
            invariant
                GRID_FIRST <= a < GRID_END,
                GRID_FIRST <= b <= GRID_END,
                1 <= world.objects@.len() <= 1 + (a - GRID_FIRST) * GRID_SIDE + (b - GRID_FIRST),
                world.objects@[0] == ground(),
                all_primitive(world.objects@),
                is_field(
                    world.objects@.subrange(1, world.objects@.len() as int),
                    (a - GRID_FIRST) * GRID_SIDE + (b - GRID_FIRST),
                ),
            decreases GRID_END - b,
        {
            let ghost cell = (a - GRID_FIRST) * GRID_SIDE + (b - GRID_FIRST);
            let ghost before = world.objects@;
            assert(cell_a(cell) == a && cell_b(cell) == b);
            let choose_mat = random_double(rng);
            let u = random_double(rng);
            let w = random_double(rng);
            let center = grid_center(a, b, u, w);
            if clear_of_feature(center) {
                let material = small_material(choose_mat, rng);
                let sphere = Hittable::Sphere(Sphere::new(center, Scalar(SMALL_RADIUS), material));
                assert(is_cell_sphere(sphere, a, b)) by {
                    assert(center == grid_point(a, b, u, w));
                    assert(is_small_material(choose_mat, material));
                }
                world.add(sphere);
                proof {
                    let field = world.objects@.subrange(1, world.objects@.len() as int);
                    assert(field.drop_last() =~= before.subrange(1, before.len() as int));
                    assert(field.last() == sphere);
                    assert(is_field(field, cell + 1));
                }
            } else {
                assert(may_stay_empty(a, b)) by {
                    assert(!keeps_clear(grid_point(a, b, u, w)));
                }
                assert(is_field(world.objects@.subrange(1, world.objects@.len() as int), cell + 1));
            }
            b = b + 1;
        }
        a = a + 1;
    }
    let ghost field = world.objects@.subrange(1, world.objects@.len() as int);

    world.add(
        Hittable::Sphere(
            Sphere::new(
                Point3::new(Scalar(ZERO), Scalar(ONE), Scalar(ZERO)),
                Scalar(ONE),
                Material::Dielectric(Dielectric::new(Scalar(GLASS_INDEX))),
            ),
        ),
    );
    world.add(
        Hittable::Sphere(
            Sphere::new(
                Point3::new(Scalar(MINUS_FOUR), Scalar(ONE), Scalar(ZERO)),
                Scalar(ONE),
                Material::Lambertian(
                    Lambertian::new(
                        Color::new(Scalar(BROWN_RED), Scalar(BROWN_GREEN), Scalar(BROWN_BLUE)),
                    ),
                ),
            ),
        ),
    );
    world.add(
        Hittable::Sphere(
            Sphere::new(
                Point3::new(Scalar(FOUR), Scalar(ONE), Scalar(ZERO)),
                Scalar(ONE),
                Material::Metal(
                    Metal::new(
                        Color::new(Scalar(BRASS_RED), Scalar(BRASS_GREEN), Scalar(HALF)),
                        Scalar(ZERO),
                    ),
                ),
            ),
        ),
    );
    assert(world.objects@.subrange(1, world.objects@.len() - 3) =~= field);
    world
}

} // verus!
