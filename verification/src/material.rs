//! How surfaces scatter light: matt, mirroring and clear materials.
//!
//! Each material has a function that scatters with random numbers of its
//! own, and one that takes them as an argument and says exactly what comes
//! out.
use core::ops::Neg;
use crate::hittable::HitRecord;
use crate::ray::Ray;
use crate::scalar::{Scalar, ONE, ZERO};
use crate::utility::{is_unit, random_double};
use crate::vec::{
    cos_incidence, dot, dot_product, is_ball_draw, is_sphere_draw, reflect, reflected, refract,
    refracted, unit_vector, Color, Vec3,
};
use rand::rngs::ThreadRng;
use vstd::prelude::*;

verus! {

/// A matt surface, which scatters light to all sides.
#[derive(Clone, Copy, Debug)]
pub struct Lambertian {
    pub albedo: Color,
}

/// A mirror, blurred by `fuzz`, which is 1 at most.
#[derive(Clone, Copy, Debug)]
pub struct Metal {
    pub albedo: Color,
    pub fuzz: Scalar,
}

/// Clear matter such as glass, which reflects or lets through.
#[derive(Clone, Copy, Debug)]
pub struct Dielectric {
    pub refraction_index: Scalar,
}

/// One of the three kinds of surface.
#[derive(Clone, Copy, Debug)]
pub enum Material {
    Lambertian(Lambertian),
    Metal(Metal),
    Dielectric(Dielectric),
}

/// The colour that takes nothing away: `(1, 1, 1)`.
pub open spec fn white() -> Color {
    Vec3 { x: Scalar(ONE), y: Scalar(ONE), z: Scalar(ONE) }
}

/// `x^2`
pub open spec fn squared(x: Scalar) -> Scalar {
    x.times(x)
}

/// `x^5`, multiplied up as `x (x^2)^2`.
pub open spec fn fifth_power(x: Scalar) -> Scalar {
    x.times(squared(x).times(squared(x)))
}

/// Schlick's estimate of the share of light that a clear surface reflects:
/// `r0 + (1 - r0) (1 - cosine)^5` with `r0 = ((1 - ref_idx) / (1 + ref_idx))^2`.
pub open spec fn schlick_reflectance(cosine: Scalar, ref_idx: Scalar) -> Scalar {
    let r0 = squared(Scalar(ONE).minus(ref_idx).over(Scalar(ONE).plus(ref_idx)));
    r0.plus(Scalar(ONE).minus(r0).times(fifth_power(Scalar(ONE).minus(cosine))))
}

/// Schlick's estimate of the share of light that a clear surface reflects.
pub fn schlick(cosine: Scalar, ref_idx: Scalar) -> (r: Scalar)
    ensures
        r == schlick_reflectance(cosine, ref_idx),
{
    let q = (Scalar(ONE) - ref_idx) / (Scalar(ONE) + ref_idx);
    let r0 = q * q;
    let x = Scalar(ONE) - cosine;
    let x2 = x * x;
    r0 + (Scalar(ONE) - r0) * (x * (x2 * x2))
}

impl Lambertian {
    /// The scattered ray for a given random direction: from the point that
    /// was hit, along the normal plus that direction.
    pub open spec fn bounce(self, record: HitRecord, unit: Vec3) -> Ray {
        Ray { origin: record.p, direction: record.normal.plus(unit) }
    }

    /// Whether `scatter` can end with these values.
    pub open spec fn may_scatter(
        self,
        record: HitRecord,
        scatters: bool,
        attenuation: Color,
        scattered: Ray,
    ) -> bool {
        scatters && attenuation == self.albedo && exists|unit: Vec3|
            is_sphere_draw(unit) && scattered == #[trigger] self.bounce(record, unit)
    }

    /// A matt surface of the given colour.
    pub fn new(albedo: Color) -> (r: Lambertian)
        ensures
            r == (Lambertian { albedo }),
    {
        Lambertian { albedo }
    }

    /// Scatters along the normal plus the given direction, and takes away
    /// what the colour of the surface takes. Always gives true.
    pub fn scatter_with(
        &self,
        record: &HitRecord,
        unit: Vec3,
        attenuation: &mut Color,
        scattered: &mut Ray,
    ) -> (r: bool)
        ensures
            r,
            *final(attenuation) == self.albedo,
            *final(scattered) == self.bounce(*record, unit),
    {
        let scatter_direction = record.normal + unit;
        *scattered = Ray::new(record.p, scatter_direction);
        *attenuation = self.albedo;
        true
    }

    /// Scatters along the normal plus a random direction of length 1.
    pub fn scatter(
        &self,
        ray: &Ray,
        record: &HitRecord,
        attenuation: &mut Color,
        scattered: &mut Ray,
        rng: &mut ThreadRng,
    ) -> (r: bool)
        ensures
            self.may_scatter(*record, r, *final(attenuation), *final(scattered)),
    {
        let unit = Vec3::random_unit_vector(rng);
        self.scatter_with(record, unit, attenuation, scattered)
    }
}

impl Metal {
    /// The blur that a mirror is made with: `fuzz` where that is less than
    /// 1, else 1.
    pub open spec fn capped(fuzz: Scalar) -> Scalar {
        if fuzz.less(Scalar(ONE)) {
            fuzz
        } else {
            Scalar(ONE)
        }
    }

    /// The scattered ray for a given random offset: from the point that was
    /// hit, along the mirrored direction plus `fuzz` times the offset.
    pub open spec fn bounce(self, ray: Ray, record: HitRecord, offset: Vec3) -> Ray {
        Ray {
            origin: record.p,
            direction: reflected(ray.direction, record.normal).plus(offset.scaled(self.fuzz)),
        }
    }

    /// Whether the scattered ray leaves the surface: whether it runs along
    /// the normal. One that does not is taken as swallowed.
    pub open spec fn leaves(scattered: Ray, record: HitRecord) -> bool {
        Scalar(ZERO).less(dot_product(scattered.direction, record.normal))
    }

    /// Whether `scatter` can end with these values.
    pub open spec fn may_scatter(
        self,
        ray: Ray,
        record: HitRecord,
        scatters: bool,
        attenuation: Color,
        scattered: Ray,
    ) -> bool {
        attenuation == self.albedo && scatters == Metal::leaves(scattered, record) && exists|
            offset: Vec3,
        |
            is_ball_draw(offset) && scattered == #[trigger] self.bounce(ray, record, offset)
    }

    /// A mirror of the given colour. A `fuzz` of 1 or more, or one that is no
    /// number, makes the blur 1.
    pub fn new(albedo: Color, fuzz: Scalar) -> (r: Metal)
        ensures
            r == (Metal { albedo, fuzz: Metal::capped(fuzz) }),
    {
        let fuzz = if fuzz.lt(Scalar(ONE)) {
            fuzz
        } else {
            Scalar(ONE)
        };
        Metal { albedo, fuzz }
    }

    /// Scatters along the mirrored direction, moved by `fuzz` times the given
    /// offset, and takes away what the colour of the surface takes. Gives
    /// true if the scattered ray leaves the surface.
    pub fn scatter_with(
        &self,
        ray: &Ray,
        record: &HitRecord,
        offset: Vec3,
        attenuation: &mut Color,
        scattered: &mut Ray,
    ) -> (r: bool)
        ensures
            *final(attenuation) == self.albedo,
            *final(scattered) == self.bounce(*ray, *record, offset),
            r == Metal::leaves(*final(scattered), *record),
    {
        let reflected = reflect(&ray.direction, &record.normal);
        *scattered = Ray::new(record.p, reflected + offset * self.fuzz);
        *attenuation = self.albedo;
        dot(&scattered.direction, &record.normal).gt(Scalar(ZERO))
    }

    /// Scatters along the mirrored direction, moved by `fuzz` times a random
    /// point inside the unit sphere.
    pub fn scatter(
        &self,
        ray: &Ray,
        record: &HitRecord,
        attenuation: &mut Color,
        scattered: &mut Ray,
        rng: &mut ThreadRng,
    ) -> (r: bool)
        ensures
            self.may_scatter(*ray, *record, r, *final(attenuation), *final(scattered)),
    {
        let offset = Vec3::random_in_unit_sphere(rng);
        self.scatter_with(ray, record, offset, attenuation, scattered)
    }
}

impl Dielectric {
    /// The ratio of the refractive index before the surface to that behind
    /// it: `1 / index` for a ray from outside, `index` for one from inside.
    pub open spec fn ratio(self, record: HitRecord) -> Scalar {
        if record.front_face {
            Scalar(ONE).over(self.refraction_index)
        } else {
            self.refraction_index
        }
    }

    /// The cosine of the angle at which the ray meets the normal, capped at
    /// 1.
    pub open spec fn cos_theta(ray: Ray, record: HitRecord) -> Scalar {
        cos_incidence(ray.direction.unit(), record.normal)
    }

    /// The sine of that angle: `sqrt(1 - cos^2)`.
    pub open spec fn sin_theta(ray: Ray, record: HitRecord) -> Scalar {
        Scalar(ONE).minus(
            Dielectric::cos_theta(ray, record).times(Dielectric::cos_theta(ray, record)),
        ).root()
    }

    /// Whether no light can pass: whether `ratio * sin` is more than 1.
    pub open spec fn must_reflect(self, ray: Ray, record: HitRecord) -> bool {
        Scalar(ONE).less(self.ratio(record).times(Dielectric::sin_theta(ray, record)))
    }

    /// The share of light that is reflected where light can pass.
    pub open spec fn reflectance(self, ray: Ray, record: HitRecord) -> Scalar {
        schlick_reflectance(Dielectric::cos_theta(ray, record), self.ratio(record))
    }

    /// The ray that the surface reflects.
    pub open spec fn mirrored(ray: Ray, record: HitRecord) -> Ray {
        Ray { origin: record.p, direction: reflected(ray.direction.unit(), record.normal) }
    }

    /// The ray that the surface lets through.
    pub open spec fn passed(self, ray: Ray, record: HitRecord) -> Ray {
        Ray {
            origin: record.p,
            direction: refracted(ray.direction.unit(), record.normal, self.ratio(record)),
        }
    }

    /// Whether the ray is reflected for a given random number: always where
    /// no light can pass, else where the number is less than the share of
    /// light that is reflected.
    pub open spec fn reflects(self, ray: Ray, record: HitRecord, chance: Scalar) -> bool {
        self.must_reflect(ray, record) || chance.less(self.reflectance(ray, record))
    }

    /// The scattered ray for a given random number.
    pub open spec fn bounce(self, ray: Ray, record: HitRecord, chance: Scalar) -> Ray {
        if self.reflects(ray, record, chance) {
            Dielectric::mirrored(ray, record)
        } else {
            self.passed(ray, record)
        }
    }

    /// Whether `scatter` can end with these values.
    pub open spec fn may_scatter(
        self,
        ray: Ray,
        record: HitRecord,
        scatters: bool,
        attenuation: Color,
        scattered: Ray,
    ) -> bool {
        scatters && attenuation == white() && exists|chance: Scalar|
            is_unit(chance) && scattered == #[trigger] self.bounce(ray, record, chance)
    }

    /// Clear matter with the given refractive index.
    pub fn new(refraction_index: Scalar) -> (r: Dielectric)
        ensures
            r == (Dielectric { refraction_index }),
    {
        Dielectric { refraction_index }
    }

    /// Whether no light can pass the surface at the angle of the ray.
    pub fn reflects_totally(&self, ray: &Ray, record: &HitRecord) -> (r: bool)
        ensures
            r == self.must_reflect(*ray, *record),
    {
        let etai_over_etat = if record.front_face {
            Scalar(ONE) / self.refraction_index
        } else {
            self.refraction_index
        };
        let unit_direction = unit_vector(ray.direction);
        let cos_theta = dot(&unit_direction.neg(), &record.normal).min(Scalar(ONE));
        let sin_theta = (Scalar(ONE) - cos_theta * cos_theta).sqrt();
        (etai_over_etat * sin_theta).gt(Scalar(ONE))
    }

    /// Reflects or lets through, as the given random number decides, and
    /// takes nothing away. Always gives true.
    pub fn scatter_with(
        &self,
        ray: &Ray,
        record: &HitRecord,
        chance: Scalar,
        attenuation: &mut Color,
        scattered: &mut Ray,
    ) -> (r: bool)
        ensures
            r,
            *final(attenuation) == white(),
            *final(scattered) == self.bounce(*ray, *record, chance),
    {
        *attenuation = Color::new(Scalar(ONE), Scalar(ONE), Scalar(ONE));
        let etai_over_etat = if record.front_face {
            Scalar(ONE) / self.refraction_index
        } else {
            self.refraction_index
        };
        let unit_direction = unit_vector(ray.direction);
        if self.reflects_totally(ray, record) {
            let reflected = reflect(&unit_direction, &record.normal);
            *scattered = Ray::new(record.p, reflected);
            return true;
        }
        let cos_theta = dot(&unit_direction.neg(), &record.normal).min(Scalar(ONE));
        let reflect_prob = schlick(cos_theta, etai_over_etat);
        if chance.lt(reflect_prob) {
            let reflected = reflect(&unit_direction, &record.normal);
            *scattered = Ray::new(record.p, reflected);
            return true;
        }
        let refracted = refract(&unit_direction, &record.normal, etai_over_etat);
        *scattered = Ray::new(record.p, refracted);
        true
    }

    /// Reflects where no light can pass. Else draws a random number, and
    /// reflects or lets through as it decides.
    pub fn scatter(
        &self,
        ray: &Ray,
        record: &HitRecord,
        attenuation: &mut Color,
        scattered: &mut Ray,
        rng: &mut ThreadRng,
    ) -> (r: bool)
        ensures
            self.may_scatter(*ray, *record, r, *final(attenuation), *final(scattered)),
            self.must_reflect(*ray, *record) ==> *final(scattered) == Dielectric::mirrored(
                *ray,
                *record,
            ),
    {
        let chance = if self.reflects_totally(ray, record) {
            Scalar(ZERO)
        } else {
            random_double(rng)
        };
        self.scatter_with(ray, record, chance, attenuation, scattered)
    }

    /// Where no light can pass, the ray is reflected whatever the random
    /// number is.
    pub proof fn lemma_total_reflection(self, ray: Ray, record: HitRecord, chance: Scalar)
        requires
            self.must_reflect(ray, record),
        ensures
            self.bounce(ray, record, chance) == Dielectric::mirrored(ray, record),
    {
    }

    /// Where light can pass, the ray is reflected only by chance: with a
    /// random number that is not less than the share of light that is
    /// reflected, it passes.
    pub proof fn lemma_no_reflection_without_chance(
        self,
        ray: Ray,
        record: HitRecord,
        chance: Scalar,
    )
        requires
            !self.must_reflect(ray, record),
            !chance.less(self.reflectance(ray, record)),
        ensures
            self.bounce(ray, record, chance) == self.passed(ray, record),
    {
    }
}

impl Material {
    /// Whether `scatter` can end with these values.
    pub open spec fn may_scatter(
        self,
        ray: Ray,
        record: HitRecord,
        scatters: bool,
        attenuation: Color,
        scattered: Ray,
    ) -> bool {
        match self {
            Material::Lambertian(m) => m.may_scatter(record, scatters, attenuation, scattered),
            Material::Metal(m) => m.may_scatter(ray, record, scatters, attenuation, scattered),
            Material::Dielectric(m) => m.may_scatter(ray, record, scatters, attenuation, scattered),
        }
    }

    /// Scatters a ray that has hit the surface. Writes what the surface takes
    /// away to `attenuation` and the scattered ray to `scattered`, and gives
    /// true if the ray goes on, false if it is swallowed.
    pub fn scatter(
        &self,
        ray: &Ray,
        record: &HitRecord,
        attenuation: &mut Color,
        scattered: &mut Ray,
        rng: &mut ThreadRng,
    ) -> (r: bool)
        ensures
            self.may_scatter(*ray, *record, r, *final(attenuation), *final(scattered)),
    {
        match self {
            Material::Lambertian(m) => m.scatter(ray, record, attenuation, scattered, rng),
            Material::Metal(m) => m.scatter(ray, record, attenuation, scattered, rng),
            Material::Dielectric(m) => m.scatter(ray, record, attenuation, scattered, rng),
        }
    }
}

} // verus!
