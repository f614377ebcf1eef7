//! Surface materials and what becomes of a ray that meets one.

use vstd::prelude::*;
use core::ops::{Add, Div, Mul, Neg, Sub};
use crate::arithmetic::{difference_of, product_of, quotient_of, root_of, sum_of};
use crate::hitable::HitRecord;
use crate::ray::Ray;
use crate::scalar::Scalar;
use crate::vec3::{dot, dot_of, length_of, make_unit_vector, unit_of, Vec3};

verus! {

/// How a surface answers light.
#[derive(Clone, Copy, Debug)]
pub enum Material {
    /// A matte surface with the given albedo.
    Lambertian(Vec3),
    /// A mirror with the given albedo, roughened by a fuzz radius.
    Metal(Vec3, Scalar),
    /// A clear medium with the given refractive index.
    Dielectric(Scalar),
}

/// A ray leaving a surface, and the colour by which its light is weakened.
#[derive(Clone, Copy, Debug)]
pub struct Scatter {
    pub attenuation: Vec3,
    pub scattered: Ray,
}

/// The number two.
pub open spec fn two() -> Scalar {
    Scalar { bits: 0x4000_0000 }
}

/// The mirror image of `v` at a surface with the normal `n`:
/// `v - 2 * dot(v, n) * n`.
pub open spec fn reflection_of(v: Vec3, n: Vec3) -> Vec3 {
    v.minus(n.scaled_from_left(product_of(two(), dot_of(v, n))))
}

/// The discriminant of the refraction of `v` at a ratio of refractive
/// indices: `1 - ratio^2 * (1 - dt^2)`, with `dt` the inner product of `v`
/// with itself scaled to length one.
pub open spec fn refraction_discriminant(v: Vec3, ni_over_nt: Scalar) -> Scalar {
    let dt = dot_of(unit_of(v), v);
    difference_of(
        Scalar::spec_one(),
        product_of(
            product_of(ni_over_nt, ni_over_nt),
            difference_of(Scalar::spec_one(), product_of(dt, dt)),
        ),
    )
}

/// The direction of `v` refracted at a surface with the normal `n`, where
/// there is one: under a discriminant that is not positive the ray is
/// reflected whole and nothing is refracted.
pub open spec fn refraction_of(v: Vec3, n: Vec3, ni_over_nt: Scalar) -> Option<Vec3> {
    let uv = unit_of(v);
    let dt = dot_of(uv, v);
    let discriminant = refraction_discriminant(v, ni_over_nt);
    if discriminant.spec_gt(Scalar::spec_zero()) {
        Some(
            uv.minus(n.scaled(dt)).scaled_from_left(ni_over_nt).minus(
                n.scaled(root_of(discriminant)),
            ),
        )
    } else {
        None
    }
}

/// The fifth power, by squaring twice.
pub open spec fn fifth_power_of(x: Scalar) -> Scalar {
    let x2 = product_of(x, x);
    product_of(x, product_of(x2, x2))
}

/// The reflectance of a clear medium at the given cosine, after Schlick:
/// `r0 + (1 - r0) * (1 - cosine)^5` with `r0` the square of
/// `(1 - index) / (1 + index)`.
pub open spec fn reflectance_of(cosine: Scalar, ref_idx: Scalar) -> Scalar {
    let r = quotient_of(
        difference_of(Scalar::spec_one(), ref_idx),
        sum_of(Scalar::spec_one(), ref_idx),
    );
    let r0 = product_of(r, r);
    sum_of(
        r0,
        product_of(
            difference_of(Scalar::spec_one(), r0),
            fifth_power_of(difference_of(Scalar::spec_one(), cosine)),
        ),
    )
}

/// The ray is leaving the medium: its direction goes along the normal,
/// their inner product being positive.
pub open spec fn is_exiting(r_in: Ray, rec: HitRecord) -> bool {
    dot_of(r_in.b, rec.normal).spec_gt(Scalar::spec_zero())
}

/// The refraction of a ray at the face of a clear medium of the given index.
/// For a ray that is leaving, the normal is turned round and the ratio is
/// the index; for one that enters, the normal stands and the ratio is the
/// index inverted.
pub open spec fn bent_of(r_in: Ray, rec: HitRecord, ref_idx: Scalar) -> Option<Vec3> {
    if is_exiting(r_in, rec) {
        refraction_of(r_in.b, rec.normal.negated(), ref_idx)
    } else {
        refraction_of(r_in.b, rec.normal, quotient_of(Scalar::spec_one(), ref_idx))
    }
}

/// The cosine that the reflectance is taken at.
pub open spec fn cosine_of(r_in: Ray, rec: HitRecord, ref_idx: Scalar) -> Scalar {
    let facing = dot_of(r_in.b, rec.normal);
    if is_exiting(r_in, rec) {
        quotient_of(product_of(ref_idx, facing), length_of(r_in.b))
    } else {
        quotient_of(facing.negated(), length_of(r_in.b))
    }
}

/// The chance that a ray at the face of a clear medium is reflected: the
/// reflectance where it can be refracted, and one where it cannot.
pub open spec fn reflect_probability_of(r_in: Ray, rec: HitRecord, ref_idx: Scalar) -> Scalar {
    if bent_of(r_in, rec, ref_idx) is Some {
        reflectance_of(cosine_of(r_in, rec, ref_idx), ref_idx)
    } else {
        Scalar::spec_one()
    }
}

/// What becomes of the ray `r_in` that met a surface at `rec`, given a point
/// `ball_point` of the unit ball and a sample `draw` of the unit interval.
///
/// A matte surface always scatters, towards the point one normal and one
/// ball point away from where it was met, and weakens by its albedo. A
/// mirror scatters along the mirror image of the ray's direction, put out by
/// the fuzz times the ball point, and weakens by its albedo, but swallows
/// the ray unless that direction leaves the surface, its inner product with
/// the normal being positive. A clear medium never swallows and never
/// weakens: where nothing can be refracted the ray is reflected, whatever
/// the sample; otherwise it is reflected where the sample is below the
/// chance of reflection, and refracted where it is not.
///
/// The ball point is read at a matte surface and at a mirror only, the
/// sample at a clear medium only.
#[verifier::opaque]
pub open spec fn scatter_of(r_in: Ray, rec: HitRecord, ball_point: Vec3, draw: Scalar) -> Option<
    Scatter,
> {
    match rec.mat {
        Material::Lambertian(albedo) => {
            let target = rec.p.plus(rec.normal).plus(ball_point);
            Some(Scatter { attenuation: albedo, scattered: Ray { a: rec.p, b: target.minus(rec.p) } })
        },
        Material::Metal(albedo, fuzz) => {
            let reflected = reflection_of(unit_of(r_in.b), rec.normal);
            let direction = reflected.plus(ball_point.scaled_from_left(fuzz));
            if dot_of(direction, rec.normal).spec_gt(Scalar::spec_zero()) {
                Some(Scatter { attenuation: albedo, scattered: Ray { a: rec.p, b: direction } })
            } else {
                None
            }
        },
        Material::Dielectric(ref_idx) => {
            let direction = match bent_of(r_in, rec, ref_idx) {
                None => reflection_of(r_in.b, rec.normal),
                Some(v) => if draw.spec_lt(reflect_probability_of(r_in, rec, ref_idx)) {
                    reflection_of(r_in.b, rec.normal)
                } else {
                    v
                },
            };
            Some(
                Scatter {
                    attenuation: Vec3::spec_ones(),
                    scattered: Ray { a: rec.p, b: direction },
                },
            )
        },
    }
}

/// The mirror image of `v` at a surface with the normal `n`.
pub fn reflect(v: Vec3, n: Vec3) -> (r: Vec3)
    ensures
        r == reflection_of(v, n),
{
    let twice = Scalar::from_bits(0x4000_0000).mul(dot(v, n));
    v.sub(twice.mul(n))
}

/// The direction of `v` refracted at a surface with the normal `n`, where
/// there is one.
pub fn refract(v: Vec3, n: Vec3, ni_over_nt: Scalar) -> (res: Option<Vec3>)
    ensures
        res == refraction_of(v, n, ni_over_nt),
{
    let uv = make_unit_vector(v);
    let dt = dot(uv, v);
    let one = Scalar::one();
    let discriminant = one.sub(ni_over_nt.mul(ni_over_nt).mul(one.sub(dt.mul(dt))));
    if discriminant.gt(Scalar::zero()) {
        Some(ni_over_nt.mul(uv.sub(n.mul(dt))).sub(n.mul(discriminant.sqrt())))
    } else {
        None
    }
}

/// The reflectance of a clear medium at the given cosine, after Schlick.
pub fn schlick(cosine: Scalar, ref_idx: Scalar) -> (r: Scalar)
    ensures
        r == reflectance_of(cosine, ref_idx),
{
    let one = Scalar::one();
    let mut r0 = one.sub(ref_idx).div(one.add(ref_idx));
    r0 = r0.mul(r0);
    let x = one.sub(cosine);
    let x2 = x.mul(x);
    let x5 = x.mul(x2.mul(x2));
    r0.add(one.sub(r0).mul(x5))
}

/// Scatters the ray `r_in` that met a surface at `rec`. The caller brings
/// what chance has to give: a point of the unit ball, read at a matte
/// surface and at a mirror, and a sample of the unit interval, read at a
/// clear medium.
///
/// A clear medium that cannot refract reflects, whatever the sample.
pub fn scatter(r_in: &Ray, rec: &HitRecord, ball_point: Vec3, draw: Scalar) -> (res: Option<
    Scatter,
>)
    ensures
        res == scatter_of(*r_in, *rec, ball_point, draw),
        rec.mat is Lambertian ==> res is Some,
        rec.mat is Dielectric ==> res is Some,
        (rec.mat matches Material::Dielectric(ref_idx) && bent_of(*r_in, *rec, ref_idx) is None)
            ==> res == Some(
            Scatter {
                attenuation: Vec3::spec_ones(),
                scattered: Ray { a: rec.p, b: reflection_of(r_in.b, rec.normal) },
            },
        ),
{
    proof {
        reveal(scatter_of);
    }
    match rec.mat {
        Material::Lambertian(albedo) => {
            let target = rec.p.add(rec.normal).add(ball_point);
            let scattered = Ray::new(rec.p, target.sub(rec.p));
            let attenuation = albedo;
            Some(Scatter { attenuation, scattered })
        },
        Material::Metal(albedo, fuzz) => {
            let reflected = reflect(make_unit_vector(r_in.direction()), rec.normal);
            let scattered = Ray::new(rec.p, reflected.add(fuzz.mul(ball_point)));
            let attenuation = albedo;
            if dot(scattered.direction(), rec.normal).gt(Scalar::zero()) {
                Some(Scatter { attenuation, scattered })
            } else {
                None
            }
        },
        Material::Dielectric(ref_idx) => {
            let outward_normal: Vec3;
            let ni_over_nt: Scalar;
            let cosine: Scalar;
            let reflected = reflect(r_in.direction(), rec.normal);
            let attenuation = Vec3::ones();
            let facing = dot(r_in.direction(), rec.normal);
            if facing.gt(Scalar::zero()) {
                outward_normal = rec.normal.neg();
                ni_over_nt = ref_idx;
                cosine = ref_idx.mul(facing).div(r_in.direction().length());
            } else {
                outward_normal = rec.normal;
                ni_over_nt = Scalar::one().div(ref_idx);
                cosine = facing.neg().div(r_in.direction().length());
            }
            let scattered = match refract(r_in.direction(), outward_normal, ni_over_nt) {
                Some(refracted) => {
                    let reflect_prob = schlick(cosine, ref_idx);
                    if draw.lt(reflect_prob) {
                        Ray::new(rec.p, reflected)
                    } else {
                        Ray::new(rec.p, refracted)
                    }
                },
                // total reflection: the chance of reflection is one
                None => Ray::new(rec.p, reflected),
            };
            Some(Scatter { scattered, attenuation })
        },
    }
}

/// A clear medium that cannot refract always reflects: where the
/// discriminant of the refraction is not positive, the chance of reflection
/// is one, and the ray goes along the reflection whatever the sample.
pub proof fn lemma_total_internal_reflection(
    r_in: Ray,
    rec: HitRecord,
    ball_point: Vec3,
    draw: Scalar,
)
    requires
        rec.mat is Dielectric,
        bent_of(r_in, rec, rec.mat->Dielectric_0) is None,
    ensures
        reflect_probability_of(r_in, rec, rec.mat->Dielectric_0) == Scalar::spec_one(),
        scatter_of(r_in, rec, ball_point, draw) == Some(
            Scatter {
                attenuation: Vec3::spec_ones(),
                scattered: Ray { a: rec.p, b: reflection_of(r_in.b, rec.normal) },
            },
        ),
{
    reveal(scatter_of);
}

/// Nothing is refracted exactly where the discriminant of the refraction is
/// zero, negative or a NaN.
pub proof fn lemma_refraction_needs_discriminant(v: Vec3, n: Vec3, ni_over_nt: Scalar)
    ensures
        refraction_of(v, n, ni_over_nt) is None <==> !refraction_discriminant(
            v,
            ni_over_nt,
        ).spec_gt(Scalar::spec_zero()),
{
}

} // verus!
