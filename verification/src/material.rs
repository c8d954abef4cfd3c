//! The closed set of scattering behaviors: diffuse, fuzzy-reflective, and
//! refractive.
//!
//! A material takes an incoming ray and a confirmed hit and produces an
//! attenuation color and an outgoing ray. The randomness of scattering is
//! drawn through the library's one random source, so each contract states
//! what holds of every outcome: the attenuation, the scattered ray's origin
//! and time, and the shape of its direction.

use crate::color::Color;
use crate::hit_record::HitRecord;
use crate::ray::Ray;
use crate::rng::random_raw;
use crate::scalar::{isqrt_spec, lemma_isqrt, lemma_isqrt_unique, lemma_tdiv_mul_cancel, sdiv,
    smul, tdiv, Scalar, SCALE};
use crate::vec3::{add3, bounded3, dot3, lemma_dot3_bounded, lemma_ls3_nonneg,
    lemma_ls3_zero_bounded, lemma_sdiv_bounded, lemma_smul_bounded, ls3, norm3,
    possible_unit_sample, reflect3, refract3, smul3, Vec3};
use vstd::prelude::*;

verus! {

/// The largest raw component magnitude a ray direction may carry into the
/// scattering and intersection arithmetic.
pub const DIR_BOUND: i64 = 0x2_0000_0000;

/// What a material hands back: the color factor and the outgoing ray.
pub struct Scatter {
    pub attenuation: Color,
    pub scattered: Ray,
}

#[derive(Clone, Copy, PartialEq, Eq, Structural, Debug)]
pub enum Material {
    Lambertian(Color),
    Metal(Color, Scalar),
    Dielectric(Scalar),
}

/// A color whose components lie in the unit range.
pub open spec fn color_in_unit(c: (int, int, int)) -> bool {
    &&& 0 <= c.0 <= SCALE
    &&& 0 <= c.1 <= SCALE
    &&& 0 <= c.2 <= SCALE
}

/// A well-formed material: albedos are unit colors, fuzz lies in the unit
/// range, and a refraction index is positive and within a factor four of
/// one.
pub open spec fn material_wf(m: Material) -> bool {
    match m {
        Material::Lambertian(albedo) => color_in_unit(albedo@),
        Material::Metal(albedo, fuzz) => color_in_unit(albedo@) && 0 <= fuzz@ <= SCALE,
        Material::Dielectric(index) => SCALE as int / 4 <= index@ <= 4 * SCALE,
    }
}

/// The attenuation a material applies: its albedo, or white for a
/// dielectric.
pub open spec fn attenuation_of(m: Material) -> (int, int, int) {
    match m {
        Material::Lambertian(albedo) => albedo@,
        Material::Metal(albedo, _) => albedo@,
        Material::Dielectric(_) => (SCALE as int, SCALE as int, SCALE as int),
    }
}

/// A ray direction the scattering arithmetic accepts: bounded and not
/// vanishing at the working precision.
pub open spec fn dir_ok(d: (int, int, int)) -> bool {
    bounded3(d, DIR_BOUND as int) && 1 <= ls3(d)
}

/// The base direction of a metal reflection: the mirrored direction,
/// normalized where its length does not vanish.
pub open spec fn metal_base(d: (int, int, int), n: (int, int, int)) -> (int, int, int) {
    let refl = reflect3(d, n);
    if 1 <= ls3(refl) {
        norm3(refl)
    } else {
        refl
    }
}

/// The relative refraction ratio at a dielectric boundary.
pub open spec fn dielectric_ri(front_face: bool, index: int) -> int {
    if front_face {
        sdiv(SCALE as int, index)
    } else {
        index
    }
}

/// The cosine of the incidence angle, capped at one.
pub open spec fn dielectric_cos(unit: (int, int, int), n: (int, int, int)) -> int {
    if -dot3(unit, n) <= SCALE {
        -dot3(unit, n)
    } else {
        SCALE as int
    }
}

/// The sine of the incidence angle, from the cosine; the radicand is
/// floored at zero where rounding pushes it below.
pub open spec fn dielectric_sin(cos: int) -> int {
    let k = SCALE - smul(cos, cos);
    isqrt_spec((if k >= 0 {
        k
    } else {
        0
    }) * SCALE)
}

/// Total internal reflection: the scaled sine leaves the unit range.
pub open spec fn cannot_refract_spec(ri: int, sin: int) -> bool {
    smul(ri, sin) > SCALE
}

/// The Schlick reflectance approximation, mirrored step for step at the
/// working precision.
pub open spec fn reflectance_spec(cos: int, ri: int) -> int {
    let q = sdiv(SCALE - ri, SCALE + ri);
    let r0 = smul(q, q);
    let x = SCALE - cos;
    let x2 = smul(x, x);
    let x4 = smul(x2, x2);
    let x5 = smul(x4, x);
    r0 + smul(SCALE - r0, x5)
}

/// The direction clause a scattered ray satisfies, by material.
pub open spec fn scatter_dir_ok(
    m: Material,
    ray_dir: (int, int, int),
    front_face: bool,
    n: (int, int, int),
    out_dir: (int, int, int),
) -> bool {
    match m {
        Material::Lambertian(_) => exists|u: (int, int, int)|
            #[trigger] possible_unit_sample(u) && bounded3(u, 2 * SCALE) && out_dir == (if add3(
                n,
                u,
            ) == (0int, 0int, 0int) {
                n
            } else {
                add3(n, u)
            }),
        Material::Metal(_, fuzz) => exists|u: (int, int, int)|
            #[trigger] possible_unit_sample(u) && bounded3(u, 2 * SCALE) && out_dir == add3(
                metal_base(ray_dir, n),
                smul3(u, fuzz@),
            ),
        Material::Dielectric(index) => {
            let unit = norm3(ray_dir);
            let ri = dielectric_ri(front_face, index@);
            let cos = dielectric_cos(unit, n);
            &&& (cannot_refract_spec(ri, dielectric_sin(cos)) ==> out_dir == reflect3(unit, n))
            &&& (out_dir == reflect3(unit, n) || out_dir == refract3(unit, n, ri))
        },
    }
}

/// Attenuating one unit color by another stays a unit color: no bounce
/// amplifies light.
pub proof fn lemma_mul3_in_unit(a: (int, int, int), b: (int, int, int))
    requires
        color_in_unit(a),
        color_in_unit(b),
    ensures
        crate::vec3::fits3(crate::vec3::mul3(a, b)),
        color_in_unit(crate::vec3::mul3(a, b)),
{
    let s = SCALE as int;
    assert(0 <= a.0 * b.0 <= s * s && 0 <= a.1 * b.1 <= s * s && 0 <= a.2 * b.2 <= s * s && s * s
        == s * s) by (nonlinear_arith)
        requires
            color_in_unit(a),
            color_in_unit(b),
            s == SCALE as int,
    ;
    lemma_tdiv_mul_cancel(s, s);
    crate::vec3::lemma_tdiv_mono(a.0 * b.0, s * s, s);
    crate::vec3::lemma_tdiv_mono(a.1 * b.1, s * s, s);
    crate::vec3::lemma_tdiv_mono(a.2 * b.2, s * s, s);
    crate::vec3::lemma_tdiv_bound(a.0 * b.0, s * s, s);
    crate::vec3::lemma_tdiv_bound(a.1 * b.1, s * s, s);
    crate::vec3::lemma_tdiv_bound(a.2 * b.2, s * s, s);
}

/// Energy conservation at a bounce: light carried back through an
/// attenuation never exceeds the attenuation itself in any component, so
/// a diffuse or metal bounce never amplifies beyond its albedo.
pub proof fn lemma_attenuation_conserves(att: (int, int, int), c: (int, int, int))
    requires
        color_in_unit(att),
        color_in_unit(c),
    ensures
        0 <= crate::vec3::mul3(att, c).0 <= att.0,
        0 <= crate::vec3::mul3(att, c).1 <= att.1,
        0 <= crate::vec3::mul3(att, c).2 <= att.2,
{
    let s = SCALE as int;
    assert(0 <= att.0 * c.0 <= att.0 * s && 0 <= att.1 * c.1 <= att.1 * s && 0 <= att.2 * c.2
        <= att.2 * s) by (nonlinear_arith)
        requires
            color_in_unit(att),
            color_in_unit(c),
            s == SCALE as int,
    ;
    lemma_tdiv_mul_cancel(att.0, s);
    lemma_tdiv_mul_cancel(att.1, s);
    lemma_tdiv_mul_cancel(att.2, s);
    crate::vec3::lemma_tdiv_mono(att.0 * c.0, att.0 * s, s);
    crate::vec3::lemma_tdiv_mono(att.1 * c.1, att.1 * s, s);
    crate::vec3::lemma_tdiv_mono(att.2 * c.2, att.2 * s, s);
    crate::vec3::lemma_tdiv_bound(att.0 * c.0, att.0 * s, s);
    crate::vec3::lemma_tdiv_bound(att.1 * c.1, att.1 * s, s);
    crate::vec3::lemma_tdiv_bound(att.2 * c.2, att.2 * s, s);
}

impl Material {
    /// Scatters the incoming ray at the hit. Every material of this closed
    /// set scatters; none absorbs. The scattered ray starts at the hit
    /// point, keeps the incoming ray's time, and its direction stays within
    /// the bound the intersection arithmetic accepts.
    pub fn scatter(self, ray: &Ray, hr: &HitRecord) -> (r: Option<Scatter>)
        requires
            material_wf(self),
            hr.wf(),
            dir_ok(ray.direction@),
        ensures
            r is Some,
            ({
                let sc = r->Some_0;
                &&& sc.scattered.origin == hr.p
                &&& sc.scattered.time == ray.time
                &&& sc.attenuation@ == attenuation_of(self)
                &&& bounded3(sc.scattered.direction@, 0x1_0000_0000)
                &&& scatter_dir_ok(
                    self,
                    ray.direction@,
                    hr.front_face,
                    hr.normal@,
                    sc.scattered.direction@,
                )
            }),
    {
        match self {
            Material::Lambertian(albedo) => scatter_lambertian(albedo, ray, hr),
            Material::Metal(albedo, fuzz) => scatter_metal(albedo, fuzz, ray, hr),
            Material::Dielectric(index) => scatter_dielectric(index, ray, hr),
        }
    }
}

/// Diffuse scattering: the normal plus a random near-unit vector, falling
/// back to the normal where the sum vanishes.
fn scatter_lambertian(attenuation: Color, ray: &Ray, hr: &HitRecord) -> (r: Option<Scatter>)
    requires
        hr.wf(),
    ensures
        r is Some,
        ({
            let sc = r->Some_0;
            &&& sc.scattered.origin == hr.p
            &&& sc.scattered.time == ray.time
            &&& sc.attenuation == attenuation
            &&& bounded3(sc.scattered.direction@, 4 * SCALE)
            &&& scatter_dir_ok(
                Material::Lambertian(attenuation),
                ray.direction@,
                hr.front_face,
                hr.normal@,
                sc.scattered.direction@,
            )
        }),
{
    let u = Vec3::random_normalized();
    let sum = hr.normal.add(u);
    let scatter_direction = if sum.is_near_zero() {
        hr.normal
    } else {
        sum
    };
    proof {
        assert(possible_unit_sample(u@) && bounded3(u@, 2 * SCALE) && scatter_direction@ == (if
        add3(hr.normal@, u@) == (0int, 0int, 0int) {
            hr.normal@
        } else {
            add3(hr.normal@, u@)
        }));
    }
    let scattered = Ray::new(hr.p, scatter_direction, ray.time);
    Some(Scatter { attenuation, scattered })
}

/// Fuzzy mirror scattering: the reflected direction, normalized where it
/// does not vanish, perturbed by a random near-unit vector scaled by the
/// fuzz. A perturbation pointing into the surface is kept, as the design
/// accepts.
fn scatter_metal(attenuation: Color, fuzz: Scalar, ray: &Ray, hr: &HitRecord) -> (r: Option<
    Scatter,
>)
    requires
        hr.wf(),
        0 <= fuzz@ <= SCALE,
        dir_ok(ray.direction@),
    ensures
        r is Some,
        ({
            let sc = r->Some_0;
            &&& sc.scattered.origin == hr.p
            &&& sc.scattered.time == ray.time
            &&& sc.attenuation == attenuation
            &&& bounded3(sc.scattered.direction@, 4 * SCALE)
            &&& scatter_dir_ok(
                Material::Metal(attenuation, fuzz),
                ray.direction@,
                hr.front_face,
                hr.normal@,
                sc.scattered.direction@,
            )
        }),
{
    let d = ray.direction;
    let n = hr.normal;
    proof {
        assert(3 * (DIR_BOUND as int) * (2 * SCALE) <= 0x7fff_ffff_ffff_ffffint * 0x1_0000 && 3 * (
        DIR_BOUND as int) * (2 * SCALE) == (6 * DIR_BOUND as int) * (SCALE as int)) by (
        nonlinear_arith);
        lemma_tdiv_mul_cancel(6 * DIR_BOUND as int, SCALE as int);
        lemma_dot3_bounded(d@, n@, DIR_BOUND as int, 2 * SCALE);
        assert((2 * SCALE) * (12 * DIR_BOUND as int) == (24 * DIR_BOUND as int) * (SCALE as int))
            by (nonlinear_arith);
        lemma_tdiv_mul_cancel(24 * DIR_BOUND as int, SCALE as int);
        lemma_smul_bounded(n@.0, 2 * dot3(d@, n@), 2 * SCALE, 12 * DIR_BOUND as int);
        lemma_smul_bounded(n@.1, 2 * dot3(d@, n@), 2 * SCALE, 12 * DIR_BOUND as int);
        lemma_smul_bounded(n@.2, 2 * dot3(d@, n@), 2 * SCALE, 12 * DIR_BOUND as int);
    }
    let refl = d.reflect(n);
    proof {
        assert(3 * (25 * DIR_BOUND as int) * (25 * DIR_BOUND as int) <= 0x7fff_ffff_ffff_ffffint
            * 0x1_0000) by (nonlinear_arith);
        lemma_dot3_bounded(refl@, refl@, 25 * DIR_BOUND as int, 25 * DIR_BOUND as int);
        lemma_ls3_nonneg(refl@);
    }
    let lsq = refl.length_squared();
    let base = if lsq.raw >= 1 {
        refl.normalize()
    } else {
        proof {
            lemma_ls3_zero_bounded(refl@);
        }
        refl
    };
    let u = Vec3::random_normalized();
    proof {
        lemma_tdiv_mul_cancel(2 * SCALE, SCALE as int);
        lemma_smul_bounded(u@.0, fuzz@, 2 * SCALE, SCALE as int);
        lemma_smul_bounded(u@.1, fuzz@, 2 * SCALE, SCALE as int);
        lemma_smul_bounded(u@.2, fuzz@, 2 * SCALE, SCALE as int);
    }
    let fz = u.mul(fuzz);
    let dir = base.add(fz);
    proof {
        assert(possible_unit_sample(u@) && bounded3(u@, 2 * SCALE) && dir@ == add3(
            metal_base(d@, n@),
            smul3(u@, fuzz@),
        ));
    }
    let scattered = Ray::new(hr.p, dir, ray.time);
    Some(Scatter { attenuation, scattered })
}

/// The Schlick reflectance approximation.
pub fn reflectance(cos: Scalar, ri: Scalar) -> (r: Scalar)
    requires
        -(12 * SCALE) <= cos@ <= SCALE,
        SCALE as int / 4 <= ri@ <= 4 * SCALE,
    ensures
        r@ == reflectance_spec(cos@, ri@),
{
    let num = Scalar { raw: SCALE - ri.raw };
    let den = Scalar { raw: SCALE + ri.raw };
    proof {
        lemma_sdiv_bounded(num@, den@, den@, den@);
        assert(tdiv(den@ * SCALE, den@) == SCALE as int) by {
            assert(den@ * SCALE == (SCALE as int) * den@) by (nonlinear_arith);
            lemma_tdiv_mul_cancel(SCALE as int, den@);
        }
    }
    let q = num.div(den);
    proof {
        lemma_tdiv_mul_cancel(SCALE as int, SCALE as int);
        lemma_smul_bounded(q@, q@, SCALE as int, SCALE as int);
        assert(0 <= q@ * q@) by (nonlinear_arith);
        crate::vec3::lemma_tdiv_bound(q@ * q@, (SCALE as int) * (SCALE as int), SCALE as int);
    }
    let r0 = q.mul(q);
    let x = Scalar { raw: SCALE - cos.raw };
    proof {
        assert((13 * SCALE) * (13 * SCALE) == (169 * SCALE) * (SCALE as int)) by (nonlinear_arith);
        lemma_tdiv_mul_cancel(169 * SCALE, SCALE as int);
        lemma_smul_bounded(x@, x@, 13 * SCALE, 13 * SCALE);
    }
    let x2 = x.mul(x);
    proof {
        assert((169 * SCALE) * (169 * SCALE) == (28561 * SCALE) * (SCALE as int)) by (
        nonlinear_arith);
        lemma_tdiv_mul_cancel(28561 * SCALE, SCALE as int);
        lemma_smul_bounded(x2@, x2@, 169 * SCALE, 169 * SCALE);
    }
    let x4 = x2.mul(x2);
    proof {
        assert((28561 * SCALE) * (13 * SCALE) == (371293 * SCALE) * (SCALE as int)) by (
        nonlinear_arith);
        lemma_tdiv_mul_cancel(371293 * SCALE, SCALE as int);
        lemma_smul_bounded(x4@, x@, 28561 * SCALE, 13 * SCALE);
    }
    let x5 = x4.mul(x);
    let one_m_r0 = Scalar { raw: SCALE - r0.raw };
    proof {
        assert((SCALE as int) * (371293 * SCALE) == (371293 * SCALE) * (SCALE as int)) by (
        nonlinear_arith);
        lemma_smul_bounded(one_m_r0@, x5@, SCALE as int, 371293 * SCALE);
    }
    let term = one_m_r0.mul(x5);
    Scalar { raw: r0.raw + term.raw }
}

/// Refractive scattering: white attenuation; reflect on total internal
/// reflection or with the Schlick probability, refract otherwise.
fn scatter_dielectric(index: Scalar, ray: &Ray, hr: &HitRecord) -> (r: Option<Scatter>)
    requires
        hr.wf(),
        SCALE as int / 4 <= index@ <= 4 * SCALE,
        dir_ok(ray.direction@),
    ensures
        r is Some,
        ({
            let sc = r->Some_0;
            &&& sc.scattered.origin == hr.p
            &&& sc.scattered.time == ray.time
            &&& sc.attenuation@ == (SCALE as int, SCALE as int, SCALE as int)
            &&& bounded3(sc.scattered.direction@, 0x1_0000_0000)
            &&& scatter_dir_ok(
                Material::Dielectric(index),
                ray.direction@,
                hr.front_face,
                hr.normal@,
                sc.scattered.direction@,
            )
        }),
{
    let attenuation = Color::white();
    let ri = if hr.front_face {
        proof {
            lemma_sdiv_bounded(SCALE as int, index@, SCALE as int, SCALE as int / 4);
            assert((SCALE as int) * SCALE == (4 * SCALE) * (SCALE as int / 4)) by (
            nonlinear_arith);
            lemma_tdiv_mul_cancel(4 * SCALE, SCALE as int / 4);
            assert(tdiv((SCALE as int) * SCALE, index@) >= SCALE as int / 4) by {
                assert((SCALE as int) * SCALE >= 0) by (nonlinear_arith);
                vstd::arithmetic::div_mod::lemma_div_is_ordered_by_denominator(
                    (SCALE as int) * SCALE,
                    index@,
                    4 * SCALE,
                );
                assert((SCALE as int) * SCALE == (SCALE as int / 4) * (4 * SCALE)) by (
                nonlinear_arith);
                lemma_tdiv_mul_cancel(SCALE as int / 4, 4 * SCALE);
            }
        }
        Scalar { raw: SCALE }.div(index)
    } else {
        index
    };
    proof {
        assert(3 * (DIR_BOUND as int) * (DIR_BOUND as int) <= 0x7fff_ffff_ffff_ffffint * 0x1_0000)
            by (nonlinear_arith);
        lemma_dot3_bounded(ray.direction@, ray.direction@, DIR_BOUND as int, DIR_BOUND as int);
    }
    let unit_direction = ray.direction.normalize();
    let n = hr.normal;
    proof {
        assert(3 * (2 * SCALE) * (2 * SCALE) <= 0x7fff_ffff_ffff_ffffint * 0x1_0000 && 3 * (2
            * SCALE) * (2 * SCALE) == (12 * SCALE) * (SCALE as int)) by (nonlinear_arith);
        lemma_tdiv_mul_cancel(12 * SCALE, SCALE as int);
        lemma_dot3_bounded(unit_direction@, n@, 2 * SCALE, 2 * SCALE);
    }
    let d = unit_direction.dot(n);
    let cos = Scalar { raw: -d.raw }.min_with(Scalar { raw: SCALE });
    proof {
        assert((12 * SCALE) * (12 * SCALE) == (144 * SCALE) * (SCALE as int)) by (nonlinear_arith);
        lemma_tdiv_mul_cancel(144 * SCALE, SCALE as int);
        lemma_smul_bounded(cos@, cos@, 12 * SCALE, 12 * SCALE);
        assert(0 <= cos@ * cos@) by (nonlinear_arith);
        crate::vec3::lemma_tdiv_bound(cos@ * cos@, (144 * SCALE) * (SCALE as int), SCALE as int);
    }
    let coscos = cos.mul(cos);
    let k = Scalar { raw: SCALE - coscos.raw };
    let sin2 = if k.raw >= 0 {
        k
    } else {
        Scalar { raw: 0 }
    };
    let sin = sin2.sqrt();
    proof {
        lemma_isqrt(sin2@ * SCALE);
        assert(65536 * 65536 < (65536 + 1) * (65536 + 1)) by (nonlinear_arith);
        lemma_isqrt_unique(65536int * 65536, 65536int);
        crate::scalar::lemma_isqrt_mono(sin2@ * SCALE, 65536int * 65536);
        assert(sin2@ * SCALE <= 65536 * 65536) by (nonlinear_arith)
            requires
                0 <= sin2@ <= SCALE as int,
                SCALE as int == 65536,
        ;
        assert(sin@ <= SCALE as int);
        lemma_tdiv_mul_cancel(4 * SCALE, SCALE as int);
        lemma_smul_bounded(ri@, sin@, 4 * SCALE, SCALE as int);
    }
    let rs = ri.mul(sin);
    let cannot_refract = rs.raw > SCALE;
    let refl_prob = reflectance(cos, ri);
    let draw = Scalar { raw: random_raw(0, SCALE) };
    let dir = if cannot_refract || refl_prob.raw > draw.raw {
        proof {
            assert((2 * SCALE) * (24 * SCALE) == (48 * SCALE) * (SCALE as int)) by (
            nonlinear_arith);
            lemma_tdiv_mul_cancel(48 * SCALE, SCALE as int);
            lemma_smul_bounded(n@.0, 2 * dot3(unit_direction@, n@), 2 * SCALE, 24 * SCALE);
            lemma_smul_bounded(n@.1, 2 * dot3(unit_direction@, n@), 2 * SCALE, 24 * SCALE);
            lemma_smul_bounded(n@.2, 2 * dot3(unit_direction@, n@), 2 * SCALE, 24 * SCALE);
        }
        unit_direction.reflect(n)
    } else {
        unit_direction.refract(n, ri)
    };
    let scattered = Ray::new(hr.p, dir, ray.time);
    Some(Scatter { attenuation, scattered })
}

} // verus!
