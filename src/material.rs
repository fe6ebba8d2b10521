//! Materials: how a surface scatters the light that reaches it.
use crate::color::Color;
use crate::fixed::{floor_sqrt, fmul, isqrt, ONE};
use crate::hittable::HitRecord;
use crate::ray::{Ray, DIR_LIMIT};
use crate::vec3::{
    bounded, dot_fixed, dot_raw, fixed_mul, lemma_div_abs_bound, lemma_dot_bound,
    lemma_mul_abs_bound, lemma_scaled_bound, lemma_unit_bounded, reflect, reflection_of, refract,
    refraction_cos, refraction_of, scaled_by, sum_of, unit_of, Vec3,
};
use vstd::prelude::*;

verus! {

/// Indices of refraction lie in `[IR_MIN, IR_MAX]` (1/64 to 64).
pub const IR_MIN: i64 = 1024;

pub const IR_MAX: i64 = 4194304;

/// Fuzz lies in `[0, FUZZ_MAX]` (up to 64).
pub const FUZZ_MAX: i64 = 4194304;

/// A color whose channels lie in `[0, ONE]`.
pub open spec fn is_reflectance(c: Color) -> bool {
    0 <= c.x <= ONE && 0 <= c.y <= ONE && 0 <= c.z <= ONE
}

fn color_in_unit(c: &Color) -> (r: bool)
    ensures
        r == is_reflectance(*c),
{
    0 <= c.x && c.x <= ONE && 0 <= c.y && c.y <= ONE && 0 <= c.z && c.z <= ONE
}

/// A diffuse surface.
#[derive(Clone, Copy, Debug, PartialEq, Eq, Structural)]
pub struct Lambertian {
    pub albedo: Color,
}

/// A specular surface; `fuzz` (0 to `FUZZ_MAX`) blurs the reflection.
#[derive(Clone, Copy, Debug, PartialEq, Eq, Structural)]
pub struct Metal {
    pub albedo: Color,
    pub fuzz: i64,
}

/// A clear refracting medium with index of refraction `ir`.
#[derive(Clone, Copy, Debug, PartialEq, Eq, Structural)]
pub struct Dielectric {
    pub ir: i64,
}

/// The material attached to a primitive. Materials are small plain values, so
/// every primitive that shares one holds its own copy.
#[derive(Clone, Copy, Debug, PartialEq, Eq, Structural)]
pub enum Material {
    Lambertian(Lambertian),
    Metal(Metal),
    Dielectric(Dielectric),
}

/// The outcome of a scattering that always happens: attenuation and the
/// scattered ray leaving `p` in direction `dir`, scaled to unit length.
pub open spec fn scattered(attenuation: Color, p: Vec3, dir: Vec3) -> Option<(Color, Ray)> {
    Some((attenuation, Ray { orig: p, dir: unit_of(dir) }))
}

impl Lambertian {
    /// Direction `normal + unit`, or `normal` where that sum is zero.
    pub open spec fn scatter_spec(self, rec: HitRecord, unit: Vec3) -> Option<(Color, Ray)> {
        let d = sum_of(rec.normal, unit);
        let d = if d.x == 0 && d.y == 0 && d.z == 0 {
            rec.normal
        } else {
            d
        };
        scattered(self.albedo, rec.p, d)
    }

    /// Scatters around the surface normal, perturbed by the random unit vector `unit`.
    pub fn scatter(&self, r: &Ray, rec: &HitRecord, unit: Vec3) -> (res: Option<(Color, Ray)>)
        requires
            rec.wf(),
            bounded(unit, ONE as int),
        ensures
            res == self.scatter_spec(*rec, unit),
            match res {
                Some((_, s)) => s.wf(),
                None => false,
            },
            match res {
                Some((_, s)) => rec.normal != (Vec3 { x: 0, y: 0, z: 0 }) ==> ONE * ONE - 7 * ONE < dot_raw(
                    s.dir,
                    s.dir,
                ) < ONE * ONE + 10 * ONE,
                None => true,
            },
    {
        let mut scatter_direction = rec.normal.plus(&unit);
        if scatter_direction.near_zero() {
            scatter_direction = rec.normal;
        }
        Some((self.albedo, Ray::new(rec.p, scatter_direction.normalize())))
    }
}

impl Metal {
    /// The incoming direction mirrored about the normal, plus `fuzz * unit`.
    pub open spec fn scatter_spec(self, r: Ray, rec: HitRecord, unit: Vec3) -> Option<(Color, Ray)> {
        let reflected = reflection_of(unit_of(r.dir), rec.normal);
        scattered(self.albedo, rec.p, sum_of(reflected, scaled_by(self.fuzz as int, unit)))
    }

    /// Reflects `r` about the surface normal, perturbed by `fuzz` times the
    /// random unit vector `unit`.
    pub fn scatter(&self, r: &Ray, rec: &HitRecord, unit: Vec3) -> (res: Option<(Color, Ray)>)
        requires
            0 <= self.fuzz <= FUZZ_MAX,
            r.wf(),
            rec.wf(),
            bounded(unit, ONE as int),
        ensures
            res == self.scatter_spec(*r, *rec, unit),
            match res {
                Some((_, s)) => s.wf(),
                None => false,
            },
    {
        proof {
            lemma_unit_bounded(r.dir);
        }
        let reflected = reflect(r.dir.normalize(), rec.normal);
        proof {
            lemma_mul_abs_bound(self.fuzz as int, unit.x as int, FUZZ_MAX as int, ONE as int);
            lemma_mul_abs_bound(self.fuzz as int, unit.y as int, FUZZ_MAX as int, ONE as int);
            lemma_mul_abs_bound(self.fuzz as int, unit.z as int, FUZZ_MAX as int, ONE as int);
            lemma_scaled_bound(self.fuzz as int, unit, FUZZ_MAX as int, ONE as int, FUZZ_MAX as int);
        }
        let direction = reflected.plus(&unit.scaled(self.fuzz));
        Some((self.albedo, Ray::new(rec.p, direction.normalize())))
    }
}

/// `max(0, ONE^2 - c^2)`: the squared sine for cosine `c`, in units of `1 / ONE^2`.
pub open spec fn sin_squared(c: int) -> int {
    if ONE * ONE - c * c < 0 {
        0
    } else {
        ONE * ONE - c * c
    }
}

impl Dielectric {
    /// The quotient of refractive indices: `1 / ir` entering, `ir` leaving.
    pub open spec fn ratio_spec(self, front_face: bool) -> int {
        if front_face {
            (ONE * ONE) / (self.ir as int)
        } else {
            self.ir as int
        }
    }

    /// Total internal reflection where `ratio * sin > 1`, refraction otherwise.
    pub open spec fn scatter_spec(self, r: Ray, rec: HitRecord) -> Option<(Color, Ray)> {
        let ratio = self.ratio_spec(rec.front_face);
        let unit_dir = unit_of(r.dir);
        let sin = floor_sqrt(sin_squared(refraction_cos(unit_dir, rec.normal)));
        let direction = if fmul(ratio, sin) > ONE {
            reflection_of(unit_dir, rec.normal)
        } else {
            refraction_of(unit_dir, rec.normal, ratio)
        };
        scattered(Vec3 { x: ONE, y: ONE, z: ONE }, rec.p, direction)
    }

    /// Refracts `r` through the surface, or reflects it where refraction is
    /// impossible. Absorbs nothing.
    pub fn scatter(&self, r: &Ray, rec: &HitRecord) -> (res: Option<(Color, Ray)>)
        requires
            IR_MIN <= self.ir <= IR_MAX,
            r.wf(),
            rec.wf(),
        ensures
            res == self.scatter_spec(*r, *rec),
            match res {
                Some((_, s)) => s.wf(),
                None => false,
            },
    {
        let attenuation = Vec3 { x: ONE, y: ONE, z: ONE };
        let mut ratio: i64 = self.ir;
        if rec.front_face {
            proof {
                lemma_div_abs_bound(ONE * ONE, 64 * ONE, self.ir as int);
                assert(ONE * ONE <= 64 * ONE * self.ir) by (nonlinear_arith)
                    requires
                        IR_MIN <= self.ir,
                ;
                assert((ONE * ONE) / (self.ir as int) > 0) by (nonlinear_arith)
                    requires
                        self.ir <= IR_MAX,
                        self.ir > 0,
                ;
            }
            ratio = (ONE * ONE) / self.ir;
        }
        proof {
            lemma_unit_bounded(r.dir);
        }
        let unit_dir = r.dir.normalize();
        let neg = unit_dir.negated();
        proof {
            lemma_dot_bound(neg, rec.normal, ONE as int, ONE as int);
            lemma_div_abs_bound(dot_raw(neg, rec.normal), 3 * ONE, ONE as int);
        }
        let c = crate::vec3::dot(&neg, &rec.normal);
        let cos: i64 = if c < ONE { c } else { ONE };
        proof {
            lemma_mul_abs_bound(cos as int, cos as int, 3 * ONE, 3 * ONE);
            assert(cos * cos >= 0) by (nonlinear_arith);
        }
        let s2: i128 = ONE as i128 * ONE as i128 - cos as i128 * cos as i128;
        let sin = isqrt(if s2 < 0 { 0 } else { s2 });
        proof {
            if sin > ONE {
                assert(sin * sin > ONE * ONE) by (nonlinear_arith)
                    requires
                        sin > ONE,
                ;
            }
            lemma_mul_abs_bound(ratio as int, sin as int, 64 * ONE, ONE as int);
        }
        let cannot_refract = fixed_mul(ratio, sin as i64) > ONE;
        let direction = if cannot_refract {
            reflect(unit_dir, rec.normal)
        } else {
            refract(unit_dir, rec.normal, ratio)
        };
        Some((attenuation, Ray::new(rec.p, direction.normalize())))
    }
}

impl Material {
    pub open spec fn wf(self) -> bool {
        match self {
            Material::Lambertian(l) => is_reflectance(l.albedo),
            Material::Metal(m) => is_reflectance(m.albedo) && 0 <= m.fuzz <= FUZZ_MAX,
            Material::Dielectric(d) => IR_MIN <= d.ir <= IR_MAX,
        }
    }

    /// Checks `wf`: albedos in `[0, ONE]`, fuzz in `[0, FUZZ_MAX]`, index of
    /// refraction in `[IR_MIN, IR_MAX]`.
    pub fn is_valid(&self) -> (r: bool)
        ensures
            r == self.wf(),
    {
        match self {
            Material::Lambertian(l) => color_in_unit(&l.albedo),
            Material::Metal(m) => color_in_unit(&m.albedo) && 0 <= m.fuzz && m.fuzz <= FUZZ_MAX,
            Material::Dielectric(d) => IR_MIN <= d.ir && d.ir <= IR_MAX,
        }
    }

    pub open spec fn scatter_spec(self, r: Ray, rec: HitRecord, unit: Vec3) -> Option<(Color, Ray)> {
        match self {
            Material::Lambertian(l) => l.scatter_spec(rec, unit),
            Material::Metal(m) => m.scatter_spec(r, rec, unit),
            Material::Dielectric(d) => d.scatter_spec(r, rec),
        }
    }

    /// Scatters `r` at the hit `rec`; `unit` is the random unit vector that
    /// diffuse and fuzzy surfaces use.
    pub fn scatter(&self, r: &Ray, rec: &HitRecord, unit: Vec3) -> (res: Option<(Color, Ray)>)
        requires
            self.wf(),
            r.wf(),
            rec.wf(),
            bounded(unit, ONE as int),
        ensures
            res == self.scatter_spec(*r, *rec, unit),
            match res {
                Some((attenuation, scattered)) => is_reflectance(attenuation) && scattered.wf(),
                None => true,
            },
    {
        let res = match self {
            Material::Lambertian(l) => l.scatter(r, rec, unit),
            Material::Metal(m) => m.scatter(r, rec, unit),
            Material::Dielectric(d) => d.scatter(r, rec),
        };
        res
    }
}

} // verus!
