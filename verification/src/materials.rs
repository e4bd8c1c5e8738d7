//! Materials and how they scatter light.

use crate::fixed::{magnitude, Fixed, ONE_RAW};
use crate::random::{random, unit_draw, Sampler};
use crate::ray::Ray;
use crate::surface::HitRecord;
use crate::vec3::{lemma_reflection_law, lemma_unit_components, Vec3};
use vstd::prelude::*;

verus! {

/// A diffuse surface.
#[derive(Clone, Copy, Debug, PartialEq, Eq, Structural)]
pub struct Lambertian {
    pub color: Vec3,
}

/// A mirror, blurred by `fuzz`.
#[derive(Clone, Copy, Debug, PartialEq, Eq, Structural)]
pub struct Metal {
    pub color: Vec3,
    pub fuzz: Fixed,
}

/// A transparent medium that bends and mirrors light.
#[derive(Clone, Copy, Debug, PartialEq, Eq, Structural)]
pub struct Dielectric {
    pub color: Vec3,
    pub refraction_idx: Fixed,
}

/// The materials a surface can have.
#[derive(Clone, Copy, Debug, PartialEq, Eq, Structural)]
pub enum Materials {
    Lambertian(Lambertian),
    Metal(Metal),
    Dielectric(Dielectric),
}

/// How a surface sends on a ray that hits it.
pub trait Scatter {
    /// The scattered ray and the attenuation for a stream of samples in
    /// `state`, and the state after the draws.
    spec fn scatter_spec(&self, r_in: Ray, rec: HitRecord, state: u64) -> ((Ray, Vec3), u64);

    /// Scatters the ray `r_in` at the hit `rec`: gives the outgoing ray
    /// and the fraction of light, per channel, that it carries on.
    fn scatter(&self, r_in: Ray, rec: &HitRecord, rng: &mut Sampler) -> (out: (Ray, Vec3))
        ensures
            (out, final(rng).state) == self.scatter_spec(r_in, *rec, old(rng).state),
    ;
}

/// The colour that leaves every channel as it is.
pub open spec fn white() -> Vec3 {
    Vec3(Fixed::from_int(1), Fixed::from_int(1), Fixed::from_int(1))
}

/// The fifth power.
pub open spec fn pow5(x: Fixed) -> Fixed {
    x.times(x).times(x).times(x).times(x)
}

impl Lambertian {
    /// The ray that leaves the hit `rec` when `sample` is the drawn
    /// direction: along the normal plus the sample, or along the normal
    /// alone where the two cancel. The attenuation is the albedo.
    pub open spec fn bounce_spec(self, rec: HitRecord, sample: Vec3) -> (Ray, Vec3) {
        let dir = rec.n.plus(sample);
        (
            Ray {
                ori: rec.p,
                dir: if dir.near_zero() {
                    rec.n
                } else {
                    dir
                },
            },
            self.color,
        )
    }

    /// Scatters at the hit `rec` with `sample` as the drawn direction.
    pub fn bounce(self, rec: &HitRecord, sample: Vec3) -> (out: (Ray, Vec3))
        ensures
            out == self.bounce_spec(*rec, sample),
            out.1 == self.color,
    {
        let mut scattered_dir: Vec3 = rec.n.plus(sample);
        if scattered_dir.near_zero() {
            scattered_dir = rec.n;
        }
        (Ray { ori: rec.p, dir: scattered_dir }, self.color)
    }
}

impl Scatter for Lambertian {
    open spec fn scatter_spec(&self, r_in: Ray, rec: HitRecord, state: u64) -> ((Ray, Vec3), u64) {
        let d = Vec3::random_unit_spec(state);
        (self.bounce_spec(rec, d.0), d.1)
    }

    fn scatter(&self, r_in: Ray, rec: &HitRecord, rng: &mut Sampler) -> (out: (Ray, Vec3)) {
        let sample: Vec3 = Vec3::random_unit(rng);
        self.bounce(rec, sample)
    }
}

impl Metal {
    /// The ray that leaves the hit `rec` when `sample` is the drawn
    /// direction: the mirror image of the incoming direction, moved by
    /// `fuzz` times the sample. The attenuation is the albedo.
    pub open spec fn bounce_spec(self, r_in: Ray, rec: HitRecord, sample: Vec3) -> (Ray, Vec3) {
        (
            Ray {
                ori: rec.p,
                dir: r_in.dir.unit().reflect(rec.n).plus(sample.scale(self.fuzz)),
            },
            self.color,
        )
    }

    /// Scatters the ray `r_in` at the hit `rec` with `sample` as the drawn
    /// direction.
    pub fn bounce(self, r_in: Ray, rec: &HitRecord, sample: Vec3) -> (out: (Ray, Vec3))
        ensures
            out == self.bounce_spec(r_in, *rec, sample),
            out.1 == self.color,
    {
        let reflected_dir: Vec3 = r_in.dir.unit().reflect(rec.n);
        let scattered_dir: Vec3 = reflected_dir.plus(sample.scale(self.fuzz));
        (Ray { ori: rec.p, dir: scattered_dir }, self.color)
    }
}

impl Scatter for Metal {
    open spec fn scatter_spec(&self, r_in: Ray, rec: HitRecord, state: u64) -> ((Ray, Vec3), u64) {
        let d = Vec3::random_unit_spec(state);
        (self.bounce_spec(r_in, rec, d.0), d.1)
    }

    fn scatter(&self, r_in: Ray, rec: &HitRecord, rng: &mut Sampler) -> (out: (Ray, Vec3)) {
        let sample: Vec3 = Vec3::random_unit(rng);
        self.bounce(r_in, rec, sample)
    }
}

impl Dielectric {
    /// The ratio of the refractive indices on the way in or out.
    pub open spec fn idx_ratio(self, rec: HitRecord) -> Fixed {
        if rec.front {
            Fixed::from_int(1).over(self.refraction_idx)
        } else {
            self.refraction_idx
        }
    }

    /// The cosine of the angle between the incoming ray and the normal,
    /// capped at one.
    pub open spec fn cos_theta(r_in: Ray, rec: HitRecord) -> Fixed {
        r_in.dir.unit().neg().dot(rec.n).min(Fixed::from_int(1))
    }

    /// Whether the ray cannot pass the surface and is mirrored whole.
    pub open spec fn cannot_refract_spec(self, r_in: Ray, rec: HitRecord) -> bool {
        let cos = Dielectric::cos_theta(r_in, rec);
        let sin = Fixed::from_int(1).minus(cos.times(cos)).sqrt();
        self.idx_ratio(rec).times(sin).raw > ONE_RAW
    }

    /// Schlick's approximation of the share of light that is mirrored.
    pub open spec fn reflectance_spec(cos: Fixed, reflectance_idx: Fixed) -> Fixed {
        let r0_sqrt = Fixed::from_int(1).minus(reflectance_idx).over(
            Fixed::from_int(1).plus(reflectance_idx),
        );
        let r0 = r0_sqrt.times(r0_sqrt);
        r0.plus(Fixed::from_int(1).minus(r0).times(pow5(Fixed::from_int(1).minus(cos))))
    }

    /// The mirrored ray, which keeps all its light.
    pub open spec fn mirrored(r_in: Ray, rec: HitRecord) -> (Ray, Vec3) {
        (Ray { ori: rec.p, dir: r_in.dir.unit().reflect(rec.n) }, white())
    }

    /// The ray that leaves the hit `rec` when the ray can pass and
    /// `coin` is the drawn fraction: mirrored if the reflectance exceeds
    /// the coin, else bent through the surface and tinted.
    pub open spec fn pass_spec(self, r_in: Ray, rec: HitRecord, coin: Fixed) -> (Ray, Vec3) {
        if Dielectric::reflectance_spec(Dielectric::cos_theta(r_in, rec), self.idx_ratio(rec)).raw
            > coin.raw {
            Dielectric::mirrored(r_in, rec)
        } else {
            (
                Ray { ori: rec.p, dir: r_in.dir.unit().refract(rec.n, self.idx_ratio(rec)) },
                self.color,
            )
        }
    }

    /// The ratio of the refractive indices at the hit `rec`.
    fn ratio_at(self, rec: &HitRecord) -> (k: Fixed)
        ensures
            k == self.idx_ratio(*rec),
    {
        if rec.front {
            Fixed::from_int(1).over(self.refraction_idx)
        } else {
            self.refraction_idx
        }
    }

    /// Tells whether the ray `r_in` is mirrored whole at the hit `rec`.
    pub fn cannot_refract(self, r_in: Ray, rec: &HitRecord) -> (b: bool)
        ensures
            b == self.cannot_refract_spec(r_in, *rec),
    {
        let cos: Fixed = r_in.dir.unit().neg().dot(rec.n).min(Fixed::from_int(1));
        let sin: Fixed = Fixed::from_int(1).minus(cos.times(cos)).sqrt();
        self.ratio_at(rec).times(sin).raw > ONE_RAW
    }

    /// Computes Schlick's approximation of the share of light that is
    /// mirrored, for the cosine `cos` of the angle of incidence.
    #[verifier::when_used_as_spec(reflectance_spec)]
    pub fn reflectance(cos: Fixed, reflectance_idx: Fixed) -> (r: Fixed)
        ensures
            r == Dielectric::reflectance_spec(cos, reflectance_idx),
    {
        let one: Fixed = Fixed::from_int(1);
        let r0_sqrt: Fixed = one.minus(reflectance_idx).over(one.plus(reflectance_idx));
        let r0: Fixed = r0_sqrt.times(r0_sqrt);
        let x: Fixed = one.minus(cos);
        r0.plus(one.minus(r0).times(x.times(x).times(x).times(x).times(x)))
    }

    /// The mirrored ray at the hit `rec`.
    pub fn mirror(r_in: Ray, rec: &HitRecord) -> (out: (Ray, Vec3))
        ensures
            out == Dielectric::mirrored(r_in, *rec),
    {
        let one: Fixed = Fixed::from_int(1);
        (Ray { ori: rec.p, dir: r_in.dir.unit().reflect(rec.n) }, Vec3(one, one, one))
    }

    /// Scatters the ray `r_in`, which can pass the surface, at the hit
    /// `rec` with `coin` as the drawn fraction.
    pub fn pass(self, r_in: Ray, rec: &HitRecord, coin: Fixed) -> (out: (Ray, Vec3))
        ensures
            out == self.pass_spec(r_in, *rec, coin),
    {
        let idx_ratio: Fixed = self.ratio_at(rec);
        let unit_dir: Vec3 = r_in.dir.unit();
        let cos: Fixed = unit_dir.neg().dot(rec.n).min(Fixed::from_int(1));
        if Dielectric::reflectance(cos, idx_ratio).raw > coin.raw {
            Dielectric::mirror(r_in, rec)
        } else {
            (Ray { ori: rec.p, dir: unit_dir.refract(rec.n, idx_ratio) }, self.color)
        }
    }
}

impl Scatter for Dielectric {
    open spec fn scatter_spec(&self, r_in: Ray, rec: HitRecord, state: u64) -> ((Ray, Vec3), u64) {
        if self.cannot_refract_spec(r_in, rec) {
            (Dielectric::mirrored(r_in, rec), state)
        } else {
            let d = unit_draw(state);
            (self.pass_spec(r_in, rec, d.0), d.1)
        }
    }

    fn scatter(&self, r_in: Ray, rec: &HitRecord, rng: &mut Sampler) -> (out: (Ray, Vec3)) {
        if self.cannot_refract(r_in, rec) {
            Dielectric::mirror(r_in, rec)
        } else {
            let coin: Fixed = random(rng);
            self.pass(r_in, rec, coin)
        }
    }
}

impl Scatter for Materials {
    open spec fn scatter_spec(&self, r_in: Ray, rec: HitRecord, state: u64) -> ((Ray, Vec3), u64) {
        match *self {
            Materials::Lambertian(l) => l.scatter_spec(r_in, rec, state),
            Materials::Metal(m) => m.scatter_spec(r_in, rec, state),
            Materials::Dielectric(d) => d.scatter_spec(r_in, rec, state),
        }
    }

    fn scatter(&self, r_in: Ray, rec: &HitRecord, rng: &mut Sampler) -> (out: (Ray, Vec3)) {
        match self {
            Materials::Lambertian(l) => l.scatter(r_in, rec, rng),
            Materials::Metal(m) => m.scatter(r_in, rec, rng),
            Materials::Dielectric(d) => d.scatter(r_in, rec, rng),
        }
    }
}

impl Materials {
    /// The colour that the material gives to the light it passes on.
    pub open spec fn tint(self) -> Vec3 {
        match self {
            Materials::Lambertian(l) => l.color,
            Materials::Metal(m) => m.color,
            Materials::Dielectric(d) => d.color,
        }
    }

    /// The material passes on no more light than it receives: each
    /// channel of its colour lies between zero and one.
    pub open spec fn wf(self) -> bool {
        self.tint().within_unit()
    }

    /// The material passes on no light worth following.
    pub open spec fn absorbs(self) -> bool {
        match self {
            Materials::Lambertian(l) => l.color.near_zero(),
            Materials::Metal(m) => m.color.near_zero(),
            Materials::Dielectric(d) => false,
        }
    }
}

/// A diffuse or mirroring surface attenuates by its colour, whatever
/// is drawn; so the attenuation of a material whose colour lies
/// between zero and one lies there too, and the scattered ray starts
/// at the hit.
pub proof fn lemma_attenuation(m: Materials, r_in: Ray, rec: HitRecord, state: u64)
    ensures
        m is Lambertian || m is Metal ==> m.scatter_spec(r_in, rec, state).0.1 == m.tint(),
        m is Dielectric ==> m.scatter_spec(r_in, rec, state).0.1 == m.tint() || m.scatter_spec(
            r_in,
            rec,
            state,
        ).0.1 == white(),
        m.wf() ==> m.scatter_spec(r_in, rec, state).0.1.within_unit(),
        m.scatter_spec(r_in, rec, state).0.0.ori == rec.p,
        rec.n.wf() ==> m.scatter_spec(r_in, rec, state).0.0.dir.wf(),
{
}

/// A diffuse surface never scatters into a degenerate direction: where
/// the normal is not near zero, neither is the scattered direction,
/// whatever is drawn.
pub proof fn lemma_diffuse_never_degenerate(m: Lambertian, r_in: Ray, rec: HitRecord, state: u64)
    requires
        !rec.n.near_zero(),
    ensures
        !m.scatter_spec(r_in, rec, state).0.0.dir.near_zero(),
{
}

/// A mirror without fuzz sends the ray on in the mirror image of its
/// normalised direction, whatever is drawn.
pub proof fn lemma_mirror_without_fuzz(m: Metal, r_in: Ray, rec: HitRecord, state: u64)
    requires
        m.fuzz.raw == 0,
    ensures
        m.scatter_spec(r_in, rec, state).0.0.dir == r_in.dir.unit().reflect(rec.n),
{
    let sample = Vec3::random_unit_spec(state).0;
    assert(m.fuzz.raw * sample.0.raw == 0 && m.fuzz.raw * sample.1.raw == 0 && m.fuzz.raw
        * sample.2.raw == 0) by (nonlinear_arith)
        requires
            m.fuzz.raw == 0,
    ;
}

/// A mirror without fuzz obeys the law of reflection up to rounding:
/// the scattered direction makes with the normal the opposite of the
/// angle that the normalised incoming direction makes with it, up to
/// thirty units in the last place and six times the distance of the
/// normal's squared length from one.
pub proof fn lemma_mirror_reflection_law(m: Metal, r_in: Ray, rec: HitRecord, state: u64)
    requires
        m.fuzz.raw == 0,
        r_in.dir.wf(),
        rec.n.within_one(),
    ensures
        magnitude(
            m.scatter_spec(r_in, rec, state).0.0.dir.dot(rec.n).raw + r_in.dir.unit().dot(rec.n).raw,
        ) <= 30 + 6 * magnitude(rec.n.l2norm().raw - ONE_RAW),
{
    lemma_mirror_without_fuzz(m, r_in, rec, state);
    lemma_unit_components(r_in.dir);
    lemma_reflection_law(r_in.dir.unit(), rec.n);
}

} // verus!
