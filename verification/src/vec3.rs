//! Three-component vectors over fixed-point scalars.

use crate::fixed::{
    floor_sqrt, floor_sqrt_of, lemma_floor_sqrt_above, lemma_floor_sqrt_below,
    lemma_floor_sqrt_exists, lemma_over_error, lemma_over_larger, lemma_plus_neg,
    lemma_product_sign, lemma_square_not_negative, lemma_times_error, lemma_times_fraction,
    lemma_times_neg, magnitude, magnitude_of, Fixed, MAX_RAW, ONE_RAW,
};
use crate::random::{random, random_in, range_draw, unit_draw, Sampler};
use vstd::prelude::*;

verus! {

/// Raw bound under which a component counts as zero: the scalars below
/// it in magnitude are those below `1e-8`.
pub const NEAR_ZERO_RAW: i64 = 43;

/// How many candidates a rejection sampler draws before it settles for
/// the origin.
pub const SAMPLE_ATTEMPTS: u32 = 100;

/// A point, a direction or a colour.
#[derive(Clone, Copy, Debug, PartialEq, Eq, Structural)]
pub struct Vec3(pub Fixed, pub Fixed, pub Fixed);

impl Vec3 {
    /// Component-wise sum.
    pub open spec fn plus_spec(self, rhs: Vec3) -> Vec3 {
        Vec3(self.0.plus(rhs.0), self.1.plus(rhs.1), self.2.plus(rhs.2))
    }

    /// Component-wise difference.
    pub open spec fn minus_spec(self, rhs: Vec3) -> Vec3 {
        Vec3(self.0.minus(rhs.0), self.1.minus(rhs.1), self.2.minus(rhs.2))
    }

    /// The opposite vector.
    pub open spec fn neg_spec(self) -> Vec3 {
        Vec3(self.0.neg(), self.1.neg(), self.2.neg())
    }

    /// The vector stretched by the factor `k`.
    pub open spec fn scale_spec(self, k: Fixed) -> Vec3 {
        Vec3(k.times(self.0), k.times(self.1), k.times(self.2))
    }

    /// The vector with each component divided by `k`.
    pub open spec fn over_spec(self, k: Fixed) -> Vec3 {
        Vec3(self.0.over(k), self.1.over(k), self.2.over(k))
    }

    /// The vector with `k` added to each component.
    pub open spec fn shift_spec(self, k: Fixed) -> Vec3 {
        Vec3(k.plus(self.0), k.plus(self.1), k.plus(self.2))
    }

    /// Dot product: the three products summed from the left.
    pub open spec fn dot_spec(self, rhs: Vec3) -> Fixed {
        self.0.times(rhs.0).plus(self.1.times(rhs.1)).plus(self.2.times(rhs.2))
    }

    /// Component-wise product.
    pub open spec fn coord_mul_spec(self, rhs: Vec3) -> Vec3 {
        Vec3(self.0.times(rhs.0), self.1.times(rhs.1), self.2.times(rhs.2))
    }

    /// Cross product.
    pub open spec fn x_spec(self, rhs: Vec3) -> Vec3 {
        Vec3(
            self.1.times(rhs.2).minus(self.2.times(rhs.1)),
            self.2.times(rhs.0).minus(self.0.times(rhs.2)),
            self.0.times(rhs.1).minus(self.1.times(rhs.0)),
        )
    }

    /// Squared length: the dot product of the vector with itself.
    pub open spec fn l2norm_spec(self) -> Fixed {
        self.dot(self)
    }

    /// The Euclidean length, rounded down once.
    pub open spec fn len_spec(self) -> Fixed {
        Fixed::of(
            floor_sqrt(
                self.0.raw * self.0.raw + self.1.raw * self.1.raw + self.2.raw * self.2.raw,
            ),
        )
    }

    /// The vector over its length.
    pub open spec fn unit_spec(self) -> Vec3 {
        self.over(self.len())
    }

    /// Whether every component is below `1e-8` in magnitude.
    pub open spec fn near_zero_spec(self) -> bool {
        &&& magnitude(self.0.raw as int) < NEAR_ZERO_RAW
        &&& magnitude(self.1.raw as int) < NEAR_ZERO_RAW
        &&& magnitude(self.2.raw as int) < NEAR_ZERO_RAW
    }

    /// The mirror image `v - 2 (v . n) n` at the plane with normal `n`.
    pub open spec fn reflect_spec(self, n: Vec3) -> Vec3 {
        self.minus(n.scale(self.scale(Fixed::from_int(2)).dot(n)))
    }

    /// The vector bent through the surface with normal `n`: the part
    /// across the normal is `idx_ratio * (v + cos * n)`, with `cos` the
    /// cosine of the angle of incidence capped at one; the part along it
    /// is `-sqrt(|1 - across^2|) * n`.
    pub open spec fn refract_spec(self, n: Vec3, idx_ratio: Fixed) -> Vec3 {
        let cos_theta = self.neg().dot(n).min(Fixed::from_int(1));
        let perpendicular = self.plus(n.scale(cos_theta)).scale(idx_ratio);
        let parallel = n.scale(
            Fixed::from_int(1).minus(perpendicular.l2norm()).abs().sqrt().neg(),
        );
        perpendicular.plus(parallel)
    }

    /// The vector with all three components zero.
    pub fn zero() -> (v: Vec3)
        ensures
            v == Vec3(Fixed { raw: 0 }, Fixed { raw: 0 }, Fixed { raw: 0 }),
    {
        Vec3(Fixed::zero(), Fixed::zero(), Fixed::zero())
    }

    /// Component-wise sum.
    #[verifier::when_used_as_spec(plus_spec)]
    pub fn plus(self, rhs: Vec3) -> (v: Vec3)
        ensures
            v == self.plus_spec(rhs),
    {
        Vec3(self.0.plus(rhs.0), self.1.plus(rhs.1), self.2.plus(rhs.2))
    }

    /// Component-wise difference.
    #[verifier::when_used_as_spec(minus_spec)]
    pub fn minus(self, rhs: Vec3) -> (v: Vec3)
        ensures
            v == self.minus_spec(rhs),
    {
        Vec3(self.0.minus(rhs.0), self.1.minus(rhs.1), self.2.minus(rhs.2))
    }

    /// The opposite vector.
    #[verifier::when_used_as_spec(neg_spec)]
    pub fn neg(self) -> (v: Vec3)
        ensures
            v == self.neg_spec(),
    {
        Vec3(self.0.neg(), self.1.neg(), self.2.neg())
    }

    /// The vector stretched by the factor `k`.
    #[verifier::when_used_as_spec(scale_spec)]
    pub fn scale(self, k: Fixed) -> (v: Vec3)
        ensures
            v == self.scale_spec(k),
    {
        Vec3(k.times(self.0), k.times(self.1), k.times(self.2))
    }

    /// The vector with each component divided by `k`.
    #[verifier::when_used_as_spec(over_spec)]
    pub fn over(self, k: Fixed) -> (v: Vec3)
        ensures
            v == self.over_spec(k),
    {
        Vec3(self.0.over(k), self.1.over(k), self.2.over(k))
    }

    /// The vector with `k` added to each component.
    #[verifier::when_used_as_spec(shift_spec)]
    pub fn shift(self, k: Fixed) -> (v: Vec3)
        ensures
            v == self.shift_spec(k),
    {
        Vec3(k.plus(self.0), k.plus(self.1), k.plus(self.2))
    }

    /// Dot product.
    #[verifier::when_used_as_spec(dot_spec)]
    pub fn dot(self, rhs: Vec3) -> (d: Fixed)
        ensures
            d == self.dot_spec(rhs),
    {
        self.0.times(rhs.0).plus(self.1.times(rhs.1)).plus(self.2.times(rhs.2))
    }

    /// Component-wise product.
    #[verifier::when_used_as_spec(coord_mul_spec)]
    pub fn coord_mul(self, rhs: Vec3) -> (v: Vec3)
        ensures
            v == self.coord_mul_spec(rhs),
    {
        Vec3(self.0.times(rhs.0), self.1.times(rhs.1), self.2.times(rhs.2))
    }

    /// Cross product.
    #[verifier::when_used_as_spec(x_spec)]
    pub fn x(self, rhs: Vec3) -> (v: Vec3)
        ensures
            v == self.x_spec(rhs),
            self.within_one() && rhs.within_one() ==> magnitude(v.dot(self).raw as int) <= 9
                && magnitude(v.dot(rhs).raw as int) <= 9,
    {
        proof {
            if self.within_one() && rhs.within_one() {
                lemma_cross_orthogonal(self, rhs);
            }
        }
        Vec3(
            self.1.times(rhs.2).minus(self.2.times(rhs.1)),
            self.2.times(rhs.0).minus(self.0.times(rhs.2)),
            self.0.times(rhs.1).minus(self.1.times(rhs.0)),
        )
    }

    /// Squared length.
    #[verifier::when_used_as_spec(l2norm_spec)]
    pub fn l2norm(self) -> (d: Fixed)
        ensures
            d == self.l2norm_spec(),
    {
        self.dot(self)
    }

    /// Euclidean length.
    #[verifier::when_used_as_spec(len_spec)]
    pub fn len(self) -> (d: Fixed)
        ensures
            d == self.len_spec(),
    {
        let a: u128 = magnitude_of(self.0.raw) as u128;
        let b: u128 = magnitude_of(self.1.raw) as u128;
        let c: u128 = magnitude_of(self.2.raw) as u128;
        proof {
            lemma_product_sign(self.0.raw as int, self.0.raw as int);
            lemma_product_sign(self.1.raw as int, self.1.raw as int);
            lemma_product_sign(self.2.raw as int, self.2.raw as int);
            lemma_square_bound(a as int);
            lemma_square_bound(b as int);
            lemma_square_bound(c as int);
        }
        let root: u64 = floor_sqrt_of(a * a + b * b + c * c);
        if root > 0x7fff_ffff_ffff_ffffu64 {
            Fixed::max_value()
        } else {
            Fixed { raw: root as i64 }
        }
    }

    /// The vector of length one in the same direction; the zero vector
    /// stays zero.
    #[verifier::when_used_as_spec(unit_spec)]
    pub fn unit(self) -> (v: Vec3)
        ensures
            v == self.unit_spec(),
            self.wf() ==> v.within_one(),
            self.wf() && 0 < self.len().raw < MAX_RAW ==> ONE_RAW - 4 <= v.len().raw <= ONE_RAW + (
            ONE_RAW as int) / (self.len().raw as int),
    {
        proof {
            if self.wf() {
                lemma_unit_components(self);
                if 0 < self.len().raw < MAX_RAW {
                    lemma_unit_length(self);
                }
            }
        }
        self.over(self.len())
    }

    /// Whether every component is below `1e-8` in magnitude.
    #[verifier::when_used_as_spec(near_zero_spec)]
    pub fn near_zero(self) -> (b: bool)
        ensures
            b == self.near_zero_spec(),
    {
        magnitude_of(self.0.raw) < NEAR_ZERO_RAW as u64
            && magnitude_of(self.1.raw) < NEAR_ZERO_RAW as u64
            && magnitude_of(self.2.raw) < NEAR_ZERO_RAW as u64
    }

    /// Mirrors the vector at the plane with normal `n`.
    #[verifier::when_used_as_spec(reflect_spec)]
    pub fn reflect(self, n: Vec3) -> (v: Vec3)
        ensures
            v == self.reflect_spec(n),
            self.within_one() && n.within_one() ==> magnitude(v.dot(n).raw + self.dot(n).raw) <= 30 + 6
                * magnitude(n.l2norm().raw - ONE_RAW),
    {
        proof {
            if self.within_one() && n.within_one() {
                lemma_reflection_law(self, n);
            }
        }
        self.minus(n.scale(self.scale(Fixed::from_int(2)).dot(n)))
    }

    /// Bends the unit vector through the surface with normal `n`, for
    /// the ratio `idx_ratio` of the refractive indices.
    #[verifier::when_used_as_spec(refract_spec)]
    pub fn refract(self, n: Vec3, idx_ratio: Fixed) -> (v: Vec3)
        ensures
            v == self.refract_spec(n, idx_ratio),
    {
        let cos_theta: Fixed = self.neg().dot(n).min(Fixed::from_int(1));
        let perpendicular: Vec3 = self.plus(n.scale(cos_theta)).scale(idx_ratio);
        let parallel: Vec3 = n.scale(Fixed::from_int(1).minus(perpendicular.l2norm()).abs().sqrt().neg());
        perpendicular.plus(parallel)
    }
}

impl Vec3 {
    /// Three uniform components in `[0, 1)` drawn in turn from a stream
    /// in `state`, and the state after them.
    pub open spec fn random_spec(state: u64) -> (Vec3, u64) {
        let a = unit_draw(state);
        let b = unit_draw(a.1);
        let c = unit_draw(b.1);
        (Vec3(a.0, b.0, c.0), c.1)
    }

    /// Three uniform components in `[min, max)` drawn in turn from a
    /// stream in `state`, and the state after them.
    pub open spec fn random_in_spec(state: u64, min: Fixed, max: Fixed) -> (Vec3, u64) {
        let a = range_draw(state, min, max);
        let b = range_draw(a.1, min, max);
        let c = range_draw(b.1, min, max);
        (Vec3(a.0, b.0, c.0), c.1)
    }

    /// A candidate in the square `[-1, 1)^2` of the plane `z = 0`.
    pub open spec fn disk_candidate(state: u64) -> (Vec3, u64) {
        let a = range_draw(state, Fixed::from_int(-1i32), Fixed::from_int(1));
        let b = range_draw(a.1, Fixed::from_int(-1i32), Fixed::from_int(1));
        (Vec3(a.0, b.0, Fixed { raw: 0 }), b.1)
    }

    /// Whether the squared length is below one.
    pub open spec fn inside_unit(self) -> bool {
        self.l2norm().raw < ONE_RAW
    }

    /// The first of at most `attempts` candidates in the cube
    /// `[-1, 1)^3` that lies inside the unit sphere, or the origin if
    /// none does, with the state after the draws.
    pub open spec fn in_unit_sphere_spec(state: u64, attempts: nat) -> (Vec3, u64)
        decreases attempts,
    {
        if attempts == 0 {
            (Vec3(Fixed { raw: 0 }, Fixed { raw: 0 }, Fixed { raw: 0 }), state)
        } else {
            let c = Vec3::random_in_spec(state, Fixed::from_int(-1i32), Fixed::from_int(1));
            if c.0.inside_unit() {
                c
            } else {
                Vec3::in_unit_sphere_spec(c.1, (attempts - 1) as nat)
            }
        }
    }

    /// The first of at most `attempts` candidates in the square
    /// `[-1, 1)^2` that lies inside the unit disk, or the origin if none
    /// does, with the state after the draws.
    pub open spec fn in_unit_disk_spec(state: u64, attempts: nat) -> (Vec3, u64)
        decreases attempts,
    {
        if attempts == 0 {
            (Vec3(Fixed { raw: 0 }, Fixed { raw: 0 }, Fixed { raw: 0 }), state)
        } else {
            let c = Vec3::disk_candidate(state);
            if c.0.inside_unit() {
                c
            } else {
                Vec3::in_unit_disk_spec(c.1, (attempts - 1) as nat)
            }
        }
    }

    /// The direction of a sample from the unit sphere.
    pub open spec fn random_unit_spec(state: u64) -> (Vec3, u64) {
        let c = Vec3::in_unit_sphere_spec(state, SAMPLE_ATTEMPTS as nat);
        (c.0.unit(), c.1)
    }

    /// The vector `v` or its opposite, whichever does not point against
    /// `n`.
    pub open spec fn toward(v: Vec3, n: Vec3) -> Vec3 {
        if v.dot(n).raw > 0 {
            v.scale(Fixed::from_int(1))
        } else {
            v.scale(Fixed::from_int(-1i32))
        }
    }

    /// A random direction in the hemisphere around `n`.
    pub open spec fn random_unit_hemisphere_spec(state: u64, n: Vec3) -> (Vec3, u64) {
        let c = Vec3::random_unit_spec(state);
        (Vec3::toward(c.0, n), c.1)
    }

    /// Draws a vector with each component uniform in `[0, 1)`.
    pub fn random(rng: &mut Sampler) -> (v: Vec3)
        ensures
            (v, final(rng).state) == Vec3::random_spec(old(rng).state),
    {
        let a: Fixed = random(rng);
        let b: Fixed = random(rng);
        let c: Fixed = random(rng);
        Vec3(a, b, c)
    }

    /// Draws a vector with each component uniform in `[min, max)`.
    pub fn random_in(rng: &mut Sampler, min: Fixed, max: Fixed) -> (v: Vec3)
        ensures
            (v, final(rng).state) == Vec3::random_in_spec(old(rng).state, min, max),
    {
        let a: Fixed = random_in(rng, min, max);
        let b: Fixed = random_in(rng, min, max);
        let c: Fixed = random_in(rng, min, max);
        Vec3(a, b, c)
    }

    /// Draws a point inside the unit sphere by rejection: candidates
    /// from the cube `[-1, 1)^3` are drawn until one lies inside. After
    /// `SAMPLE_ATTEMPTS` rejections the origin is returned.
    pub fn random_in_unit_sphere(rng: &mut Sampler) -> (v: Vec3)
        ensures
            (v, final(rng).state) == Vec3::in_unit_sphere_spec(
                old(rng).state,
                SAMPLE_ATTEMPTS as nat,
            ),
            v.inside_unit(),
    {
        let mut left: u32 = SAMPLE_ATTEMPTS;
        while left > 0
            invariant
                Vec3::in_unit_sphere_spec(rng.state, left as nat) == Vec3::in_unit_sphere_spec(
                    old(rng).state,
                    SAMPLE_ATTEMPTS as nat,
                ),
            decreases left,
        {
            let v: Vec3 = Vec3::random_in(rng, Fixed::from_int(-1i32), Fixed::from_int(1));
            if v.l2norm().raw < ONE_RAW {
                return v;
            }
            left = left - 1;
        }
        proof {
            lemma_origin_inside();
        }
        Vec3::zero()
    }

    /// Draws a point inside the unit disk of the plane `z = 0` by
    /// rejection: candidates from the square `[-1, 1)^2` are drawn until
    /// one lies inside. After `SAMPLE_ATTEMPTS` rejections the origin is
    /// returned.
    pub fn random_in_unit_disk(rng: &mut Sampler) -> (v: Vec3)
        ensures
            (v, final(rng).state) == Vec3::in_unit_disk_spec(
                old(rng).state,
                SAMPLE_ATTEMPTS as nat,
            ),
            v.inside_unit(),
            v.2.raw == 0,
    {
        let mut left: u32 = SAMPLE_ATTEMPTS;
        while left > 0
            invariant
                Vec3::in_unit_disk_spec(rng.state, left as nat) == Vec3::in_unit_disk_spec(
                    old(rng).state,
                    SAMPLE_ATTEMPTS as nat,
                ),
            decreases left,
        {
            let a: Fixed = random_in(rng, Fixed::from_int(-1i32), Fixed::from_int(1));
            let b: Fixed = random_in(rng, Fixed::from_int(-1i32), Fixed::from_int(1));
            let v: Vec3 = Vec3(a, b, Fixed::zero());
            if v.l2norm().raw < ONE_RAW {
                return v;
            }
            left = left - 1;
        }
        proof {
            lemma_origin_inside();
        }
        Vec3::zero()
    }

    /// Draws a direction: a sample from the unit sphere, normalised.
    pub fn random_unit(rng: &mut Sampler) -> (v: Vec3)
        ensures
            (v, final(rng).state) == Vec3::random_unit_spec(old(rng).state),
    {
        Vec3::random_in_unit_sphere(rng).unit()
    }

    /// Draws a direction in the hemisphere around the normal `n`.
    pub fn random_unit_hemisphere(rng: &mut Sampler, n: Vec3) -> (v: Vec3)
        ensures
            (v, final(rng).state) == Vec3::random_unit_hemisphere_spec(old(rng).state, n),
    {
        let v: Vec3 = Vec3::random_unit(rng);
        Vec3::oriented(v, n)
    }

    /// The vector `v` if it points along `n`, else its opposite.
    pub fn oriented(v: Vec3, n: Vec3) -> (r: Vec3)
        ensures
            r == Vec3::toward(v, n),
    {
        if v.dot(n).raw > 0 {
            v.scale(Fixed::from_int(1))
        } else {
            v.scale(Fixed::from_int(-1i32))
        }
    }
}

impl Vec3 {
    /// Every component lies in the range that the arithmetic produces.
    pub open spec fn wf(self) -> bool {
        self.0.wf() && self.1.wf() && self.2.wf()
    }
}

/// Turning a vector round negates its dot product with any other.
pub proof fn lemma_dot_neg(d: Vec3, o: Vec3)
    requires
        o.wf(),
    ensures
        d.dot(o.neg()) == d.dot(o).neg(),
        d.dot(o).wf(),
{
    lemma_times_neg(d.0, o.0);
    lemma_times_neg(d.1, o.1);
    lemma_times_neg(d.2, o.2);
    lemma_plus_neg(d.0.times(o.0), d.1.times(o.1));
    lemma_plus_neg(d.0.times(o.0).plus(d.1.times(o.1)), d.2.times(o.2));
}

/// A squared length is not negative.
pub proof fn lemma_l2norm_not_negative(v: Vec3)
    ensures
        v.l2norm().raw >= 0,
{
    lemma_square_not_negative(v.0);
    lemma_square_not_negative(v.1);
    lemma_square_not_negative(v.2);
}

impl Vec3 {
    /// Every component lies between zero and one.
    pub open spec fn within_unit(self) -> bool {
        &&& 0 <= self.0.raw <= ONE_RAW
        &&& 0 <= self.1.raw <= ONE_RAW
        &&& 0 <= self.2.raw <= ONE_RAW
    }
}

/// The component-wise product of two vectors of fractions is a vector
/// of fractions.
pub proof fn lemma_coord_mul_within_unit(a: Vec3, b: Vec3)
    requires
        a.within_unit(),
        b.within_unit(),
    ensures
        a.coord_mul(b).within_unit(),
{
    lemma_times_fraction(a.0, b.0);
    lemma_times_fraction(a.1, b.1);
    lemma_times_fraction(a.2, b.2);
}

/// No component of a vector exceeds its length.
pub proof fn lemma_len_bounds_components(v: Vec3)
    requires
        v.wf(),
    ensures
        magnitude(v.0.raw as int) <= v.len().raw,
        magnitude(v.1.raw as int) <= v.len().raw,
        magnitude(v.2.raw as int) <= v.len().raw,
{
    let x = v.0.raw as int;
    let y = v.1.raw as int;
    let z = v.2.raw as int;
    lemma_product_sign(x, x);
    lemma_product_sign(y, y);
    lemma_product_sign(z, z);
    assert(x * x >= 0 && y * y >= 0 && z * z >= 0) by (nonlinear_arith);
    lemma_floor_sqrt_above(x * x + y * y + z * z, magnitude(x));
    lemma_floor_sqrt_above(x * x + y * y + z * z, magnitude(y));
    lemma_floor_sqrt_above(x * x + y * y + z * z, magnitude(z));
}

/// Each component of a normalised vector is at most one in magnitude.
pub proof fn lemma_unit_components(v: Vec3)
    requires
        v.wf(),
    ensures
        -ONE_RAW <= v.unit().0.raw <= ONE_RAW,
        -ONE_RAW <= v.unit().1.raw <= ONE_RAW,
        -ONE_RAW <= v.unit().2.raw <= ONE_RAW,
{
    lemma_len_bounds_components(v);
    lemma_over_larger(v.0, v.len());
    lemma_over_larger(v.1, v.len());
    lemma_over_larger(v.2, v.len());
}

impl Vec3 {
    /// Every component is at most one in magnitude.
    pub open spec fn within_one(self) -> bool {
        &&& magnitude(self.0.raw as int) <= ONE_RAW
        &&& magnitude(self.1.raw as int) <= ONE_RAW
        &&& magnitude(self.2.raw as int) <= ONE_RAW
    }
}

/// Doubling a scalar of at most one in magnitude is exact.
proof fn lemma_double(x: Fixed)
    requires
        magnitude(x.raw as int) <= ONE_RAW,
    ensures
        Fixed::from_int(2).times(x).raw == 2 * x.raw,
{
    let s = ONE_RAW as int;
    let m = magnitude(x.raw as int);
    lemma_product_sign(2 * s, x.raw as int);
    assert((2 * s) * m == (2 * m) * s) by (nonlinear_arith);
    vstd::arithmetic::div_mod::lemma_div_by_multiple(2 * m, s);
}

/// One component's share in the sum of the dot products of a vector and
/// of its mirror image with the normal: with `d` the doubled dot
/// product, the share, scaled by `2^64`, differs from
/// `2^33 v n - d n n` by at most `3 * 2^64`.
proof fn lemma_reflect_component(v: Fixed, n: Fixed, d: Fixed)
    requires
        magnitude(v.raw as int) <= ONE_RAW,
        magnitude(n.raw as int) <= ONE_RAW,
        magnitude(d.raw as int) <= 6 * ONE_RAW,
    ensures
        ({
            let p = v.minus(d.times(n)).times(n).raw;
            let w = v.times(n).raw;
            &&& magnitude(p as int) <= 7 * ONE_RAW
            &&& magnitude(w as int) <= ONE_RAW
            &&& -0x3_0000_0000_0000_0000 <= 0x1_0000_0000_0000_0000 * (p + w) - (0x2_0000_0000 * (v.raw
                * n.raw) - d.raw * (n.raw * n.raw)) <= 0x3_0000_0000_0000_0000
        }),
{
    lemma_times_error(d, n, 6);
    let m = d.times(n);
    let r = v.minus(m);
    assert(r.raw == v.raw - m.raw);
    lemma_times_error(r, n, 7);
    lemma_times_error(v, n, 1);
    let vi = v.raw as int;
    let ni = n.raw as int;
    let di = d.raw as int;
    let mi = m.raw as int;
    let p = r.times(n).raw as int;
    let w = v.times(n).raw as int;
    let vn = vi * ni;
    let mn = mi * ni;
    let dn = di * ni;
    let nn = ni * ni;
    let g = 0x1_0000_0000 * mi - dn;
    let e = 0x1_0000_0000 * p - (vn - mn);
    let f = 0x1_0000_0000 * w - vn;
    assert((vi - mi) * ni == vn - mn) by (nonlinear_arith)
        requires
            vn == vi * ni,
            mn == mi * ni,
    ;
    assert(g * ni == 0x1_0000_0000 * mn - di * nn) by (nonlinear_arith)
        requires
            g == 0x1_0000_0000 * mi - dn,
            mn == mi * ni,
            dn == di * ni,
            nn == ni * ni,
    ;
    assert(-0x1_0000_0000_0000_0000 <= g * ni <= 0x1_0000_0000_0000_0000) by (nonlinear_arith)
        requires
            -0x1_0000_0000 < g < 0x1_0000_0000,
            -0x1_0000_0000 <= ni <= 0x1_0000_0000,
    ;
    assert(-0x1_0000_0000 < e < 0x1_0000_0000);
    assert(-0x1_0000_0000 < f < 0x1_0000_0000);
    assert(0x1_0000_0000_0000_0000 * (p + w) - (0x2_0000_0000 * vn - di * nn) == 0x1_0000_0000 * (e
        + f) - g * ni);
}

/// The doubled dot product of two vectors with components of at most
/// one in magnitude is at most six in magnitude and differs from twice
/// the exact sum of products by less than three units in the last
/// place.
proof fn lemma_doubled_dot(v: Vec3, n: Vec3)
    requires
        v.within_one(),
        n.within_one(),
    ensures
        ({
            let d = v.scale(Fixed::from_int(2)).dot(n).raw;
            let a = v.0.raw * n.0.raw + v.1.raw * n.1.raw + v.2.raw * n.2.raw;
            &&& -6 * ONE_RAW <= d <= 6 * ONE_RAW
            &&& -3 * ONE_RAW < ONE_RAW * d - 2 * a < 3 * ONE_RAW
        }),
{
    let tv = v.scale(Fixed::from_int(2));
    lemma_double(v.0);
    lemma_double(v.1);
    lemma_double(v.2);
    lemma_times_error(tv.0, n.0, 2);
    lemma_times_error(tv.1, n.1, 2);
    lemma_times_error(tv.2, n.2, 2);
    let a0 = v.0.raw * n.0.raw;
    let a1 = v.1.raw * n.1.raw;
    let a2 = v.2.raw * n.2.raw;
    assert((2 * v.0.raw) * n.0.raw == 2 * a0) by (nonlinear_arith)
        requires
            a0 == v.0.raw * n.0.raw,
    ;
    assert((2 * v.1.raw) * n.1.raw == 2 * a1) by (nonlinear_arith)
        requires
            a1 == v.1.raw * n.1.raw,
    ;
    assert((2 * v.2.raw) * n.2.raw == 2 * a2) by (nonlinear_arith)
        requires
            a2 == v.2.raw * n.2.raw,
    ;
    assert(tv.dot(n).raw == tv.0.times(n.0).raw + tv.1.times(n.1).raw + tv.2.times(n.2).raw);
}

/// The squared length of a vector with components of at most one in
/// magnitude differs from the exact sum of squares by less than three
/// units in the last place.
proof fn lemma_squared_length(n: Vec3)
    requires
        n.within_one(),
    ensures
        ({
            let k = ONE_RAW * n.l2norm().raw - (n.0.raw * n.0.raw + n.1.raw * n.1.raw + n.2.raw
                * n.2.raw);
            -3 * ONE_RAW < k < 3 * ONE_RAW
        }),
{
    lemma_times_error(n.0, n.0, 1);
    lemma_times_error(n.1, n.1, 1);
    lemma_times_error(n.2, n.2, 1);
    assert(n.l2norm().raw == n.0.times(n.0).raw + n.1.times(n.1).raw + n.2.times(n.2).raw);
}

/// The sum `x` of the two dot products is small where the normal's
/// squared length `l` is near one: the arithmetic behind the law of
/// reflection, on plain integers.
proof fn lemma_reflection_bound(x: int, d: int, l: int, a: int, nn: int, t: int)
    requires
        -0x9_0000_0000_0000_0000 <= t <= 0x9_0000_0000_0000_0000,
        t == 0x1_0000_0000_0000_0000 * x - (0x2_0000_0000 * a - d * nn),
        -0x3_0000_0000 < 0x1_0000_0000 * d - 2 * a < 0x3_0000_0000,
        -0x3_0000_0000 < 0x1_0000_0000 * l - nn < 0x3_0000_0000,
        -0x6_0000_0000 <= d <= 0x6_0000_0000,
    ensures
        magnitude(x) <= 30 + 6 * magnitude(l - 0x1_0000_0000),
{
    let h = 0x1_0000_0000 * d - 2 * a;
    let k = 0x1_0000_0000 * l - nn;
    let dl = d * l;
    let dk = d * k;
    let dnn = d * nn;
    assert(dk == 0x1_0000_0000 * dl - dnn) by (nonlinear_arith)
        requires
            dk == d * k,
            dl == d * l,
            dnn == d * nn,
            k == 0x1_0000_0000 * l - nn,
    ;
    assert(-0x12_0000_0000_0000_0000 <= dk <= 0x12_0000_0000_0000_0000) by (nonlinear_arith)
        requires
            dk == d * k,
            -0x6_0000_0000 <= d <= 0x6_0000_0000,
            -0x3_0000_0000 < k < 0x3_0000_0000,
    ;
    let gap = magnitude(l - 0x1_0000_0000);
    let slack = d * (0x1_0000_0000 - l);
    assert(slack == 0x1_0000_0000 * d - dl) by (nonlinear_arith)
        requires
            slack == d * (0x1_0000_0000 - l),
            dl == d * l,
    ;
    assert(-(0x6_0000_0000 * gap) <= slack <= 0x6_0000_0000 * gap) by (nonlinear_arith)
        requires
            slack == d * (0x1_0000_0000 - l),
            -0x6_0000_0000 <= d <= 0x6_0000_0000,
            gap >= 0,
            -gap <= 0x1_0000_0000 - l <= gap,
    ;
    assert(0x1_0000_0000_0000_0000 * x == 0x1_0000_0000 * slack + dk - 0x1_0000_0000 * h + t);
}

/// The law of reflection, up to rounding: the mirror image of a vector
/// makes with the normal the opposite of the angle that the vector
/// makes with it. For vectors whose components are at most one in
/// magnitude the two dot products cancel up to thirty units in the
/// last place and six times the distance of the normal's squared
/// length from one.
pub proof fn lemma_reflection_law(v: Vec3, n: Vec3)
    requires
        v.within_one(),
        n.within_one(),
    ensures
        magnitude(v.reflect(n).dot(n).raw + v.dot(n).raw) <= 30 + 6 * magnitude(
            n.l2norm().raw - ONE_RAW,
        ),
{
    let d = v.scale(Fixed::from_int(2)).dot(n);
    let di = d.raw as int;
    lemma_doubled_dot(v, n);
    lemma_squared_length(n);
    lemma_reflect_component(v.0, n.0, d);
    lemma_reflect_component(v.1, n.1, d);
    lemma_reflect_component(v.2, n.2, d);
    let r = v.reflect(n);
    assert(r == Vec3(
        v.0.minus(d.times(n.0)),
        v.1.minus(d.times(n.1)),
        v.2.minus(d.times(n.2)),
    ));
    let m0 = r.0.times(n.0).raw as int;
    let m1 = r.1.times(n.1).raw as int;
    let m2 = r.2.times(n.2).raw as int;
    let w0 = v.0.times(n.0).raw as int;
    let w1 = v.1.times(n.1).raw as int;
    let w2 = v.2.times(n.2).raw as int;
    let x = r.dot(n).raw + v.dot(n).raw;
    assert(r.dot(n).raw == m0 + m1 + m2);
    assert(v.dot(n).raw == w0 + w1 + w2);
    let a0 = v.0.raw * n.0.raw;
    let a1 = v.1.raw * n.1.raw;
    let a2 = v.2.raw * n.2.raw;
    let n0 = n.0.raw * n.0.raw;
    let n1 = n.1.raw * n.1.raw;
    let n2 = n.2.raw * n.2.raw;
    let t0 = 0x1_0000_0000_0000_0000 * (m0 + w0) - (0x2_0000_0000 * a0 - di * n0);
    let t1 = 0x1_0000_0000_0000_0000 * (m1 + w1) - (0x2_0000_0000 * a1 - di * n1);
    let t2 = 0x1_0000_0000_0000_0000 * (m2 + w2) - (0x2_0000_0000 * a2 - di * n2);
    assert(di * (n0 + n1 + n2) == di * n0 + di * n1 + di * n2) by (nonlinear_arith);
    let t = 0x1_0000_0000_0000_0000 * x - (0x2_0000_0000 * (a0 + a1 + a2) - di * (n0 + n1 + n2));
    assert(t == t0 + t1 + t2);
    lemma_reflection_bound(x, di, n.l2norm().raw as int, a0 + a1 + a2, n0 + n1 + n2, t);
}

/// The square of a quotient: with `q` the quotient of `x` by `l`
/// rounded down, `(l q)^2` lies between `x^2 - 2 x l` and `x^2`.
proof fn lemma_quotient_square(x: int, l: int)
    requires
        0 <= x,
        0 < l,
    ensures
        x * x - 2 * (x * l) <= (l * l) * ((x / l) * (x / l)) <= x * x,
{
    let q = x / l;
    let rest = x % l;
    vstd::arithmetic::div_mod::lemma_fundamental_div_mod(x, l);
    vstd::arithmetic::div_mod::lemma_mod_bound(x, l);
    vstd::arithmetic::div_mod::lemma_div_pos_is_pos(x, l);
    let y = l * q;
    assert(y == x - rest);
    assert((l * l) * (q * q) == y * y) by (nonlinear_arith)
        requires
            y == l * q,
    ;
    assert(y * y <= x * x) by (nonlinear_arith)
        requires
            0 <= y <= x,
    ;
    assert(y * y >= x * x - 2 * (x * l)) by (nonlinear_arith)
        requires
            y == x - rest,
            0 <= rest < l,
            0 <= x,
    ;
}

/// One component of a normalised vector: with `l` the length, the
/// component's square times `l^2` lies between `(a S)^2 - 2 S l^2` and
/// `(a S)^2`, where `S` is the raw one.
proof fn lemma_unit_component_square(a: Fixed, l: Fixed)
    requires
        0 < l.raw < MAX_RAW,
        magnitude(a.raw as int) <= l.raw,
    ensures
        ({
            let u = a.over(l).raw as int;
            let big = 0x1_0000_0000_0000_0000 * (a.raw * a.raw);
            &&& -ONE_RAW <= u <= ONE_RAW
            &&& big - 0x2_0000_0000 * (l.raw * l.raw) <= (l.raw * l.raw) * (u * u) <= big
        }),
{
    lemma_over_larger(a, l);
    let m = magnitude(a.raw as int);
    let x = m * 0x1_0000_0000;
    let li = l.raw as int;
    lemma_product_sign(a.raw as int, ONE_RAW as int);
    lemma_product_sign(a.raw as int, a.raw as int);
    assert(0 <= x) by (nonlinear_arith)
        requires
            x == m * 0x1_0000_0000,
            0 <= m,
    ;
    lemma_quotient_square(x, li);
    let q = x / li;
    let u = a.over(l).raw as int;
    assert(u == q || u == -q);
    assert(u * u == q * q) by (nonlinear_arith)
        requires
            u == q || u == -q,
    ;
    assert(x * x == 0x1_0000_0000_0000_0000 * (a.raw * a.raw)) by (nonlinear_arith)
        requires
            x == m * 0x1_0000_0000,
            m * m == a.raw * a.raw,
    ;
    assert(x * li <= 0x1_0000_0000 * (li * li)) by (nonlinear_arith)
        requires
            x == m * 0x1_0000_0000,
            0 <= m <= li,
    ;
}

/// Cancelling a positive factor from an inequality.
proof fn lemma_cancel(k: int, a: int, b: int)
    requires
        0 < k,
        k * a <= k * b,
    ensures
        a <= b,
{
    assert(a <= b) by (nonlinear_arith)
        requires
            0 < k,
            k * a <= k * b,
    ;
}

/// Cancelling a positive factor from a strict inequality.
proof fn lemma_cancel_strict(k: int, a: int, b: int)
    requires
        0 < k,
        k * a < k * b,
    ensures
        a < b,
{
    assert(a < b) by (nonlinear_arith)
        requires
            0 < k,
            k * a < k * b,
    ;
}

/// Normalising gives length one, up to rounding: the length of a
/// normalised vector falls short of one by at most four units in the
/// last place, and exceeds it by at most one over the length of the
/// vector that was normalised. The vector's length must be neither
/// zero nor saturated.
pub proof fn lemma_unit_length(v: Vec3)
    requires
        v.wf(),
        0 < v.len().raw < MAX_RAW,
    ensures
        ONE_RAW - 4 <= v.unit().len().raw <= ONE_RAW + (ONE_RAW as int) / (v.len().raw as int),
{
    let l = v.len();
    let li = l.raw as int;
    let x = v.0.raw as int;
    let y = v.1.raw as int;
    let z = v.2.raw as int;
    let n = x * x + y * y + z * z;
    assert(x * x >= 0 && y * y >= 0 && z * z >= 0) by (nonlinear_arith);
    lemma_floor_sqrt_exists(n);
    assert(li == floor_sqrt(n));
    lemma_len_bounds_components(v);
    lemma_unit_component_square(v.0, l);
    lemma_unit_component_square(v.1, l);
    lemma_unit_component_square(v.2, l);
    let u = v.unit();
    let u0 = u.0.raw as int;
    let u1 = u.1.raw as int;
    let u2 = u.2.raw as int;
    let sum = u0 * u0 + u1 * u1 + u2 * u2;
    let ll = li * li;
    assert(ll > 0) by (nonlinear_arith)
        requires
            ll == li * li,
            li > 0,
    ;
    assert(ll * sum == ll * (u0 * u0) + ll * (u1 * u1) + ll * (u2 * u2)) by (nonlinear_arith)
        requires
            sum == u0 * u0 + u1 * u1 + u2 * u2,
    ;
    // from below
    assert(ll * (0x1_0000_0000_0000_0000 - 0x6_0000_0000) == 0x1_0000_0000_0000_0000 * ll
        - 0x6_0000_0000 * ll) by (nonlinear_arith);
    assert(ll * (0x1_0000_0000_0000_0000 - 0x6_0000_0000) <= ll * sum);
    lemma_cancel(ll, 0x1_0000_0000_0000_0000 - 0x6_0000_0000, sum);
    assert((0x1_0000_0000 - 4) * (0x1_0000_0000 - 4) <= sum);
    lemma_floor_sqrt_above(sum, 0x1_0000_0000 - 4);
    // from above
    let step = 0x1_0000_0000int / li;
    let top = 0x1_0000_0000 + step + 1;
    vstd::arithmetic::div_mod::lemma_fundamental_div_mod(0x1_0000_0000, li);
    vstd::arithmetic::div_mod::lemma_mod_bound(0x1_0000_0000, li);
    vstd::arithmetic::div_mod::lemma_div_pos_is_pos(0x1_0000_0000, li);
    let reach = 0x1_0000_0000 * (li + 1);
    let over = li * top;
    assert(over == li * 0x1_0000_0000 + li * step + li) by (nonlinear_arith)
        requires
            over == li * top,
            top == 0x1_0000_0000 + step + 1,
    ;
    assert(0 < reach < over);
    assert(reach * reach < over * over) by (nonlinear_arith)
        requires
            0 < reach < over,
    ;
    assert(reach * reach == 0x1_0000_0000_0000_0000 * ((li + 1) * (li + 1))) by (nonlinear_arith)
        requires
            reach == 0x1_0000_0000 * (li + 1),
    ;
    assert(over * over == ll * (top * top)) by (nonlinear_arith)
        requires
            over == li * top,
            ll == li * li,
    ;
    assert(ll * sum < ll * (top * top));
    lemma_cancel_strict(ll, sum, top * top);
    assert(sum >= 0);
    lemma_floor_sqrt_below(sum, top);
}

/// One component of a cross product: with factors of at most one in
/// magnitude, the component times the raw one differs from the exact
/// difference of products by less than two raw ones.
proof fn lemma_cross_component(p: Fixed, q: Fixed, r: Fixed, t: Fixed)
    requires
        magnitude(p.raw as int) <= ONE_RAW,
        magnitude(q.raw as int) <= ONE_RAW,
        magnitude(r.raw as int) <= ONE_RAW,
        magnitude(t.raw as int) <= ONE_RAW,
    ensures
        ({
            let c = p.times(q).minus(r.times(t)).raw as int;
            &&& -2 * ONE_RAW <= c <= 2 * ONE_RAW
            &&& -0x2_0000_0000 < 0x1_0000_0000 * c - (p.raw * q.raw - r.raw * t.raw) < 0x2_0000_0000
        }),
{
    lemma_times_error(p, q, 1);
    lemma_times_error(r, t, 1);
}

/// The arithmetic behind the orthogonality of a cross product, on
/// plain integers: `c` are the components of the product, `e` what
/// they differ by from the exact ones, and `a` the factor.
proof fn lemma_orthogonal_bound(
    a0: int,
    a1: int,
    a2: int,
    b0: int,
    b1: int,
    b2: int,
    c0: int,
    c1: int,
    c2: int,
    d0: int,
    d1: int,
    d2: int,
)
    requires
        -0x1_0000_0000 <= a0 <= 0x1_0000_0000,
        -0x1_0000_0000 <= a1 <= 0x1_0000_0000,
        -0x1_0000_0000 <= a2 <= 0x1_0000_0000,
        -0x2_0000_0000 < 0x1_0000_0000 * c0 - (a1 * b2 - a2 * b1) < 0x2_0000_0000,
        -0x2_0000_0000 < 0x1_0000_0000 * c1 - (a2 * b0 - a0 * b2) < 0x2_0000_0000,
        -0x2_0000_0000 < 0x1_0000_0000 * c2 - (a0 * b1 - a1 * b0) < 0x2_0000_0000,
        -0x1_0000_0000 < 0x1_0000_0000 * d0 - c0 * a0 < 0x1_0000_0000,
        -0x1_0000_0000 < 0x1_0000_0000 * d1 - c1 * a1 < 0x1_0000_0000,
        -0x1_0000_0000 < 0x1_0000_0000 * d2 - c2 * a2 < 0x1_0000_0000,
    ensures
        -9 <= d0 + d1 + d2 <= 9,
{
    let e0 = 0x1_0000_0000 * c0 - (a1 * b2 - a2 * b1);
    let e1 = 0x1_0000_0000 * c1 - (a2 * b0 - a0 * b2);
    let e2 = 0x1_0000_0000 * c2 - (a0 * b1 - a1 * b0);
    let ea0 = e0 * a0;
    let ea1 = e1 * a1;
    let ea2 = e2 * a2;
    let ca0 = c0 * a0;
    let ca1 = c1 * a1;
    let ca2 = c2 * a2;
    let x12 = a1 * b2;
    let x21 = a2 * b1;
    let x20 = a2 * b0;
    let x02 = a0 * b2;
    let x01 = a0 * b1;
    let x10 = a1 * b0;
    assert(ea0 == 0x1_0000_0000 * ca0 - (x12 * a0 - x21 * a0)) by (nonlinear_arith)
        requires
            ea0 == e0 * a0,
            ca0 == c0 * a0,
            e0 == 0x1_0000_0000 * c0 - (x12 - x21),
    ;
    assert(ea1 == 0x1_0000_0000 * ca1 - (x20 * a1 - x02 * a1)) by (nonlinear_arith)
        requires
            ea1 == e1 * a1,
            ca1 == c1 * a1,
            e1 == 0x1_0000_0000 * c1 - (x20 - x02),
    ;
    assert(ea2 == 0x1_0000_0000 * ca2 - (x01 * a2 - x10 * a2)) by (nonlinear_arith)
        requires
            ea2 == e2 * a2,
            ca2 == c2 * a2,
            e2 == 0x1_0000_0000 * c2 - (x01 - x10),
    ;
    assert(x12 * a0 == x02 * a1) by (nonlinear_arith)
        requires
            x12 == a1 * b2,
            x02 == a0 * b2,
    ;
    assert(x21 * a0 == x01 * a2) by (nonlinear_arith)
        requires
            x21 == a2 * b1,
            x01 == a0 * b1,
    ;
    assert(x20 * a1 == x10 * a2) by (nonlinear_arith)
        requires
            x20 == a2 * b0,
            x10 == a1 * b0,
    ;
    assert(0x1_0000_0000 * (ca0 + ca1 + ca2) == ea0 + ea1 + ea2);
    assert(-0x2_0000_0000_0000_0000 <= ea0 <= 0x2_0000_0000_0000_0000) by (nonlinear_arith)
        requires
            ea0 == e0 * a0,
            -0x2_0000_0000 < e0 < 0x2_0000_0000,
            -0x1_0000_0000 <= a0 <= 0x1_0000_0000,
    ;
    assert(-0x2_0000_0000_0000_0000 <= ea1 <= 0x2_0000_0000_0000_0000) by (nonlinear_arith)
        requires
            ea1 == e1 * a1,
            -0x2_0000_0000 < e1 < 0x2_0000_0000,
            -0x1_0000_0000 <= a1 <= 0x1_0000_0000,
    ;
    assert(-0x2_0000_0000_0000_0000 <= ea2 <= 0x2_0000_0000_0000_0000) by (nonlinear_arith)
        requires
            ea2 == e2 * a2,
            -0x2_0000_0000 < e2 < 0x2_0000_0000,
            -0x1_0000_0000 <= a2 <= 0x1_0000_0000,
    ;
}

/// Each component of a cross product of vectors with components of at
/// most one in magnitude is at most two in magnitude.
pub proof fn lemma_cross_reach(a: Vec3, b: Vec3)
    requires
        a.within_one(),
        b.within_one(),
    ensures
        magnitude(a.x(b).0.raw as int) <= 2 * ONE_RAW,
        magnitude(a.x(b).1.raw as int) <= 2 * ONE_RAW,
        magnitude(a.x(b).2.raw as int) <= 2 * ONE_RAW,
{
    lemma_cross_component(a.1, b.2, a.2, b.1);
    lemma_cross_component(a.2, b.0, a.0, b.2);
    lemma_cross_component(a.0, b.1, a.1, b.0);
}

/// The length of a vector with components of at most two in magnitude
/// is at most four.
pub proof fn lemma_len_reach(v: Vec3)
    requires
        magnitude(v.0.raw as int) <= 2 * ONE_RAW,
        magnitude(v.1.raw as int) <= 2 * ONE_RAW,
        magnitude(v.2.raw as int) <= 2 * ONE_RAW,
    ensures
        0 <= v.len().raw <= 4 * ONE_RAW,
{
    let x = v.0.raw as int;
    let y = v.1.raw as int;
    let z = v.2.raw as int;
    assert(0 <= x * x <= 0x4_0000_0000_0000_0000) by (nonlinear_arith)
        requires
            -0x2_0000_0000 <= x <= 0x2_0000_0000,
    ;
    assert(0 <= y * y <= 0x4_0000_0000_0000_0000) by (nonlinear_arith)
        requires
            -0x2_0000_0000 <= y <= 0x2_0000_0000,
    ;
    assert(0 <= z * z <= 0x4_0000_0000_0000_0000) by (nonlinear_arith)
        requires
            -0x2_0000_0000 <= z <= 0x2_0000_0000,
    ;
    lemma_floor_sqrt_below(x * x + y * y + z * z, 0x4_0000_0000int);
}

/// A cross product stands at right angles to its factors, up to
/// rounding: for factors with components of at most one in magnitude
/// its dot product with either factor is at most nine units in the
/// last place in magnitude.
pub proof fn lemma_cross_orthogonal(a: Vec3, b: Vec3)
    requires
        a.within_one(),
        b.within_one(),
    ensures
        magnitude(a.x(b).dot(a).raw as int) <= 9,
        magnitude(a.x(b).dot(b).raw as int) <= 9,
{
    let c = a.x(b);
    lemma_cross_component(a.1, b.2, a.2, b.1);
    lemma_cross_component(a.2, b.0, a.0, b.2);
    lemma_cross_component(a.0, b.1, a.1, b.0);
    lemma_times_error(c.0, a.0, 2);
    lemma_times_error(c.1, a.1, 2);
    lemma_times_error(c.2, a.2, 2);
    lemma_times_error(c.0, b.0, 2);
    lemma_times_error(c.1, b.1, 2);
    lemma_times_error(c.2, b.2, 2);
    lemma_orthogonal_bound(
        a.0.raw as int,
        a.1.raw as int,
        a.2.raw as int,
        b.0.raw as int,
        b.1.raw as int,
        b.2.raw as int,
        c.0.raw as int,
        c.1.raw as int,
        c.2.raw as int,
        c.0.times(a.0).raw as int,
        c.1.times(a.1).raw as int,
        c.2.times(a.2).raw as int,
    );
    // b x a is the opposite of a x b, component by component
    assert(b.1.raw * a.2.raw - b.2.raw * a.1.raw == -(a.1.raw * b.2.raw - a.2.raw * b.1.raw))
        by (nonlinear_arith);
    assert(b.2.raw * a.0.raw - b.0.raw * a.2.raw == -(a.2.raw * b.0.raw - a.0.raw * b.2.raw))
        by (nonlinear_arith);
    assert(b.0.raw * a.1.raw - b.1.raw * a.0.raw == -(a.0.raw * b.1.raw - a.1.raw * b.0.raw))
        by (nonlinear_arith);
    assert((-c.0.raw) * b.0.raw == -(c.0.raw * b.0.raw)) by (nonlinear_arith);
    assert((-c.1.raw) * b.1.raw == -(c.1.raw * b.1.raw)) by (nonlinear_arith);
    assert((-c.2.raw) * b.2.raw == -(c.2.raw * b.2.raw)) by (nonlinear_arith);
    lemma_orthogonal_bound(
        b.0.raw as int,
        b.1.raw as int,
        b.2.raw as int,
        a.0.raw as int,
        a.1.raw as int,
        a.2.raw as int,
        -c.0.raw as int,
        -c.1.raw as int,
        -c.2.raw as int,
        -c.0.times(b.0).raw as int,
        -c.1.times(b.1).raw as int,
        -c.2.times(b.2).raw as int,
    );
}

/// One component's share in the dot product of a normalised vector
/// with another vector: `u` is the component `c` over the length `l`.
proof fn lemma_unit_dot_component(c: Fixed, l: Fixed, k: Fixed)
    requires
        0 < l.raw,
        magnitude(c.raw as int) <= l.raw,
        magnitude(c.raw as int) <= 16 * ONE_RAW,
        magnitude(k.raw as int) <= ONE_RAW,
    ensures
        ({
            let d = c.over(l).times(k).raw as int;
            let g = c.times(k).raw as int;
            &&& -ONE_RAW <= d <= ONE_RAW
            &&& -16 * ONE_RAW <= g <= 16 * ONE_RAW
            &&& -(0x1_0000_0000_0000_0000 + 0x2_0000_0000 * l.raw) <= l.raw * (0x1_0000_0000 * d)
                - 0x1_0000_0000_0000_0000 * g <= 0x1_0000_0000_0000_0000 + 0x2_0000_0000 * l.raw
        }),
{
    let u = c.over(l);
    lemma_over_error(c, l);
    lemma_times_error(u, k, 1);
    lemma_times_error(c, k, 16);
    let li = l.raw as int;
    let ui = u.raw as int;
    let ki = k.raw as int;
    let ci = c.raw as int;
    let d = u.times(k).raw as int;
    let g = c.times(k).raw as int;
    let uk = ui * ki;
    let ck = ci * ki;
    let e = 0x1_0000_0000 * d - uk;
    let f = 0x1_0000_0000 * g - ck;
    let rho = li * ui - 0x1_0000_0000 * ci;
    let rk = rho * ki;
    assert(rk == li * uk - 0x1_0000_0000 * ck) by (nonlinear_arith)
        requires
            rk == rho * ki,
            rho == li * ui - 0x1_0000_0000 * ci,
            uk == ui * ki,
            ck == ci * ki,
    ;
    assert(-(0x1_0000_0000 * li) <= rk <= 0x1_0000_0000 * li) by (nonlinear_arith)
        requires
            rk == rho * ki,
            -li < rho < li,
            -0x1_0000_0000 <= ki <= 0x1_0000_0000,
    ;
    let le = li * e;
    assert(le == li * (0x1_0000_0000 * d) - li * uk) by (nonlinear_arith)
        requires
            le == li * e,
            e == 0x1_0000_0000 * d - uk,
    ;
    assert(-(0x1_0000_0000 * li) <= le <= 0x1_0000_0000 * li) by (nonlinear_arith)
        requires
            le == li * e,
            -0x1_0000_0000 < e < 0x1_0000_0000,
            li > 0,
    ;
    assert(li * (0x1_0000_0000 * d) - 0x1_0000_0000_0000_0000 * g == le + rk - 0x1_0000_0000 * f);
}

/// Normalising keeps right angles, up to rounding: the dot product of
/// a normalised vector with a vector `k`, times the length `l` of the
/// vector that was normalised, is at most the dot product before
/// normalising and three units in the last place more, plus six
/// units for each unit of `l`.
pub proof fn lemma_unit_dot(c: Vec3, k: Vec3)
    requires
        0 < c.len().raw < MAX_RAW,
        magnitude(c.0.raw as int) <= 16 * ONE_RAW,
        magnitude(c.1.raw as int) <= 16 * ONE_RAW,
        magnitude(c.2.raw as int) <= 16 * ONE_RAW,
        k.within_one(),
    ensures
        c.len().raw * magnitude(c.unit().dot(k).raw as int) <= ONE_RAW * (magnitude(
            c.dot(k).raw as int,
        ) + 3) + 6 * c.len().raw,
{
    let l = c.len();
    let li = l.raw as int;
    lemma_len_bounds_components(c);
    lemma_unit_dot_component(c.0, l, k.0);
    lemma_unit_dot_component(c.1, l, k.1);
    lemma_unit_dot_component(c.2, l, k.2);
    let u = c.unit();
    let d0 = u.0.times(k.0).raw as int;
    let d1 = u.1.times(k.1).raw as int;
    let d2 = u.2.times(k.2).raw as int;
    let g0 = c.0.times(k.0).raw as int;
    let g1 = c.1.times(k.1).raw as int;
    let g2 = c.2.times(k.2).raw as int;
    let d = u.dot(k).raw as int;
    let g = c.dot(k).raw as int;
    assert(d == d0 + d1 + d2);
    assert(g == g0 + g1 + g2);
    let ld = li * (0x1_0000_0000 * d);
    assert(ld == li * (0x1_0000_0000 * d0) + li * (0x1_0000_0000 * d1) + li * (0x1_0000_0000 * d2))
        by (nonlinear_arith)
        requires
            ld == li * (0x1_0000_0000 * d),
            d == d0 + d1 + d2,
    ;
    let bound = 0x3_0000_0000_0000_0000 + 0x6_0000_0000 * li;
    assert(-bound <= ld - 0x1_0000_0000_0000_0000 * g <= bound);
    let md = magnitude(d);
    let mg = magnitude(g);
    let lmd = li * md;
    assert(0x1_0000_0000 * lmd == magnitude(ld)) by (nonlinear_arith)
        requires
            lmd == li * md,
            ld == li * (0x1_0000_0000 * d),
            md == if d < 0 { -d } else { d },
            magnitude(ld) == if ld < 0 { -ld } else { ld },
            li > 0,
    ;
    assert(0x1_0000_0000 * lmd <= 0x1_0000_0000_0000_0000 * mg + bound);
}

/// The origin lies inside the unit sphere.
pub proof fn lemma_origin_inside()
    ensures
        Vec3(Fixed { raw: 0 }, Fixed { raw: 0 }, Fixed { raw: 0 }).inside_unit(),
{
    let z = Fixed { raw: 0 };
    assert(z.raw * z.raw == 0);
    assert(z.times(z) == z);
    assert(z.plus(z) == z);
}

/// A square of a magnitude below `2^63 + 1` is at most `2^126`.
proof fn lemma_square_bound(a: int)
    requires
        0 <= a <= 0x8000_0000_0000_0000,
    ensures
        0 <= a * a <= 0x4000_0000_0000_0000_0000_0000_0000_0000,
{
    assert(0 <= a * a <= 0x4000_0000_0000_0000_0000_0000_0000_0000) by (nonlinear_arith)
        requires
            0 <= a <= 0x8000_0000_0000_0000,
    ;
}

} // verus!
