//! Spheres.

use crate::fixed::{lemma_over_monotone, lemma_sqrt_not_negative, Fixed};
use crate::interval::Interval;
use crate::materials::Materials;
use crate::ray::Ray;
use crate::surface::{HitRecord, Hittable};
use crate::vec3::{lemma_dot_neg, lemma_l2norm_not_negative, Vec3};
use vstd::prelude::*;

verus! {

/// The points at distance `|radius|` from `center`. A negative radius
/// turns the outward normal inward.
#[derive(Clone, Copy, Debug, PartialEq, Eq, Structural)]
pub struct Sphere {
    pub center: Vec3,
    pub radius: Fixed,
    pub mat: Materials,
}

impl Sphere {
    /// Half the linear coefficient of the equation
    /// `|ori + t * dir - center|^2 = radius^2` in `t`.
    pub open spec fn half_b(self, r: Ray) -> Fixed {
        r.ori.minus(self.center).dot(r.dir)
    }

    /// A quarter of the discriminant of that equation.
    pub open spec fn discriminant(self, r: Ray) -> Fixed {
        let oc = r.ori.minus(self.center);
        let c = oc.l2norm().minus(self.radius.times(self.radius));
        self.half_b(r).times(self.half_b(r)).minus(r.dir.l2norm().times(c))
    }

    /// The smaller root of the equation.
    pub open spec fn near_root(self, r: Ray) -> Fixed {
        self.half_b(r).neg().minus(self.discriminant(r).sqrt()).over(r.dir.l2norm())
    }

    /// The larger root of the equation.
    pub open spec fn far_root(self, r: Ray) -> Fixed {
        self.half_b(r).neg().plus(self.discriminant(r).sqrt()).over(r.dir.l2norm())
    }

    /// The parameter at which the ray `r` meets the sphere strictly
    /// inside `t_range`: the smaller root if it lies there, else the
    /// larger one if that does, else none. A negative discriminant
    /// leaves no root.
    #[verifier::opaque]
    pub open spec fn root_in(self, r: Ray, t_range: Interval) -> Option<Fixed> {
        if self.discriminant(r).raw < 0 {
            None
        } else if t_range.surrounds(self.near_root(r)) {
            Some(self.near_root(r))
        } else if t_range.surrounds(self.far_root(r)) {
            Some(self.far_root(r))
        } else {
            None
        }
    }

    /// The outward normal at the point `p` of the sphere.
    pub open spec fn outward_normal(self, p: Vec3) -> Vec3 {
        p.minus(self.center).over(self.radius)
    }

    /// The record of the hit of the ray `r` at parameter `t`.
    #[verifier::opaque]
    pub open spec fn record_at(self, r: Ray, t: Fixed) -> HitRecord {
        let p = r.at(t);
        HitRecord {
            p,
            n: HitRecord::against(r, self.outward_normal(p)),
            t,
            front: HitRecord::faces(r, self.outward_normal(p)),
            mat: self.mat,
        }
    }
}

impl Hittable for Sphere {
    open spec fn hit_spec(&self, r: Ray, t_range: Interval) -> Option<HitRecord> {
        match self.root_in(r, t_range) {
            Some(t) => Some(self.record_at(r, t)),
            None => None,
        }
    }

    fn hit(&self, r: Ray, t_range: Interval, rec: &mut HitRecord) -> (found: bool)
        ensures
            found ==> t_range.surrounds(final(rec).t),
            found ==> r.dir.dot(final(rec).n).raw <= 0,
            found ==> final(rec).front == (r.dir.dot(self.outward_normal(final(rec).p)).raw < 0),
            found ==> final(rec).mat == self.mat,
    {
        proof {
            reveal(Sphere::root_in);
            reveal(Sphere::record_at);
        }
        let oc: Vec3 = r.ori.minus(self.center);
        let a: Fixed = r.dir.l2norm();
        let half_b: Fixed = oc.dot(r.dir);
        let c: Fixed = oc.l2norm().minus(self.radius.times(self.radius));
        let discriminant: Fixed = half_b.times(half_b).minus(a.times(c));
        if discriminant.raw < 0 {
            return false;
        }
        let sqrt_d: Fixed = discriminant.sqrt();
        let mut root: Fixed = half_b.neg().minus(sqrt_d).over(a);
        if !t_range.surrounds(root) {
            root = half_b.neg().plus(sqrt_d).over(a);
            if !t_range.surrounds(root) {
                return false;
            }
        }
        rec.t = root;
        rec.p = r.at(rec.t);
        let outward_normal: Vec3 = rec.p.minus(self.center).over(self.radius);
        rec.set_face_normal(r, outward_normal);
        rec.mat = self.mat;
        true
    }
}

/// The smaller root is not above the larger one.
pub proof fn lemma_roots_ordered(s: Sphere, r: Ray)
    ensures
        s.near_root(r).raw <= s.far_root(r).raw,
{
    lemma_sqrt_not_negative(s.discriminant(r));
    lemma_l2norm_not_negative(r.dir);
    lemma_over_monotone(
        s.half_b(r).neg().minus(s.discriminant(r).sqrt()),
        s.half_b(r).neg().plus(s.discriminant(r).sqrt()),
        r.dir.l2norm(),
    );
}

/// The nearer root comes first: a ray meets the sphere in a range
/// exactly where the discriminant is not negative and one of the two
/// roots lies strictly inside the range, and at the smaller root
/// wherever that one lies inside.
pub proof fn lemma_nearer_root_first(s: Sphere, r: Ray, t_range: Interval)
    ensures
        s.hit_spec(r, t_range).is_some() <==> s.discriminant(r).raw >= 0 && (t_range.surrounds(
            s.near_root(r),
        ) || t_range.surrounds(s.far_root(r))),
        s.hit_spec(r, t_range).is_some() ==> s.hit_spec(r, t_range).unwrap().t == (if t_range.surrounds(
            s.near_root(r),
        ) {
            s.near_root(r)
        } else {
            s.far_root(r)
        }),
        s.near_root(r).raw <= s.far_root(r).raw,
{
    reveal(Sphere::root_in);
    reveal(Sphere::record_at);
    lemma_roots_ordered(s, r);
}

/// A hit lies strictly inside the range it was searched in; its normal
/// does not point along the ray, and its front flag tells whether the
/// outward normal points against the ray.
pub proof fn lemma_hit_faces_ray(s: Sphere, r: Ray, t_range: Interval)
    ensures
        match s.hit_spec(r, t_range) {
            Some(rec) => {
                &&& t_range.surrounds(rec.t)
                &&& rec.p == r.at(rec.t)
                &&& rec.n.wf()
                &&& r.dir.dot(rec.n).raw <= 0
                &&& rec.front == (r.dir.dot(s.outward_normal(rec.p)).raw < 0)
                &&& rec.mat == s.mat
            },
            None => true,
        },
{
    reveal(Sphere::root_in);
    reveal(Sphere::record_at);
    if let Some(rec) = s.hit_spec(r, t_range) {
        lemma_dot_neg(r.dir, s.outward_normal(rec.p));
    }
}

/// Narrowing the range from above keeps a hit that lies inside the
/// narrower range, and brings no other hit.
pub proof fn lemma_hit_in_narrower_range(s: Sphere, r: Ray, t_range: Interval, bound: Fixed)
    requires
        bound.raw <= t_range.max.raw,
    ensures
        ({
            let narrow = Interval { min: t_range.min, max: bound };
            match s.hit_spec(r, narrow) {
                Some(rec) => s.hit_spec(r, t_range) == Some(rec) && rec.t.raw < bound.raw,
                None => match s.hit_spec(r, t_range) {
                    Some(rec) => bound.raw <= rec.t.raw,
                    None => true,
                },
            }
        }),
{
    reveal(Sphere::root_in);
    reveal(Sphere::record_at);
    lemma_roots_ordered(s, r);
}

} // verus!
