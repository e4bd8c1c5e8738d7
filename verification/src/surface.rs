//! Intersection records and the capability of being hit by a ray.

use crate::fixed::{Fixed, MAX_RAW};
use crate::interval::Interval;
use crate::materials::{Lambertian, Materials};
use crate::ray::Ray;
use crate::vec3::{lemma_dot_neg, Vec3};
use vstd::prelude::*;

verus! {

/// Where and how a ray meets a surface.
#[derive(Clone, Copy, Debug, PartialEq, Eq, Structural)]
pub struct HitRecord {
    /// The point of the hit.
    pub p: Vec3,
    /// The surface normal there, turned against the ray.
    pub n: Vec3,
    /// The ray parameter of the hit.
    pub t: Fixed,
    /// Whether the ray meets the surface from outside.
    pub front: bool,
    /// The material of the surface.
    pub mat: Materials,
}

impl HitRecord {
    /// The record of no hit yet: at infinite distance, with a material
    /// that absorbs all light.
    pub open spec fn empty() -> HitRecord {
        HitRecord {
            p: Vec3(Fixed { raw: 0 }, Fixed { raw: 0 }, Fixed { raw: 0 }),
            n: Vec3(Fixed { raw: 0 }, Fixed { raw: 0 }, Fixed { raw: 0 }),
            t: Fixed { raw: MAX_RAW },
            front: true,
            mat: Materials::Lambertian(
                Lambertian { color: Vec3(Fixed { raw: 0 }, Fixed { raw: 0 }, Fixed { raw: 0 }) },
            ),
        }
    }

    /// Whether a ray `r` meets from outside a surface whose outward
    /// normal is `outward_normal`.
    pub open spec fn faces(r: Ray, outward_normal: Vec3) -> bool {
        r.dir.dot(outward_normal).raw < 0
    }

    /// The normal turned against the ray `r`.
    pub open spec fn against(r: Ray, outward_normal: Vec3) -> Vec3 {
        if HitRecord::faces(r, outward_normal) {
            outward_normal
        } else {
            outward_normal.neg()
        }
    }

    /// Makes the record of no hit yet.
    #[verifier::when_used_as_spec(empty)]
    pub fn new_empty() -> (rec: HitRecord)
        ensures
            rec == HitRecord::empty(),
    {
        HitRecord {
            p: Vec3::zero(),
            n: Vec3::zero(),
            t: Fixed::max_value(),
            front: true,
            mat: Materials::Lambertian(Lambertian { color: Vec3::zero() }),
        }
    }

    /// Records on which side the ray `r` meets the surface, and the
    /// normal turned against it. The recorded normal never points
    /// along the ray.
    pub fn set_face_normal(&mut self, r: Ray, outward_normal: Vec3)
        ensures
            final(self).front == HitRecord::faces(r, outward_normal),
            final(self).n == HitRecord::against(r, outward_normal),
            final(self).p == old(self).p,
            final(self).t == old(self).t,
            final(self).mat == old(self).mat,
            outward_normal.wf() ==> r.dir.dot(final(self).n).raw <= 0,
    {
        self.front = r.dir.dot(outward_normal).raw < 0;
        self.n = if self.front {
            outward_normal
        } else {
            outward_normal.neg()
        };
        proof {
            if outward_normal.wf() {
                lemma_dot_neg(r.dir, outward_normal);
            }
        }
    }
}

/// A surface that a ray can hit.
pub trait Hittable {
    /// The hit of the ray `r` whose parameter lies strictly inside
    /// `t_range`, if there is one.
    spec fn hit_spec(&self, r: Ray, t_range: Interval) -> Option<HitRecord>;

    /// Looks for a hit of the ray `r` with parameter strictly inside
    /// `t_range`. On a hit, `rec` receives the record; else it is left
    /// as it was.
    fn hit(&self, r: Ray, t_range: Interval, rec: &mut HitRecord) -> (found: bool)
        ensures
            found == self.hit_spec(r, t_range).is_some(),
            found ==> *final(rec) == self.hit_spec(r, t_range).unwrap(),
            !found ==> *final(rec) == *old(rec),
    ;
}

} // verus!
