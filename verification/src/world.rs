//! The scene: an ordered collection of surfaces.

use crate::fixed::Fixed;
use crate::interval::Interval;
use crate::materials::Materials;
use crate::ray::Ray;
use crate::sphere::{lemma_hit_faces_ray, lemma_hit_in_narrower_range, Sphere};
use crate::surface::{HitRecord, Hittable};
use vstd::prelude::*;

verus! {

/// The surfaces a scene can hold.
#[derive(Clone, Copy, Debug, PartialEq, Eq, Structural)]
pub enum Surfaces {
    Sphere(Sphere),
}

impl Hittable for Surfaces {
    open spec fn hit_spec(&self, r: Ray, t_range: Interval) -> Option<HitRecord> {
        match *self {
            Surfaces::Sphere(sphere) => sphere.hit_spec(r, t_range),
        }
    }

    fn hit(&self, r: Ray, t_range: Interval, rec: &mut HitRecord) -> (found: bool)
        ensures
            found ==> t_range.surrounds(final(rec).t),
            found ==> r.dir.dot(final(rec).n).raw <= 0,
    {
        match self {
            Surfaces::Sphere(sphere) => sphere.hit(r, t_range, rec),
        }
    }
}

/// A scene.
#[derive(Clone, Debug)]
pub struct World {
    pub surfaces: Vec<Surfaces>,
}

/// The upper bound under which the next surface is searched: the
/// parameter of the best hit so far, or the end of the range.
pub open spec fn bound_after(best: Option<HitRecord>, t_range: Interval) -> Fixed {
    match best {
        Some(h) => h.t,
        None => t_range.max,
    }
}

/// The best hit among the first `k` surfaces: each surface in turn is
/// searched only below the best hit so far, and a hit found there
/// replaces it.
pub open spec fn closest_among(surfaces: Seq<Surfaces>, r: Ray, t_range: Interval, k: nat) -> Option<
    HitRecord,
>
    decreases k,
{
    if k == 0 {
        None
    } else {
        let best = closest_among(surfaces, r, t_range, (k - 1) as nat);
        let nearer = surfaces[k - 1].hit_spec(
            r,
            Interval { min: t_range.min, max: bound_after(best, t_range) },
        );
        if nearer.is_some() {
            nearer
        } else {
            best
        }
    }
}

impl Surfaces {
    /// The material of the surface.
    pub open spec fn material(self) -> Materials {
        match self {
            Surfaces::Sphere(sphere) => sphere.mat,
        }
    }
}

impl World {
    /// No surface of the scene passes on more light than it receives.
    pub open spec fn wf(self) -> bool {
        forall|j: int| 0 <= j < self.surfaces@.len() ==> (#[trigger] self.surfaces@[j]).material().wf()
    }
}

impl Hittable for World {
    open spec fn hit_spec(&self, r: Ray, t_range: Interval) -> Option<HitRecord> {
        closest_among(self.surfaces@, r, t_range, self.surfaces@.len())
    }

    fn hit(&self, r: Ray, t_range: Interval, rec: &mut HitRecord) -> (found: bool)
        ensures
            found ==> t_range.surrounds(final(rec).t),
            found ==> r.dir.dot(final(rec).n).raw <= 0,
            found ==> exists|winner: int|
                closest_at(self.surfaces@, r, t_range, self.surfaces@.len(), winner, *final(rec)),
            !found ==> forall|j: int|
                0 <= j < self.surfaces@.len() ==> (#[trigger] self.surfaces@[j].hit_spec(
                    r,
                    t_range,
                )).is_none(),
    {
        proof {
            lemma_closest_hit_wins(self.surfaces@, r, t_range, self.surfaces@.len());
        }
        let mut temp_rec: HitRecord = HitRecord::new_empty();
        let mut world_hit: bool = false;
        let mut nearest: Fixed = t_range.max;
        let mut i: usize = 0;
        while i < self.surfaces.len()
            invariant
                i <= self.surfaces@.len(),
                world_hit == closest_among(self.surfaces@, r, t_range, i as nat).is_some(),
                world_hit ==> *rec == closest_among(self.surfaces@, r, t_range, i as nat).unwrap(),
                !world_hit ==> *rec == *old(rec),
                nearest == bound_after(closest_among(self.surfaces@, r, t_range, i as nat), t_range),
                nearest.raw <= t_range.max.raw,
                world_hit ==> t_range.surrounds(rec.t),
                world_hit ==> r.dir.dot(rec.n).raw <= 0,
            decreases self.surfaces@.len() - i,
        {
            if self.surfaces[i].hit(r, Interval { min: t_range.min, max: nearest }, &mut temp_rec) {
                nearest = temp_rec.t;
                world_hit = true;
                *rec = temp_rec;
            }
            i = i + 1;
        }
        world_hit
    }
}

/// Whether `best` is the hit of the surface at `winner` and no surface
/// among the first `k` is hit nearer, nor an earlier one as near.
pub open spec fn closest_at(
    surfaces: Seq<Surfaces>,
    r: Ray,
    t_range: Interval,
    k: nat,
    winner: int,
    best: HitRecord,
) -> bool {
    &&& 0 <= winner < k
    &&& surfaces[winner].hit_spec(r, t_range) == Some(best)
    &&& forall|j: int|
        0 <= j < k ==> match #[trigger] surfaces[j].hit_spec(r, t_range) {
            Some(h) => best.t.raw < h.t.raw || (best.t.raw == h.t.raw && winner <= j),
            None => true,
        }
}

/// The closest hit wins: the scan of the first `k` surfaces yields the
/// hit, in the whole range, of the surface that is hit nearest, the
/// earliest of them where several are hit as near; it yields none
/// exactly when no surface is hit in the range.
pub proof fn lemma_closest_hit_wins(surfaces: Seq<Surfaces>, r: Ray, t_range: Interval, k: nat)
    requires
        k <= surfaces.len(),
    ensures
        match closest_among(surfaces, r, t_range, k) {
            Some(best) => exists|winner: int| closest_at(surfaces, r, t_range, k, winner, best),
            None => forall|j: int| 0 <= j < k ==> (#[trigger] surfaces[j].hit_spec(r, t_range)).is_none(),
        },
    decreases k,
{
    if k > 0 {
        let seen = (k - 1) as nat;
        lemma_closest_hit_wins(surfaces, r, t_range, seen);
        let before = closest_among(surfaces, r, t_range, seen);
        let bound = bound_after(before, t_range);
        let Surfaces::Sphere(s) = surfaces[k - 1];
        match before {
            Some(b) => {
                let w = choose|w: int| #[trigger] closest_at(surfaces, r, t_range, seen, w, b);
                let Surfaces::Sphere(sw) = surfaces[w];
                lemma_hit_faces_ray(sw, r, t_range);
                lemma_hit_in_narrower_range(s, r, t_range, bound);
                match s.hit_spec(r, Interval { min: t_range.min, max: bound }) {
                    Some(h) => {
                        assert(closest_at(surfaces, r, t_range, k, k - 1, h));
                    },
                    None => {
                        assert(closest_at(surfaces, r, t_range, k, w, b));
                    },
                }
            },
            None => {
                assert(Interval { min: t_range.min, max: bound } == t_range);
                match s.hit_spec(r, t_range) {
                    Some(h) => {
                        assert(closest_at(surfaces, r, t_range, k, k - 1, h));
                    },
                    None => {},
                }
            },
        }
    }
}

/// The scan never searches an empty range: where the range searched in
/// has its bounds in order, so has the range in which each surface is
/// searched, and that range lies inside the first.
pub proof fn lemma_scan_ranges_ordered(surfaces: Seq<Surfaces>, r: Ray, t_range: Interval, k: nat)
    requires
        k <= surfaces.len(),
        t_range.min.raw <= t_range.max.raw,
    ensures
        t_range.min.raw <= bound_after(closest_among(surfaces, r, t_range, k), t_range).raw
            <= t_range.max.raw,
{
    lemma_closest_hit_wins(surfaces, r, t_range, k);
    if let Some(best) = closest_among(surfaces, r, t_range, k) {
        let w = choose|w: int| closest_at(surfaces, r, t_range, k, w, best);
        let Surfaces::Sphere(s) = surfaces[w];
        lemma_hit_faces_ray(s, r, t_range);
    }
}

/// A hit in the scene lies strictly inside the range; its normal is in
/// range and does not point along the ray; its material is that of a
/// surface of the scene.
pub proof fn lemma_world_hit(world: World, r: Ray, t_range: Interval)
    ensures
        match world.hit_spec(r, t_range) {
            Some(rec) => {
                &&& t_range.surrounds(rec.t)
                &&& rec.p == r.at(rec.t)
                &&& rec.n.wf()
                &&& r.dir.dot(rec.n).raw <= 0
                &&& exists|j: int|
                    0 <= j < world.surfaces@.len() && rec.mat == (#[trigger] world.surfaces@[j]).material()
            },
            None => true,
        },
{
    lemma_closest_hit_wins(world.surfaces@, r, t_range, world.surfaces@.len());
    if let Some(rec) = world.hit_spec(r, t_range) {
        let w = choose|w: int|
            closest_at(world.surfaces@, r, t_range, world.surfaces@.len(), w, rec);
        let Surfaces::Sphere(s) = world.surfaces@[w];
        lemma_hit_faces_ray(s, r, t_range);
        assert(rec.mat == world.surfaces@[w].material());
    }
}

} // verus!
