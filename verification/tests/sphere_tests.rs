use raytrace::fixed::{Fixed, MAX_RAW};
use raytrace::interval::Interval;
use raytrace::materials::{Lambertian, Materials, Metal};
use raytrace::random::Sampler;
use raytrace::ray::Ray;
use raytrace::sphere::Sphere;
use raytrace::surface::{HitRecord, Hittable};
use raytrace::vec3::Vec3;
use raytrace::world::{Surfaces, World};

fn fx(x: f64) -> Fixed {
    Fixed::from_raw((x * 4294967296.0).round() as i64)
}

fn fl(x: Fixed) -> f64 {
    x.raw as f64 / 4294967296.0
}

fn v(x: f64, y: f64, z: f64) -> Vec3 {
    Vec3(fx(x), fx(y), fx(z))
}

fn gray() -> Materials {
    Materials::Lambertian(Lambertian { color: v(0.5, 0.5, 0.5) })
}

fn mirror() -> Materials {
    Materials::Metal(Metal { color: v(0.8, 0.8, 0.8), fuzz: fx(0.0) })
}

fn forward() -> Interval {
    Interval { min: fx(0.0001), max: Fixed { raw: MAX_RAW } }
}

#[test]
fn new_empty_is_at_infinity() {
    let rec = HitRecord::new_empty();
    assert_eq!(rec.p, v(0.0, 0.0, 0.0));
    assert_eq!(rec.n, v(0.0, 0.0, 0.0));
    assert_eq!(rec.t.raw, MAX_RAW);
    assert!(rec.front);
    assert_eq!(rec.mat, Materials::Lambertian(Lambertian { color: v(0.0, 0.0, 0.0) }));
}

#[test]
fn set_face_normal_keeps_a_normal_that_faces_the_ray() {
    let mut rec = HitRecord::new_empty();
    rec.t = fx(3.0);
    rec.p = v(1.0, 2.0, 3.0);
    let r = Ray { ori: v(0.0, 0.0, 0.0), dir: v(0.0, 0.0, -1.0) };
    rec.set_face_normal(r, v(0.0, 0.0, 1.0));
    assert!(rec.front);
    assert_eq!(rec.n, v(0.0, 0.0, 1.0));
    assert_eq!(rec.t, fx(3.0));
    assert_eq!(rec.p, v(1.0, 2.0, 3.0));
}

#[test]
fn set_face_normal_turns_a_normal_that_points_along_the_ray() {
    let mut rec = HitRecord::new_empty();
    let r = Ray { ori: v(0.0, 0.0, 0.0), dir: v(0.0, 0.0, -1.0) };
    rec.set_face_normal(r, v(0.0, 0.6, -0.8));
    assert!(!rec.front);
    assert_eq!(rec.n, v(0.0, -0.6, 0.8));
}

#[test]
fn set_face_normal_counts_a_grazing_ray_as_back() {
    let mut rec = HitRecord::new_empty();
    let r = Ray { ori: v(0.0, 0.0, 0.0), dir: v(1.0, 0.0, 0.0) };
    rec.set_face_normal(r, v(0.0, 1.0, 0.0));
    assert!(!rec.front);
    assert_eq!(rec.n, v(0.0, -1.0, 0.0));
}

#[test]
fn ray_aimed_at_a_sphere_reports_the_nearer_root() {
    let s = Sphere { center: v(0.0, 0.0, -1.0), radius: fx(0.5), mat: gray() };
    let r = Ray { ori: v(0.0, 0.0, 0.0), dir: v(0.0, 0.0, -1.0) };
    let mut rec = HitRecord::new_empty();
    assert!(s.hit(r, forward(), &mut rec));
    assert_eq!(rec.t, fx(0.5));
    assert_eq!(rec.p, v(0.0, 0.0, -0.5));
    assert_eq!(rec.n, v(0.0, 0.0, 1.0));
    assert!(rec.front);
    assert_eq!(rec.mat, gray());
}

#[test]
fn ray_that_misses_reports_no_hit_and_leaves_the_record() {
    let s = Sphere { center: v(0.0, 0.0, -1.0), radius: fx(0.5), mat: gray() };
    let r = Ray { ori: v(0.0, 0.0, 0.0), dir: v(0.0, 1.0, 0.0) };
    let mut rec = HitRecord::new_empty();
    rec.t = fx(77.0);
    rec.p = v(1.0, 2.0, 3.0);
    rec.mat = mirror();
    let before = rec;
    assert!(!s.hit(r, forward(), &mut rec));
    assert_eq!(rec, before);
}

#[test]
fn sphere_behind_the_ray_is_not_hit() {
    let s = Sphere { center: v(0.0, 0.0, 1.0), radius: fx(0.5), mat: gray() };
    let r = Ray { ori: v(0.0, 0.0, 0.0), dir: v(0.0, 0.0, -1.0) };
    let mut rec = HitRecord::new_empty();
    assert!(!s.hit(r, forward(), &mut rec));
    assert_eq!(rec, HitRecord::new_empty());
}

#[test]
fn farther_root_is_taken_when_the_nearer_is_out_of_range() {
    let s = Sphere { center: v(0.0, 0.0, -1.0), radius: fx(0.5), mat: gray() };
    let r = Ray { ori: v(0.0, 0.0, 0.0), dir: v(0.0, 0.0, -1.0) };
    let mut rec = HitRecord::new_empty();
    let range = Interval { min: fx(0.75), max: fx(10.0) };
    assert!(s.hit(r, range, &mut rec));
    assert_eq!(rec.t, fx(1.5));
    assert_eq!(rec.p, v(0.0, 0.0, -1.5));
    assert!(!rec.front);
    assert_eq!(rec.n, v(0.0, 0.0, 1.0));
}

#[test]
fn range_bounds_are_exclusive() {
    let s = Sphere { center: v(0.0, 0.0, -1.0), radius: fx(0.5), mat: gray() };
    let r = Ray { ori: v(0.0, 0.0, 0.0), dir: v(0.0, 0.0, -1.0) };
    let mut rec = HitRecord::new_empty();
    assert!(!s.hit(r, Interval { min: fx(0.5), max: fx(1.5) }, &mut rec));
    assert_eq!(rec, HitRecord::new_empty());
    assert!(!s.hit(r, Interval { min: fx(0.6), max: fx(1.4) }, &mut rec));
    assert!(s.hit(r, Interval { min: fx(0.5), max: fx(1.6) }, &mut rec));
    assert_eq!(rec.t, fx(1.5));
}

#[test]
fn ray_from_inside_a_sphere_hits_its_back() {
    let s = Sphere { center: v(0.0, 0.0, 0.0), radius: fx(0.5), mat: gray() };
    let r = Ray { ori: v(0.0, 0.0, 0.0), dir: v(0.0, 0.0, -1.0) };
    let mut rec = HitRecord::new_empty();
    assert!(s.hit(r, forward(), &mut rec));
    assert_eq!(rec.t, fx(0.5));
    assert!(!rec.front);
    assert_eq!(rec.n, v(0.0, 0.0, 1.0));
}

#[test]
fn negative_radius_gives_an_inward_unit_normal() {
    let s = Sphere { center: v(0.0, 0.0, 0.0), radius: fx(-0.5), mat: gray() };
    let r = Ray { ori: v(0.0, 0.0, 0.0), dir: v(0.0, 0.0, -1.0) };
    let mut rec = HitRecord::new_empty();
    assert!(s.hit(r, forward(), &mut rec));
    assert_eq!(rec.t, fx(0.5));
    assert_eq!(rec.p, v(0.0, 0.0, -0.5));
    // the normal points from the hit toward the centre
    assert_eq!(rec.n, v(0.0, 0.0, 1.0));
    assert!(rec.front);
    assert_eq!(rec.n.len(), fx(1.0));
}

#[test]
fn negative_radius_seen_from_outside_is_a_back_face() {
    let s = Sphere { center: v(0.0, 0.0, -1.0), radius: fx(-0.5), mat: gray() };
    let r = Ray { ori: v(0.0, 0.0, 0.0), dir: v(0.0, 0.0, -1.0) };
    let mut rec = HitRecord::new_empty();
    assert!(s.hit(r, forward(), &mut rec));
    assert_eq!(rec.t, fx(0.5));
    assert!(!rec.front);
    assert_eq!(rec.n, v(0.0, 0.0, 1.0));
}

#[test]
fn direction_need_not_have_length_one() {
    let s = Sphere { center: v(0.0, 0.0, -4.0), radius: fx(1.0), mat: gray() };
    let r = Ray { ori: v(0.0, 0.0, 0.0), dir: v(0.0, 0.0, -2.0) };
    let mut rec = HitRecord::new_empty();
    assert!(s.hit(r, forward(), &mut rec));
    assert_eq!(rec.t, fx(1.5));
    assert_eq!(rec.p, v(0.0, 0.0, -3.0));
}

#[test]
fn normals_face_the_ray_and_have_length_one() {
    let s = Sphere { center: v(0.3, -0.2, -2.0), radius: fx(1.25), mat: gray() };
    let inverted = Sphere { center: v(0.3, -0.2, -2.0), radius: fx(-1.25), mat: gray() };
    let mut sampler = Sampler::new(31337);
    let mut hits = 0;
    for _ in 0..2000 {
        let dir = Vec3::random_in(&mut sampler, fx(-1.0), fx(1.0));
        let ori = Vec3::random_in(&mut sampler, fx(-2.0), fx(2.0));
        let r = Ray { ori, dir };
        for sphere in [s, inverted] {
            let mut rec = HitRecord::new_empty();
            if sphere.hit(r, forward(), &mut rec) {
                hits += 1;
                assert!(r.dir.dot(rec.n).raw <= 0);
                let outward = rec.p.minus(sphere.center).over(sphere.radius);
                assert_eq!(rec.front, r.dir.dot(outward).raw < 0);
                assert_eq!(rec.n, if rec.front { outward } else { outward.neg() });
                assert!(forward().surrounds(rec.t));
                assert_eq!(rec.p, r.at(rec.t));
                assert!((fl(rec.n.len()) - 1.0).abs() < 1e-6);
            }
        }
    }
    assert!(hits > 100);
}

#[test]
fn surfaces_forward_to_the_sphere() {
    let s = Sphere { center: v(0.0, 0.0, -1.0), radius: fx(0.5), mat: gray() };
    let r = Ray { ori: v(0.0, 0.0, 0.0), dir: v(0.0, 0.0, -1.0) };
    let mut direct = HitRecord::new_empty();
    let mut wrapped = HitRecord::new_empty();
    assert!(s.hit(r, forward(), &mut direct));
    assert!(Surfaces::Sphere(s).hit(r, forward(), &mut wrapped));
    assert_eq!(direct, wrapped);
}

#[test]
fn empty_world_is_never_hit() {
    let world = World { surfaces: vec![] };
    let r = Ray { ori: v(0.0, 0.0, 0.0), dir: v(0.0, 0.0, -1.0) };
    let mut rec = HitRecord::new_empty();
    assert!(!world.hit(r, forward(), &mut rec));
    assert_eq!(rec, HitRecord::new_empty());
}

#[test]
fn world_reports_the_closest_hit_in_either_order() {
    let near = Sphere { center: v(0.0, 0.0, -1.0), radius: fx(0.5), mat: gray() };
    let far = Sphere { center: v(0.0, 0.0, -3.0), radius: fx(0.5), mat: mirror() };
    let r = Ray { ori: v(0.0, 0.0, 0.0), dir: v(0.0, 0.0, -1.0) };
    for surfaces in [
        vec![Surfaces::Sphere(near), Surfaces::Sphere(far)],
        vec![Surfaces::Sphere(far), Surfaces::Sphere(near)],
    ] {
        let world = World { surfaces };
        let mut rec = HitRecord::new_empty();
        assert!(world.hit(r, forward(), &mut rec));
        assert_eq!(rec.t, fx(0.5));
        assert_eq!(rec.mat, gray());
    }
}

#[test]
fn world_prefers_the_earlier_of_two_equal_hits() {
    let first = Sphere { center: v(0.0, 0.0, -1.0), radius: fx(0.5), mat: gray() };
    let second = Sphere { center: v(0.0, 0.0, -1.0), radius: fx(0.5), mat: mirror() };
    let r = Ray { ori: v(0.0, 0.0, 0.0), dir: v(0.0, 0.0, -1.0) };
    let world = World { surfaces: vec![Surfaces::Sphere(first), Surfaces::Sphere(second)] };
    let mut rec = HitRecord::new_empty();
    assert!(world.hit(r, forward(), &mut rec));
    assert_eq!(rec.mat, gray());
}

#[test]
fn world_keeps_the_lower_bound_of_the_range() {
    let near = Sphere { center: v(0.0, 0.0, -1.0), radius: fx(0.5), mat: gray() };
    let far = Sphere { center: v(0.0, 0.0, -3.0), radius: fx(0.5), mat: mirror() };
    let world = World { surfaces: vec![Surfaces::Sphere(near), Surfaces::Sphere(far)] };
    let r = Ray { ori: v(0.0, 0.0, 0.0), dir: v(0.0, 0.0, -1.0) };
    let mut rec = HitRecord::new_empty();
    assert!(world.hit(r, Interval { min: fx(2.0), max: fx(100.0) }, &mut rec));
    assert_eq!(rec.t, fx(2.5));
    assert_eq!(rec.mat, mirror());
    let mut other = HitRecord::new_empty();
    assert!(!world.hit(r, Interval { min: fx(4.0), max: fx(100.0) }, &mut other));
    assert_eq!(other, HitRecord::new_empty());
}

#[test]
fn world_hit_is_the_nearest_of_the_single_hits() {
    let mut sampler = Sampler::new(2718);
    let mut spheres = Vec::new();
    for _ in 0..12 {
        let center = Vec3::random_in(&mut sampler, fx(-3.0), fx(3.0));
        spheres.push(Sphere { center, radius: fx(0.8), mat: gray() });
    }
    let world = World { surfaces: spheres.iter().map(|s| Surfaces::Sphere(*s)).collect() };
    let mut found = 0;
    for _ in 0..500 {
        let r = Ray {
            ori: Vec3::random_in(&mut sampler, fx(-4.0), fx(4.0)),
            dir: Vec3::random_in(&mut sampler, fx(-1.0), fx(1.0)),
        };
        let mut best: Option<HitRecord> = None;
        for s in spheres.iter() {
            let mut rec = HitRecord::new_empty();
            if s.hit(r, forward(), &mut rec) {
                let nearer = match best {
                    Some(b) => rec.t.raw < b.t.raw,
                    None => true,
                };
                if nearer {
                    best = Some(rec);
                }
            }
        }
        let mut rec = HitRecord::new_empty();
        let hit = world.hit(r, forward(), &mut rec);
        assert_eq!(hit, best.is_some());
        if hit {
            found += 1;
            assert_eq!(rec, best.unwrap());
        }
    }
    assert!(found > 50);
}
