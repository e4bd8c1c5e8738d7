use raytrace::fixed::{Fixed, MAX_RAW, ONE_RAW};
use raytrace::materials::{Dielectric, Lambertian, Materials, Metal, Scatter};
use raytrace::random::{random, Sampler};
use raytrace::ray::Ray;
use raytrace::surface::HitRecord;
use raytrace::vec3::Vec3;

fn fx(x: f64) -> Fixed {
    Fixed::from_raw((x * 4294967296.0).round() as i64)
}

fn fl(x: Fixed) -> f64 {
    x.raw as f64 / 4294967296.0
}

fn v(x: f64, y: f64, z: f64) -> Vec3 {
    Vec3(fx(x), fx(y), fx(z))
}

fn record(p: Vec3, n: Vec3, front: bool) -> HitRecord {
    HitRecord {
        p,
        n,
        t: fx(1.0),
        front,
        mat: Materials::Lambertian(Lambertian { color: v(0.0, 0.0, 0.0) }),
    }
}

fn incoming(dir: Vec3) -> Ray {
    Ray { ori: v(0.0, 2.0, 0.0), dir }
}

#[test]
fn lambertian_leaves_along_normal_plus_sample() {
    let m = Lambertian { color: v(0.5, 0.25, 0.125) };
    let rec = record(v(1.0, 2.0, 3.0), v(0.0, 1.0, 0.0), true);
    let (ray, attenuation) = m.bounce(&rec, v(0.6, 0.0, 0.8));
    assert_eq!(ray.ori, v(1.0, 2.0, 3.0));
    assert_eq!(ray.dir, v(0.6, 1.0, 0.8));
    assert_eq!(attenuation, v(0.5, 0.25, 0.125));
}

#[test]
fn lambertian_falls_back_to_the_normal_when_the_sample_cancels_it() {
    let m = Lambertian { color: v(0.5, 0.5, 0.5) };
    let rec = record(v(1.0, 2.0, 3.0), v(0.0, 1.0, 0.0), true);
    let (ray, attenuation) = m.bounce(&rec, v(0.0, -1.0, 0.0));
    assert_eq!(ray.dir, v(0.0, 1.0, 0.0));
    assert_eq!(attenuation, v(0.5, 0.5, 0.5));
    let almost = Vec3(Fixed { raw: 42 }, Fixed { raw: -ONE_RAW + 42 }, Fixed { raw: -42 });
    assert_eq!(m.bounce(&rec, almost).0.dir, v(0.0, 1.0, 0.0));
    let not_quite = Vec3(Fixed { raw: 43 }, Fixed { raw: -ONE_RAW }, Fixed { raw: 0 });
    assert_eq!(m.bounce(&rec, not_quite).0.dir, Vec3(Fixed { raw: 43 }, Fixed { raw: 0 }, Fixed { raw: 0 }));
}

#[test]
fn lambertian_scatter_draws_a_direction() {
    let m = Lambertian { color: v(0.5, 0.5, 0.5) };
    let rec = record(v(1.0, 2.0, 3.0), v(0.0, 1.0, 0.0), true);
    let mut a = Sampler::new(11);
    let mut b = Sampler::new(11);
    for _ in 0..100 {
        let (ray, attenuation) = m.scatter(incoming(v(0.0, -1.0, 0.0)), &rec, &mut a);
        let sample = Vec3::random_unit(&mut b);
        assert_eq!((ray, attenuation), m.bounce(&rec, sample));
        assert_eq!(a, b);
        assert!(!ray.dir.near_zero());
        assert_eq!(attenuation, v(0.5, 0.5, 0.5));
    }
}

#[test]
fn metal_without_fuzz_mirrors_exactly() {
    let m = Metal { color: v(0.8, 0.6, 0.2), fuzz: fx(0.0) };
    let rec = record(v(1.0, 2.0, 3.0), v(0.0, 1.0, 0.0), true);
    let mut sampler = Sampler::new(3);
    let (ray, attenuation) = m.scatter(incoming(v(3.0, -4.0, 0.0)), &rec, &mut sampler);
    assert_eq!(ray.ori, v(1.0, 2.0, 3.0));
    assert_eq!(ray.dir, Vec3(Fixed::from_ratio(3, 5), Fixed::from_ratio(4, 5), Fixed::zero()));
    assert_eq!(attenuation, v(0.8, 0.6, 0.2));
}

#[test]
fn metal_obeys_the_reflection_law() {
    let m = Metal { color: v(0.8, 0.8, 0.8), fuzz: fx(0.0) };
    let mut sampler = Sampler::new(1234);
    for _ in 0..500 {
        let n = Vec3::random_unit(&mut sampler);
        let dir = Vec3::random_in(&mut sampler, fx(-5.0), fx(5.0));
        if dir.len().raw < fx(0.01).raw {
            continue;
        }
        let rec = record(v(0.0, 0.0, 0.0), n, true);
        let (ray, _) = m.scatter(incoming(dir), &rec, &mut sampler);
        let angle_in = fl(dir.unit().dot(n));
        let angle_out = fl(ray.dir.unit().dot(n));
        assert!((angle_in + angle_out).abs() < 1e-7);
    }
}

#[test]
fn metal_with_fuzz_moves_the_mirror_image_by_the_sample() {
    let m = Metal { color: v(0.8, 0.6, 0.2), fuzz: fx(0.5) };
    let rec = record(v(1.0, 2.0, 3.0), v(0.0, 1.0, 0.0), true);
    let (ray, attenuation) = m.bounce(incoming(v(0.0, -2.0, 0.0)), &rec, v(0.6, 0.0, -0.8));
    assert_eq!(ray.dir, v(0.3, 1.0, -0.4));
    assert_eq!(attenuation, v(0.8, 0.6, 0.2));
    // a fuzzed ray may point into the surface; it is passed on as it is
    let (inward, _) = Metal { color: v(0.8, 0.6, 0.2), fuzz: fx(1.0) }.bounce(
        incoming(v(1.0, -0.125, 0.0)),
        &rec,
        v(0.0, -1.0, 0.0),
    );
    assert!(inward.dir.dot(rec.n).raw < 0);
}

#[test]
fn attenuation_of_diffuse_and_metal_is_the_albedo() {
    let mut sampler = Sampler::new(99);
    for _ in 0..200 {
        let albedo = Vec3::random(&mut sampler);
        let fuzz = random(&mut sampler);
        let n = Vec3::random_unit(&mut sampler);
        let rec = record(v(0.0, 0.0, 0.0), n, true);
        let r = incoming(Vec3::random_in(&mut sampler, fx(-1.0), fx(1.0)));
        for m in [
            Materials::Lambertian(Lambertian { color: albedo }),
            Materials::Metal(Metal { color: albedo, fuzz }),
        ] {
            let (_, attenuation) = m.scatter(r, &rec, &mut sampler);
            assert_eq!(attenuation, albedo);
            for c in [attenuation.0, attenuation.1, attenuation.2] {
                assert!(0 <= c.raw && c.raw <= ONE_RAW);
            }
        }
    }
}

#[test]
fn reflectance_follows_schlick() {
    // r0 = ((1 - 1.5) / (1 + 1.5))^2 = 0.04
    let head_on = Dielectric::reflectance(fx(1.0), fx(1.5));
    assert!((fl(head_on) - 0.04).abs() < 1e-8);
    let grazing = Dielectric::reflectance(fx(0.0), fx(1.5));
    assert_eq!(grazing, fx(1.0));
    // 0.04 + 0.96 * 0.5^5 = 0.07
    let between = Dielectric::reflectance(fx(0.5), fx(1.5));
    assert!((fl(between) - 0.07).abs() < 1e-8);
    assert_eq!(Dielectric::reflectance(fx(1.0), fx(1.0)).raw, 0);
}

#[test]
fn dielectric_mirrors_whole_beyond_the_critical_angle() {
    let glass = Dielectric { color: v(0.9, 0.9, 0.9), refraction_idx: fx(1.5) };
    // leaving the glass at 60 degrees to the normal: 1.5 * sin(60) > 1
    let dir = v(0.75f64.sqrt(), -0.5, 0.0);
    let rec = record(v(1.0, 2.0, 3.0), v(0.0, 1.0, 0.0), false);
    assert!(glass.cannot_refract(incoming(dir), &rec));
    let mut sampler = Sampler::new(5);
    let (ray, attenuation) = glass.scatter(incoming(dir), &rec, &mut sampler);
    assert_eq!(sampler.state, 5);
    assert_eq!(attenuation, v(1.0, 1.0, 1.0));
    assert_eq!(ray.ori, v(1.0, 2.0, 3.0));
    assert_eq!(ray.dir, dir.unit().reflect(rec.n));
    assert!(ray.dir.1.raw > 0);
    assert_eq!((ray, attenuation), Dielectric::mirror(incoming(dir), &rec));
}

#[test]
fn dielectric_can_always_be_entered() {
    let glass = Dielectric { color: v(1.0, 1.0, 1.0), refraction_idx: fx(1.5) };
    let rec = record(v(0.0, 0.0, 0.0), v(0.0, 1.0, 0.0), true);
    for dir in [v(0.0, -1.0, 0.0), v(0.75f64.sqrt(), -0.5, 0.0), v(0.999, -0.04, 0.0)] {
        assert!(!glass.cannot_refract(incoming(dir), &rec));
    }
}

#[test]
fn dielectric_mirrors_when_the_reflectance_exceeds_the_coin() {
    let glass = Dielectric { color: v(0.9, 0.8, 0.7), refraction_idx: fx(1.5) };
    let rec = record(v(1.0, 2.0, 3.0), v(0.0, 1.0, 0.0), true);
    let r = incoming(v(0.0, -1.0, 0.0));
    // head on the reflectance is 0.04
    let (mirrored, white) = glass.pass(r, &rec, fx(0.03));
    assert_eq!(white, v(1.0, 1.0, 1.0));
    assert_eq!(mirrored.dir, v(0.0, 1.0, 0.0));
    let (bent, tint) = glass.pass(r, &rec, fx(0.05));
    assert_eq!(tint, v(0.9, 0.8, 0.7));
    assert_eq!(bent.ori, v(1.0, 2.0, 3.0));
    assert!((fl(bent.dir.1) + 1.0).abs() < 1e-8);
    assert_eq!(bent.dir.0.raw, 0);
    assert_eq!(bent.dir, r.dir.unit().refract(rec.n, Fixed::from_int(1).over(fx(1.5))));
}

#[test]
fn dielectric_scatter_draws_one_coin() {
    let glass = Dielectric { color: v(0.9, 0.8, 0.7), refraction_idx: fx(1.5) };
    let rec = record(v(1.0, 2.0, 3.0), v(0.0, 1.0, 0.0), true);
    let r = incoming(v(0.6, -0.8, 0.0));
    let mut a = Sampler::new(2);
    let mut b = Sampler::new(2);
    let mut mirrored = 0;
    let mut bent = 0;
    for _ in 0..2000 {
        let out = glass.scatter(r, &rec, &mut a);
        let coin = random(&mut b);
        assert_eq!(out, glass.pass(r, &rec, coin));
        assert_eq!(a, b);
        if out.1 == v(1.0, 1.0, 1.0) {
            mirrored += 1;
        } else {
            bent += 1;
        }
    }
    assert!(mirrored > 0 && bent > mirrored);
}

#[test]
fn materials_dispatch_to_their_variant() {
    let rec = record(v(1.0, 2.0, 3.0), v(0.0, 1.0, 0.0), true);
    let r = incoming(v(0.6, -0.8, 0.0));
    let l = Lambertian { color: v(0.1, 0.2, 0.3) };
    let m = Metal { color: v(0.4, 0.5, 0.6), fuzz: fx(0.25) };
    let d = Dielectric { color: v(1.0, 1.0, 1.0), refraction_idx: fx(1.5) };
    for seed in 0..20u64 {
        let mut a = Sampler::new(seed);
        let mut b = Sampler::new(seed);
        assert_eq!(Materials::Lambertian(l).scatter(r, &rec, &mut a), l.scatter(r, &rec, &mut b));
        assert_eq!(Materials::Metal(m).scatter(r, &rec, &mut a), m.scatter(r, &rec, &mut b));
        assert_eq!(Materials::Dielectric(d).scatter(r, &rec, &mut a), d.scatter(r, &rec, &mut b));
        assert_eq!(a, b);
    }
}

#[test]
fn scattered_directions_are_never_degenerate() {
    let mut sampler = Sampler::new(606);
    for _ in 0..500 {
        let n = Vec3::random_unit(&mut sampler);
        let dir = Vec3::random_unit(&mut sampler);
        let rec = record(v(0.0, 0.0, 0.0), n, dir.dot(n).raw < 0);
        for m in [
            Materials::Lambertian(Lambertian { color: v(0.5, 0.5, 0.5) }),
            Materials::Metal(Metal { color: v(0.5, 0.5, 0.5), fuzz: fx(0.0) }),
            Materials::Dielectric(Dielectric { color: v(1.0, 1.0, 1.0), refraction_idx: fx(1.5) }),
        ] {
            let (ray, _) = m.scatter(incoming(dir), &rec, &mut sampler);
            assert!(!ray.dir.near_zero());
            assert!(ray.dir.0.raw.abs() < MAX_RAW);
        }
    }
}

#[test]
fn mirror_images_cancel_within_the_stated_rounding() {
    let mut sampler = Sampler::new(4242);
    let mut worst = 0;
    for _ in 0..2000 {
        let n = Vec3::random_unit(&mut sampler);
        let d = Vec3::random_unit(&mut sampler);
        let gap = (n.l2norm().raw - ONE_RAW).abs();
        let sum = (d.reflect(n).dot(n).raw + d.dot(n).raw).abs();
        assert!(sum <= 30 + 6 * gap);
        worst = worst.max(sum);
    }
    assert!(worst < 100);
    // a normal that is too long by a tenth still obeys the bound
    let long = v(0.0, 1.1, 0.0);
    let d = v(0.6, -0.8, 0.0);
    let gap = (long.l2norm().raw - ONE_RAW).abs();
    let sum = (d.reflect(long).dot(long).raw + d.dot(long).raw).abs();
    assert!(sum > 100);
    assert!(sum <= 30 + 6 * gap);
}
