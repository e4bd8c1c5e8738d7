use raytrace::camera::{background, image_height, seed_of_pixel, Camera, HALF_RAW, SKY_GREEN_RAW};
use raytrace::fixed::{Fixed, ONE_RAW};
use raytrace::materials::{Dielectric, Lambertian, Materials, Metal};
use raytrace::random::Sampler;
use raytrace::ray::Ray;
use raytrace::sphere::Sphere;
use raytrace::vec3::Vec3;
use raytrace::world::{Surfaces, World};

fn fx(x: f64) -> Fixed {
    Fixed::from_raw((x * 4294967296.0).round() as i64)
}

fn fl(x: Fixed) -> f64 {
    x.raw as f64 / 4294967296.0
}

fn v(x: f64, y: f64, z: f64) -> Vec3 {
    Vec3(fx(x), fx(y), fx(z))
}

fn near(a: Vec3, b: (f64, f64, f64)) -> bool {
    (fl(a.0) - b.0).abs() < 1e-6 && (fl(a.1) - b.1).abs() < 1e-6 && (fl(a.2) - b.2).abs() < 1e-6
}

fn sky() -> Vec3 {
    Vec3(Fixed { raw: HALF_RAW }, Fixed { raw: SKY_GREEN_RAW }, Fixed { raw: ONE_RAW })
}

fn two_spheres() -> World {
    World {
        surfaces: vec![
            Surfaces::Sphere(Sphere {
                center: v(0.0, 0.0, -1.0),
                radius: fx(0.5),
                mat: Materials::Lambertian(Lambertian { color: v(0.5, 0.5, 0.5) }),
            }),
            Surfaces::Sphere(Sphere {
                center: v(0.0, -100.5, -1.0),
                radius: fx(100.0),
                mat: Materials::Lambertian(Lambertian { color: v(0.5, 0.5, 0.5) }),
            }),
        ],
    }
}

fn plain_camera(width: u16, samples: u8, depth: u8) -> Camera {
    Camera::new(
        v(0.0, 0.0, -1.0),
        v(0.0, 0.0, 0.0),
        v(0.0, 1.0, 0.0),
        Fixed::from_ratio(16, 9),
        width,
        depth,
        fx(1.0),
        samples,
        fx(0.0),
        fx(1.0),
    )
}

#[test]
fn height_is_the_truncated_quotient() {
    assert_eq!(image_height(400, Fixed::from_ratio(16, 9)), 225);
    assert_eq!(image_height(2000, Fixed::from_ratio(16, 9)), 1125);
    assert_eq!(image_height(100, fx(1.0)), 100);
    assert_eq!(image_height(100, fx(3.0)), 33);
    assert_eq!(image_height(10, fx(4.0)), 2);
    assert_eq!(image_height(1, fx(2.0)), 0);
}

#[test]
fn height_is_kept_in_range() {
    assert_eq!(image_height(65535, fx(0.5)), 65535);
    assert_eq!(image_height(100, fx(0.0)), 65535);
    assert_eq!(image_height(100, fx(-2.0)), 0);
    assert_eq!(image_height(0, fx(2.0)), 0);
}

#[test]
fn camera_derives_its_geometry() {
    let cam = plain_camera(400, 1, 1);
    assert_eq!(cam.w, 400);
    assert_eq!(cam.h, 225);
    assert_eq!(cam.max_d, 1);
    assert_eq!(cam.center, v(0.0, 0.0, 0.0));
    assert_eq!(cam.vh, fx(2.0));
    assert!((fl(cam.vw) - 2.0 * 400.0 / 225.0).abs() < 1e-8);
    assert!(near(cam.vu, (2.0 * 400.0 / 225.0, 0.0, 0.0)));
    assert_eq!(cam.vv, v(0.0, -2.0, 0.0));
    assert!(near(cam.du, (2.0 / 225.0, 0.0, 0.0)));
    assert!(near(cam.dv, (0.0, -2.0 / 225.0, 0.0)));
    assert!(near(cam.v_corner, (-400.0 / 225.0, 1.0, -1.0)));
    assert_eq!(cam.aa_sqrt, 1);
    assert_eq!(cam.aa, 1);
    assert_eq!(cam.dus, cam.du.over(fx(2.0)));
    assert_eq!(cam.dvs, cam.dv.over(fx(2.0)));
    assert_eq!(cam.s_corner, cam.v_corner.plus(cam.dus).plus(cam.dvs));
}

#[test]
fn camera_basis_is_orthonormal() {
    let cam = Camera::new(
        v(0.0, 0.0, 0.0),
        v(13.0, 2.0, 3.0),
        v(0.0, 1.0, 0.0),
        Fixed::from_ratio(16, 9),
        400,
        10,
        fx(0.17632698),
        16,
        fx(0.005236),
        fx(10.0),
    );
    let u = cam.vu.unit();
    let down = cam.vv.unit();
    let w = cam.look_from.minus(cam.look_at).unit();
    for (a, b) in [(u, down), (u, w), (down, w)] {
        assert!(fl(a.dot(b)).abs() < 1e-8);
    }
    for a in [u, down, w] {
        assert!((fl(a.len()) - 1.0).abs() < 1e-8);
    }
    assert!(near(cam.defocus_u, (fl(u.0) * 0.05236, fl(u.1) * 0.05236, fl(u.2) * 0.05236)));
}

#[test]
fn sample_count_is_rounded_down_to_a_square() {
    for (asked, root) in [(0u8, 0u8), (1, 1), (2, 1), (3, 1), (4, 2), (8, 2), (9, 3), (10, 3), (64, 8), (99, 9), (100, 10), (255, 15)] {
        let cam = plain_camera(40, asked, 1);
        assert_eq!(cam.aa_sqrt, root);
        assert_eq!(cam.aa, root * root);
    }
}

#[test]
fn ray_color_at_depth_zero_is_black() {
    let world = two_spheres();
    let empty = World { surfaces: vec![] };
    let mut sampler = Sampler::new(1);
    for dir in [v(0.0, 0.0, -1.0), v(0.0, 1.0, 0.0), v(1.0, -1.0, -1.0)] {
        let r = Ray { ori: v(0.0, 0.0, 0.0), dir };
        assert_eq!(Camera::ray_color(r, 0, &world, &mut sampler), v(0.0, 0.0, 0.0));
        assert_eq!(Camera::ray_color(r, 0, &empty, &mut sampler), v(0.0, 0.0, 0.0));
    }
    assert_eq!(sampler.state, 1);
}

#[test]
fn background_is_sky_straight_up_and_white_straight_down() {
    let empty = World { surfaces: vec![] };
    let mut sampler = Sampler::new(1);
    let up = Ray { ori: v(0.0, 0.0, 0.0), dir: v(0.0, 1.0, 0.0) };
    let down = Ray { ori: v(0.0, 0.0, 0.0), dir: v(0.0, -1.0, 0.0) };
    assert_eq!(Camera::ray_color(up, 5, &empty, &mut sampler), sky());
    assert!(near(Camera::ray_color(up, 5, &empty, &mut sampler), (0.5, 0.7, 1.0)));
    assert_eq!(Camera::ray_color(down, 5, &empty, &mut sampler), v(1.0, 1.0, 1.0));
    assert_eq!(background(up), sky());
    assert_eq!(background(down), v(1.0, 1.0, 1.0));
    assert_eq!(sampler.state, 1);
}

#[test]
fn background_blends_by_height() {
    let level = Ray { ori: v(0.0, 0.0, 0.0), dir: v(3.0, 0.0, -4.0) };
    assert!(near(background(level), (0.75, 0.85, 1.0)));
    let rising = Ray { ori: v(0.0, 0.0, 0.0), dir: v(0.0, 3.0, -4.0) };
    // a = 0.5 * (0.6 + 1) = 0.8
    assert!(near(background(rising), (0.6, 0.76, 1.0)));
}

#[test]
fn absorbing_surfaces_leave_black() {
    let black = Materials::Lambertian(Lambertian { color: v(0.0, 0.0, 0.0) });
    let dark_metal = Materials::Metal(Metal { color: v(0.0, 0.0, 0.0), fuzz: fx(0.3) });
    for mat in [black, dark_metal] {
        let world = World {
            surfaces: vec![Surfaces::Sphere(Sphere { center: v(0.0, 0.0, -1.0), radius: fx(0.5), mat })],
        };
        let r = Ray { ori: v(0.0, 0.0, 0.0), dir: v(0.0, 0.0, -1.0) };
        let mut sampler = Sampler::new(4);
        for depth in 1..20u8 {
            assert_eq!(Camera::ray_color(r, depth, &world, &mut sampler), v(0.0, 0.0, 0.0));
        }
    }
}

#[test]
fn one_bounce_off_gray_halves_the_background() {
    let world = World {
        surfaces: vec![Surfaces::Sphere(Sphere {
            center: v(0.0, 0.0, -1.0),
            radius: fx(0.5),
            mat: Materials::Metal(Metal { color: v(0.5, 0.5, 0.5), fuzz: fx(0.0) }),
        })],
    };
    let r = Ray { ori: v(0.0, 0.0, 0.0), dir: v(0.0, 0.0, -1.0) };
    let mut sampler = Sampler::new(4);
    // the mirror sends the ray straight back, level with the horizon
    let c = Camera::ray_color(r, 2, &world, &mut sampler);
    assert!(near(c, (0.375, 0.425, 0.5)));
    assert_eq!(Camera::ray_color(r, 1, &world, &mut sampler), v(0.0, 0.0, 0.0));
}

#[test]
fn light_stays_between_zero_and_one() {
    let mut world = two_spheres();
    world.surfaces.push(Surfaces::Sphere(Sphere {
        center: v(1.0, 0.0, -1.0),
        radius: fx(0.5),
        mat: Materials::Metal(Metal { color: v(0.8, 0.6, 0.2), fuzz: fx(0.3) }),
    }));
    world.surfaces.push(Surfaces::Sphere(Sphere {
        center: v(-1.0, 0.0, -1.0),
        radius: fx(0.5),
        mat: Materials::Dielectric(Dielectric { color: v(1.0, 1.0, 1.0), refraction_idx: fx(1.5) }),
    }));
    world.surfaces.push(Surfaces::Sphere(Sphere {
        center: v(-1.0, 0.0, -1.0),
        radius: fx(-0.4),
        mat: Materials::Dielectric(Dielectric { color: v(1.0, 1.0, 1.0), refraction_idx: fx(1.5) }),
    }));
    let mut sampler = Sampler::new(12345);
    for _ in 0..300 {
        let dir = Vec3::random_in(&mut sampler, fx(-1.0), fx(1.0));
        let r = Ray { ori: v(0.0, 0.0, 0.5), dir };
        let c = Camera::ray_color(r, 8, &world, &mut sampler);
        for x in [c.0, c.1, c.2] {
            assert!(0 <= x.raw && x.raw <= ONE_RAW);
        }
    }
}

#[test]
fn centre_pixel_is_darker_than_the_sky() {
    let world = two_spheres();
    let cam = plain_camera(400, 1, 1);
    assert_eq!((cam.w, cam.h), (400, 225));
    let mut sampler = Sampler::new(0);
    let centre = cam.get_px_color(&world, 200, 112, &mut sampler);
    let top = cam.get_px_color(&world, 200, 0, &mut sampler);
    assert_ne!(centre, sky());
    assert_ne!(centre, top);
    assert!(centre.0.raw < top.0.raw && centre.1.raw < top.1.raw && centre.2.raw < top.2.raw);
    // with one scattering the ray that hits the sphere carries no light back
    assert_eq!(centre, v(0.0, 0.0, 0.0));
    // the top row sees the gradient, bluer than white
    assert!(top.2.raw == ONE_RAW && top.0.raw < top.2.raw);
    assert!(fl(top.0) > 0.5 && fl(top.0) < 0.75);
}

#[test]
fn centre_pixel_is_gray_after_more_bounces() {
    let world = two_spheres();
    let cam = plain_camera(400, 16, 8);
    let mut sampler = Sampler::new(7);
    let centre = cam.get_px_color(&world, 200, 112, &mut sampler);
    let top = cam.get_px_color(&world, 200, 0, &mut sampler);
    assert!(centre.0.raw > 0);
    assert!(centre.2.raw < top.2.raw);
    assert_ne!(centre, sky());
}

#[test]
fn pixel_is_the_mean_of_its_samples() {
    let empty = World { surfaces: vec![] };
    let cam = plain_camera(40, 4, 3);
    let mut sampler = Sampler::new(7);
    let c = cam.get_px_color(&empty, 3, 5, &mut sampler);
    let start = cam.s_corner.plus(cam.du.scale(fx(3.0))).plus(cam.dv.scale(fx(5.0)));
    let mut sum = Vec3::zero();
    for pi in 0..2 {
        for pj in 0..2 {
            let pos = start.plus(cam.dus.scale(Fixed::from_int(pi))).plus(cam.dvs.scale(Fixed::from_int(pj)));
            let r = Ray { ori: cam.center, dir: pos.minus(cam.center) };
            sum = sum.plus(background(r));
        }
    }
    assert_eq!(c, sum.over(fx(4.0)));
    assert_eq!(sampler.state, 7);
}

#[test]
fn no_samples_leave_the_pixel_black() {
    let world = two_spheres();
    let cam = plain_camera(40, 0, 3);
    let mut sampler = Sampler::new(7);
    assert_eq!(cam.get_px_color(&world, 3, 5, &mut sampler), v(0.0, 0.0, 0.0));
}

#[test]
fn rays_start_at_the_centre_without_aperture() {
    let cam = plain_camera(40, 1, 1);
    let mut sampler = Sampler::new(21);
    for _ in 0..10 {
        assert_eq!(cam.ray_origin(&mut sampler), cam.center);
    }
    assert_eq!(sampler.state, 21);
}

#[test]
fn rays_start_on_the_lens_disk_with_aperture() {
    let cam = Camera::new(
        v(0.0, 0.0, -1.0),
        v(0.0, 0.0, 0.0),
        v(0.0, 1.0, 0.0),
        fx(1.0),
        40,
        1,
        fx(1.0),
        1,
        fx(0.25),
        fx(2.0),
    );
    assert!(near(cam.defocus_u, (0.5, 0.0, 0.0)));
    assert!(near(cam.defocus_v, (0.0, 0.5, 0.0)));
    let mut a = Sampler::new(21);
    let mut b = Sampler::new(21);
    let mut off_centre = 0;
    for _ in 0..200 {
        let origin = cam.ray_origin(&mut a);
        let p = Vec3::random_in_unit_disk(&mut b);
        assert_eq!(origin, cam.center.plus(cam.defocus_u.scale(p.0)).plus(cam.defocus_v.scale(p.1)));
        assert_eq!(a, b);
        assert!(fl(origin.minus(cam.center).len()) < 0.5);
        assert_eq!(origin.2.raw, 0);
        if origin != cam.center {
            off_centre += 1;
        }
    }
    assert!(off_centre > 190);
}

#[test]
fn pixel_seeds_wrap_around() {
    assert_eq!(seed_of_pixel(10, 5), 15);
    assert_eq!(seed_of_pixel(u64::MAX, 1), 0);
    assert_eq!(seed_of_pixel(u64::MAX - 1, 5), 3);
}

#[test]
fn render_gives_the_pixels_row_by_row() {
    let world = two_spheres();
    let cam = plain_camera(32, 4, 4);
    assert_eq!((cam.w, cam.h), (32, 18));
    let pixels = cam.render(&world, 1000);
    assert_eq!(pixels.len(), 32 * 18);
    for (i, j) in [(0u16, 0u16), (31, 0), (0, 17), (31, 17), (16, 9), (5, 11)] {
        let index = (j as u64) * 32 + (i as u64);
        let mut sampler = Sampler::new(seed_of_pixel(1000, index));
        assert_eq!(pixels[index as usize], cam.get_px_color(&world, i, j, &mut sampler));
    }
    // the top is sky, the bottom is ground in shadow or light
    assert!(pixels[16].2.raw == ONE_RAW);
    assert_ne!(pixels[16], pixels[17 * 32 + 16]);
}

#[test]
fn rendering_twice_gives_the_same_picture() {
    let mut world = two_spheres();
    world.surfaces.push(Surfaces::Sphere(Sphere {
        center: v(1.0, 0.0, -1.0),
        radius: fx(0.5),
        mat: Materials::Metal(Metal { color: v(0.8, 0.6, 0.2), fuzz: fx(0.3) }),
    }));
    world.surfaces.push(Surfaces::Sphere(Sphere {
        center: v(-1.0, 0.0, -1.0),
        radius: fx(0.5),
        mat: Materials::Dielectric(Dielectric { color: v(1.0, 1.0, 1.0), refraction_idx: fx(1.5) }),
    }));
    let cam = plain_camera(48, 4, 6);
    let first = cam.render(&world, 2024);
    let second = cam.render(&world, 2024);
    assert_eq!(first, second);
    let other = cam.render(&world, 2025);
    assert_ne!(first, other);
}

#[test]
fn render_of_an_empty_picture_is_empty() {
    let world = two_spheres();
    assert_eq!(plain_camera(0, 1, 1).render(&world, 1).len(), 0);
    assert_eq!(plain_camera(1, 1, 1).h, 0);
    assert_eq!(plain_camera(1, 1, 1).render(&world, 1).len(), 0);
}

#[test]
fn end_to_end_two_spheres() {
    let world = two_spheres();
    let cam = plain_camera(400, 1, 1);
    let pixels = cam.render(&world, 42);
    assert_eq!(pixels.len(), 400 * 225);
    let centre = pixels[112 * 400 + 200];
    assert_ne!(centre, sky());
    for i in 0..400 {
        let top = pixels[i];
        assert!(centre.0.raw < top.0.raw && centre.1.raw < top.1.raw && centre.2.raw < top.2.raw);
        assert_eq!(top.2.raw, ONE_RAW);
        assert!(fl(top.0) > 0.5 && fl(top.0) < 1.0);
        assert!(fl(top.1) > 0.7 && fl(top.1) < 1.0);
        assert_ne!(centre, top);
    }
    assert_eq!(pixels, cam.render(&world, 42));
}

#[test]
fn pixels_stay_between_zero_and_one() {
    let mut world = two_spheres();
    world.surfaces.push(Surfaces::Sphere(Sphere {
        center: v(1.0, 0.0, -1.0),
        radius: fx(0.5),
        mat: Materials::Metal(Metal { color: v(1.0, 1.0, 1.0), fuzz: fx(0.0) }),
    }));
    world.surfaces.push(Surfaces::Sphere(Sphere {
        center: v(-1.0, 0.0, -1.0),
        radius: fx(0.5),
        mat: Materials::Dielectric(Dielectric { color: v(1.0, 1.0, 1.0), refraction_idx: fx(1.5) }),
    }));
    for samples in [1u8, 3, 4, 9, 49, 255] {
        let cam = plain_camera(24, samples, 5);
        for pixel in cam.render(&world, samples as u64) {
            for x in [pixel.0, pixel.1, pixel.2] {
                assert!(0 <= x.raw && x.raw <= ONE_RAW);
            }
        }
    }
}

#[test]
fn background_stays_between_zero_and_one() {
    let mut sampler = Sampler::new(5150);
    for _ in 0..1000 {
        let r = Ray {
            ori: Vec3::random_in(&mut sampler, fx(-10.0), fx(10.0)),
            dir: Vec3::random_in(&mut sampler, fx(-1000.0), fx(1000.0)),
        };
        let c = background(r);
        for x in [c.0, c.1, c.2] {
            assert!(0 <= x.raw && x.raw <= ONE_RAW);
        }
        assert_eq!(c.2.raw, ONE_RAW);
    }
}

#[test]
fn camera_axes_obey_the_stated_rounding() {
    let mut sampler = Sampler::new(6021);
    for _ in 0..500 {
        let look_from = Vec3::random_in(&mut sampler, fx(-20.0), fx(20.0));
        let look_at = Vec3::random_in(&mut sampler, fx(-20.0), fx(20.0));
        let up = v(0.0, 1.0, 0.0);
        let toward = look_from.minus(look_at);
        let k = toward.unit();
        let c = up.x(k);
        let i = c.unit();
        let j = k.x(i);
        assert!(j.dot(k).raw.abs() <= 9);
        assert!(j.dot(i).raw.abs() <= 9);
        let back = toward.len().raw;
        let side = c.len().raw;
        if back > 0 {
            assert!(ONE_RAW - 4 <= k.len().raw && k.len().raw <= ONE_RAW + ONE_RAW / back);
        }
        if side > 0 {
            assert!(ONE_RAW - 4 <= i.len().raw && i.len().raw <= ONE_RAW + ONE_RAW / side);
            assert!((side as i128) * (i.dot(k).raw.abs() as i128) <= 12 * (ONE_RAW as i128) + 6 * (side as i128));
        }
        let cam = Camera::new(look_at, look_from, up, fx(1.5), 30, 3, fx(0.5), 4, fx(0.0), fx(2.0));
        assert_eq!(cam.vu, i.scale(cam.vw));
        assert_eq!(cam.vv, j.scale(cam.vh.neg()));
    }
}

#[test]
fn negative_aperture_disables_the_lens() {
    let cam = Camera::new(
        v(0.0, 0.0, -1.0),
        v(0.0, 0.0, 0.0),
        v(0.0, 1.0, 0.0),
        fx(1.0),
        40,
        1,
        fx(1.0),
        1,
        fx(-0.25),
        fx(2.0),
    );
    let mut sampler = Sampler::new(21);
    for _ in 0..10 {
        assert_eq!(cam.ray_origin(&mut sampler), cam.center);
    }
    assert_eq!(sampler.state, 21);
}
