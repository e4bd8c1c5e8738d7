//! The camera: ray generation and the recursive gathering of light.

use crate::fixed::{
    floor_sqrt, floor_sqrt_of, is_floor_sqrt, lemma_floor_sqrt_below, lemma_floor_sqrt_exists,
    lemma_over_whole, lemma_times_fraction, magnitude, quot, Fixed, MAX_RAW, ONE_RAW,
};
use crate::interval::Interval;
use crate::materials::{lemma_attenuation, Scatter};
use crate::random::Sampler;
use crate::ray::Ray;
use crate::surface::{HitRecord, Hittable};
use crate::vec3::{
    lemma_coord_mul_within_unit, lemma_cross_orthogonal, lemma_cross_reach, lemma_len_reach,
    lemma_unit_components, lemma_unit_dot, lemma_unit_length, Vec3, SAMPLE_ATTEMPTS,
};
use crate::world::{lemma_world_hit, World};
use vstd::prelude::*;

verus! {

/// Raw value of the smallest ray parameter at which a hit counts; hits
/// nearer to the ray's origin are taken for the surface it left.
pub const HIT_EPSILON_RAW: i64 = 429496;

/// Raw value of one half.
pub const HALF_RAW: i64 = 0x8000_0000;

/// Raw value of the green channel of the sky colour.
pub const SKY_GREEN_RAW: i64 = 3006477107;

/// A pinhole or thin-lens camera with all that derives from its
/// placement.
#[derive(Clone, Copy, Debug, PartialEq, Eq, Structural)]
pub struct Camera {
    /// The point the camera looks at.
    pub look_at: Vec3,
    /// The point the camera stands at.
    pub look_from: Vec3,
    /// The direction that is up in the picture.
    pub up_dir: Vec3,
    /// How many times a ray may scatter.
    pub max_d: u8,
    /// Tangent of half the vertical field of view.
    pub vfov: Fixed,
    /// Width over height of the picture.
    pub ar: Fixed,
    /// Distance of the plane in focus.
    pub f: Fixed,
    /// Width of the picture in pixels.
    pub w: u16,
    /// Height of the picture in pixels.
    pub h: u16,
    /// Height of the viewport.
    pub vh: Fixed,
    /// Width of the viewport.
    pub vw: Fixed,
    /// The viewport's horizontal edge.
    pub vu: Vec3,
    /// The viewport's vertical edge, downward.
    pub vv: Vec3,
    /// Step from a pixel to its right neighbour.
    pub du: Vec3,
    /// Step from a pixel to the one below.
    pub dv: Vec3,
    /// The centre of the lens.
    pub center: Vec3,
    /// The viewport's upper left corner.
    pub v_corner: Vec3,
    /// Samples per pixel along each axis.
    pub aa_sqrt: u8,
    /// Samples per pixel.
    pub aa: u8,
    /// Horizontal step between the samples of a pixel.
    pub dus: Vec3,
    /// Vertical step between the samples of a pixel.
    pub dvs: Vec3,
    /// The first sample of the upper left pixel.
    pub s_corner: Vec3,
    /// Tangent of half the aperture angle; the lens is a point unless it
    /// is positive.
    pub aperture: Fixed,
    /// The lens disk's horizontal radius.
    pub defocus_u: Vec3,
    /// The lens disk's vertical radius.
    pub defocus_v: Vec3,
}

/// The colour of no light.
pub open spec fn black() -> Vec3 {
    Vec3(Fixed { raw: 0 }, Fixed { raw: 0 }, Fixed { raw: 0 })
}

/// The sky colour at the top of the background.
pub open spec fn sky() -> Vec3 {
    Vec3(Fixed { raw: HALF_RAW }, Fixed { raw: SKY_GREEN_RAW }, Fixed { raw: ONE_RAW })
}

/// The range of ray parameters at which a hit counts.
pub open spec fn hit_range() -> Interval {
    Interval { min: Fixed { raw: HIT_EPSILON_RAW }, max: Fixed { raw: MAX_RAW } }
}

/// The background a ray sees that hits nothing: white at the bottom,
/// blending into the sky colour at the top, by the height of the
/// ray's direction.
#[verifier::opaque]
pub open spec fn background_spec(r: Ray) -> Vec3 {
    let a = Fixed { raw: HALF_RAW }.times(r.dir.unit().1.plus(Fixed::from_int(1)));
    Vec3(Fixed::from_int(1), Fixed::from_int(1), Fixed::from_int(1)).scale(
        Fixed::from_int(1).minus(a),
    ).plus(sky().scale(a))
}

/// The height in pixels of a picture `width` pixels wide: the width
/// over the aspect ratio, rounded toward zero and kept in range.
pub open spec fn height_for(width: u16, aspect_ratio: Fixed) -> u16 {
    let rows = quot(Fixed::from_int(width as i32).over(aspect_ratio).raw as int, ONE_RAW as int);
    if rows < 0 {
        0u16
    } else if rows > 0xffff {
        0xffffu16
    } else {
        rows as u16
    }
}

/// The light that the ray `r` gathers with `depth` scatterings left,
/// for a stream of samples in `state`, and the state after the draws.
#[verifier::opaque]
pub open spec fn ray_color_spec(r: Ray, depth: nat, world: World, state: u64) -> (Vec3, u64)
    decreases depth,
{
    if depth == 0 {
        (black(), state)
    } else {
        match world.hit_spec(r, hit_range()) {
            Some(rec) => {
                let scattered = rec.mat.scatter_spec(r, rec, state);
                if scattered.0.1.near_zero() {
                    (black(), scattered.1)
                } else {
                    let deeper = ray_color_spec(scattered.0.0, (depth - 1) as nat, world, scattered.1);
                    (scattered.0.1.coord_mul(deeper.0), deeper.1)
                }
            },
            None => (background_spec(r), state),
        }
    }
}

/// The seed of the stream of samples for the pixel at `index`, counted
/// row by row from the upper left corner.
pub open spec fn pixel_seed(seed: u64, index: int) -> u64 {
    ((seed + index) % 0x1_0000_0000_0000_0000) as u64
}

impl Camera {
    /// The sample count is the square of the count along one axis.
    pub open spec fn wf(self) -> bool {
        self.aa == self.aa_sqrt * self.aa_sqrt
    }

    /// The axes of the camera: to the right, upward, and backward, away
    /// from what it looks at.
    pub open spec fn frame(look_at: Vec3, look_from: Vec3, up_dir: Vec3) -> (Vec3, Vec3, Vec3) {
        let k = look_from.minus(look_at).unit();
        let i = up_dir.x(k).unit();
        (i, k.x(i), k)
    }

    /// The camera that the placement determines.
    pub open spec fn build(
        look_at: Vec3,
        look_from: Vec3,
        up_dir: Vec3,
        aspect_ratio: Fixed,
        image_width: u16,
        max_depth: u8,
        half_fov_tan: Fixed,
        aa_factor: u8,
        aperture_tan: Fixed,
        focus_distance: Fixed,
    ) -> Camera {
        let (i, j, k) = Camera::frame(look_at, look_from, up_dir);
        let h = height_for(image_width, aspect_ratio);
        let vh = Fixed::from_int(2).times(half_fov_tan).times(focus_distance);
        let vw = vh.times(Fixed::from_int(image_width as i32).over(Fixed::from_int(h as i32)));
        let vu = i.scale(vw);
        let vv = j.scale(vh.neg());
        let du = vu.over(Fixed::from_int(image_width as i32));
        let dv = vv.over(Fixed::from_int(h as i32));
        let v_corner = look_from.minus(k.scale(focus_distance)).minus(
            vu.over(Fixed::from_int(2)),
        ).minus(vv.over(Fixed::from_int(2)));
        let aa_sqrt = floor_sqrt(aa_factor as int) as u8;
        let dus = du.over(Fixed::from_int((aa_sqrt + 1) as i32));
        let dvs = dv.over(Fixed::from_int((aa_sqrt + 1) as i32));
        let defocus_radius = focus_distance.times(aperture_tan);
        Camera {
            look_at,
            look_from,
            up_dir,
            max_d: max_depth,
            vfov: half_fov_tan,
            ar: aspect_ratio,
            f: focus_distance,
            w: image_width,
            h,
            vh,
            vw,
            vu,
            vv,
            du,
            dv,
            center: look_from,
            v_corner,
            aa_sqrt,
            aa: (aa_sqrt * aa_sqrt) as u8,
            dus,
            dvs,
            s_corner: v_corner.plus(dus).plus(dvs),
            aperture: aperture_tan,
            defocus_u: i.scale(defocus_radius),
            defocus_v: j.scale(defocus_radius),
        }
    }

    /// Where a ray starts, for a stream of samples in `state`: the
    /// centre of the lens, or, with a positive aperture, a point drawn
    /// from the lens disk.
    pub open spec fn ray_origin_spec(self, state: u64) -> (Vec3, u64) {
        if self.aperture.raw <= 0 {
            (self.center, state)
        } else {
            let p = Vec3::in_unit_disk_spec(state, SAMPLE_ATTEMPTS as nat);
            (self.center.plus(self.defocus_u.scale(p.0.0)).plus(self.defocus_v.scale(p.0.1)), p.1)
        }
    }

    /// The first sample position of the pixel in column `i` of row `j`.
    pub open spec fn pixel_start(self, i: u16, j: u16) -> Vec3 {
        self.s_corner.plus(self.du.scale(Fixed::from_int(i as i32))).plus(
            self.dv.scale(Fixed::from_int(j as i32)),
        )
    }

    /// The sum `acc.0` with the light of sample `(pi, pj)` of the pixel
    /// that starts at `start` added, for a stream in state `acc.1`.
    #[verifier::opaque]
    pub open spec fn with_sample(self, world: World, start: Vec3, pi: u8, pj: u8, acc: (Vec3, u64)) -> (
        Vec3,
        u64,
    ) {
        let pos = start.plus(self.dus.scale(Fixed::from_int(pi as i32))).plus(
            self.dvs.scale(Fixed::from_int(pj as i32)),
        );
        let origin = self.ray_origin_spec(acc.1);
        let r = Ray { ori: origin.0, dir: pos.minus(origin.0) };
        let light = ray_color_spec(r, self.max_d as nat, world, origin.1);
        (acc.0.plus(light.0), light.1)
    }

    /// The sum `acc` with the first `n` samples of row `pi` added.
    pub open spec fn with_row(self, world: World, start: Vec3, pi: u8, n: nat, acc: (Vec3, u64)) -> (
        Vec3,
        u64,
    )
        decreases n,
    {
        if n == 0 {
            acc
        } else {
            self.with_sample(
                world,
                start,
                pi,
                (n - 1) as u8,
                self.with_row(world, start, pi, (n - 1) as nat, acc),
            )
        }
    }

    /// The sum `acc` with the first `m` rows of samples added.
    pub open spec fn with_rows(self, world: World, start: Vec3, m: nat, acc: (Vec3, u64)) -> (Vec3, u64)
        decreases m,
    {
        if m == 0 {
            acc
        } else {
            self.with_row(
                world,
                start,
                (m - 1) as u8,
                self.aa_sqrt as nat,
                self.with_rows(world, start, (m - 1) as nat, acc),
            )
        }
    }

    /// The colour of the pixel in column `i` of row `j`: the mean of
    /// its grid of samples, which is their sum over their count, for a
    /// stream of samples in `state`, and the state after the draws.
    pub open spec fn px_color_spec(self, world: World, i: u16, j: u16, state: u64) -> (Vec3, u64) {
        let sum = self.with_rows(
            world,
            self.pixel_start(i, j),
            self.aa_sqrt as nat,
            (black(), state),
        );
        (sum.0.over(Fixed::from_int(self.aa as i32)), sum.1)
    }

    /// Derives the camera from its placement: `half_fov_tan` is the
    /// tangent of half the vertical field of view, `aperture_tan` that
    /// of half the aperture angle.
    pub fn new(
        look_at: Vec3,
        look_from: Vec3,
        up_dir: Vec3,
        aspect_ratio: Fixed,
        image_width: u16,
        max_depth: u8,
        half_fov_tan: Fixed,
        aa_factor: u8,
        aperture_tan: Fixed,
        focus_distance: Fixed,
    ) -> (cam: Camera)
        ensures
            cam == Camera::build(
                look_at,
                look_from,
                up_dir,
                aspect_ratio,
                image_width,
                max_depth,
                half_fov_tan,
                aa_factor,
                aperture_tan,
                focus_distance,
            ),
            cam.h == height_for(image_width, aspect_ratio),
            cam.aa_sqrt == floor_sqrt(aa_factor as int),
            cam.aa == cam.aa_sqrt * cam.aa_sqrt,
            cam.aa <= aa_factor,
            cam.wf(),
    {
        let k: Vec3 = look_from.minus(look_at).unit();
        let i: Vec3 = up_dir.x(k).unit();
        let j: Vec3 = k.x(i);
        let h: u16 = image_height(image_width, aspect_ratio);
        let vh: Fixed = Fixed::from_int(2).times(half_fov_tan).times(focus_distance);
        let vw: Fixed = vh.times(Fixed::from_int(image_width as i32).over(Fixed::from_int(h as i32)));
        let vu: Vec3 = i.scale(vw);
        let vv: Vec3 = j.scale(vh.neg());
        let du: Vec3 = vu.over(Fixed::from_int(image_width as i32));
        let dv: Vec3 = vv.over(Fixed::from_int(h as i32));
        let center: Vec3 = look_from;
        let v_corner: Vec3 = center.minus(k.scale(focus_distance)).minus(
            vu.over(Fixed::from_int(2)),
        ).minus(vv.over(Fixed::from_int(2)));
        proof {
            lemma_floor_sqrt_below(aa_factor as int, 16);
            lemma_floor_sqrt_exists(aa_factor as int);
        }
        let aa_sqrt: u8 = floor_sqrt_of(aa_factor as u128) as u8;
        assert(aa_sqrt * aa_sqrt <= aa_factor) by (nonlinear_arith)
            requires
                is_floor_sqrt(aa_factor as int, aa_sqrt as int),
        ;
        let aa: u8 = aa_sqrt * aa_sqrt;
        let dus: Vec3 = du.over(Fixed::from_int((aa_sqrt + 1) as i32));
        let dvs: Vec3 = dv.over(Fixed::from_int((aa_sqrt + 1) as i32));
        let s_corner: Vec3 = v_corner.plus(dus).plus(dvs);
        let defocus_radius: Fixed = focus_distance.times(aperture_tan);
        Camera {
            look_at,
            look_from,
            up_dir,
            max_d: max_depth,
            vfov: half_fov_tan,
            ar: aspect_ratio,
            f: focus_distance,
            w: image_width,
            h,
            vh,
            vw,
            vu,
            vv,
            du,
            dv,
            center,
            v_corner,
            aa_sqrt,
            aa,
            dus,
            dvs,
            s_corner,
            aperture: aperture_tan,
            defocus_u: i.scale(defocus_radius),
            defocus_v: j.scale(defocus_radius),
        }
    }

    /// Picks the point at which a ray starts.
    pub fn ray_origin(&self, rng: &mut Sampler) -> (p: Vec3)
        ensures
            (p, final(rng).state) == self.ray_origin_spec(old(rng).state),
    {
        if self.aperture.raw <= 0 {
            self.center
        } else {
            let p: Vec3 = Vec3::random_in_unit_disk(rng);
            self.center.plus(self.defocus_u.scale(p.0)).plus(self.defocus_v.scale(p.1))
        }
    }

    /// Computes the colour of the pixel in column `i` of row `j` as
    /// the mean of the light along the rays through its grid of
    /// samples.
    pub fn get_px_color(&self, world: &World, i: u16, j: u16, rng: &mut Sampler) -> (c: Vec3)
        ensures
            (c, final(rng).state) == self.px_color_spec(*world, i, j, old(rng).state),
            self.wf() && world.wf() ==> c.within_unit(),
    {
        proof {
            if self.wf() && world.wf() {
                lemma_pixel_within_unit(*self, *world, i, j, rng.state);
            }
        }
        let mut px_color: Vec3 = Vec3::zero();
        let start: Vec3 = self.s_corner.plus(self.du.scale(Fixed::from_int(i as i32))).plus(
            self.dv.scale(Fixed::from_int(j as i32)),
        );
        let mut pi: u8 = 0;
        while pi < self.aa_sqrt
            invariant
                pi <= self.aa_sqrt,
                start == self.pixel_start(i, j),
                (px_color, rng.state) == self.with_rows(
                    *world,
                    start,
                    pi as nat,
                    (black(), old(rng).state),
                ),
            decreases self.aa_sqrt - pi,
        {
            let ghost before = (px_color, rng.state);
            let mut pj: u8 = 0;
            while pj < self.aa_sqrt
                invariant
                    pj <= self.aa_sqrt,
                    pi < self.aa_sqrt,
                    (px_color, rng.state) == self.with_row(*world, start, pi, pj as nat, before),
                decreases self.aa_sqrt - pj,
            {
                proof {
                    reveal(Camera::with_sample);
                }
                let pos: Vec3 = start.plus(self.dus.scale(Fixed::from_int(pi as i32))).plus(
                    self.dvs.scale(Fixed::from_int(pj as i32)),
                );
                let origin: Vec3 = self.ray_origin(rng);
                let r: Ray = Ray { ori: origin, dir: pos.minus(origin) };
                let light: Vec3 = Camera::ray_color(r, self.max_d, world, rng);
                px_color = px_color.plus(light);
                pj = pj + 1;
            }
            pi = pi + 1;
        }
        px_color.over(Fixed::from_int(self.aa as i32))
    }

    /// Gathers the light along the ray `r` with `depth` scatterings
    /// left. With none left the ray carries no light. A ray that hits
    /// nothing sees the background. At a hit the material scatters the
    /// ray: an attenuation near zero ends the path in black, else the
    /// light along the scattered ray, attenuated, is the result.
    pub fn ray_color(r: Ray, depth: u8, world: &World, rng: &mut Sampler) -> (c: Vec3)
        ensures
            (c, final(rng).state) == ray_color_spec(r, depth as nat, *world, old(rng).state),
            depth == 0 ==> c == black() && final(rng).state == old(rng).state,
            r.dir.wf() && world.wf() ==> c.within_unit(),
        decreases depth,
    {
        proof {
            reveal_with_fuel(ray_color_spec, 1);
            if r.dir.wf() && world.wf() {
                lemma_light_within_unit(r, depth as nat, *world, rng.state);
            }
        }
        if depth == 0 {
            return Vec3::zero();
        }
        let mut rec: HitRecord = HitRecord::new_empty();
        let range: Interval = Interval {
            min: Fixed { raw: HIT_EPSILON_RAW },
            max: Fixed { raw: MAX_RAW },
        };
        if world.hit(r, range, &mut rec) {
            let (r_out, color): (Ray, Vec3) = rec.mat.scatter(r, &rec, rng);
            if !color.near_zero() {
                color.coord_mul(Camera::ray_color(r_out, depth - 1, world, rng))
            } else {
                Vec3::zero()
            }
        } else {
            background(r)
        }
    }

    /// The colour of the pixel at `index`, counted row by row from the
    /// upper left corner, whose samples come from a stream of its own.
    pub open spec fn pixel_at(self, world: World, seed: u64, index: int) -> Vec3 {
        self.px_color_spec(
            world,
            (index % (self.w as int)) as u16,
            (index / (self.w as int)) as u16,
            pixel_seed(seed, index),
        ).0
    }

    /// Whether `pixels` is the picture of the scene `world` for the
    /// seed `seed`: one colour for each pixel, row by row from the top,
    /// each row from the left.
    pub open spec fn renders(self, world: World, seed: u64, pixels: Seq<Vec3>) -> bool {
        &&& pixels.len() == self.w * self.h
        &&& forall|index: int|
            0 <= index < pixels.len() ==> #[trigger] pixels[index] == self.pixel_at(world, seed, index)
    }

    /// Renders the picture: the colours of its pixels, row by row from
    /// the top, each row from the left. Each pixel draws its samples
    /// from a stream of its own, seeded with `pixel_seed`.
    pub fn render(&self, world: &World, seed: u64) -> (pixels: Vec<Vec3>)
        ensures
            self.renders(*world, seed, pixels@),
    {
        let mut pixels: Vec<Vec3> = Vec::new();
        let mut j: u16 = 0;
        assert(0 * self.w == 0);
        while j < self.h
            invariant
                j <= self.h,
                pixels@.len() == j * self.w,
                forall|index: int|
                    0 <= index < pixels@.len() ==> #[trigger] pixels@[index] == self.pixel_at(
                        *world,
                        seed,
                        index,
                    ),
            decreases self.h - j,
        {
            let mut i: u16 = 0;
            while i < self.w
                invariant
                    i <= self.w,
                    j < self.h,
                    pixels@.len() == j * self.w + i,
                    forall|index: int|
                        0 <= index < pixels@.len() ==> #[trigger] pixels@[index] == self.pixel_at(
                            *world,
                            seed,
                            index,
                        ),
                decreases self.w - i,
            {
                proof {
                    lemma_row_major(self.w as int, i as int, j as int);
                }
                let index: u64 = (j as u64) * (self.w as u64) + (i as u64);
                let mut rng: Sampler = Sampler::new(seed_of_pixel(seed, index));
                let c: Vec3 = self.get_px_color(world, i, j, &mut rng);
                pixels.push(c);
                i = i + 1;
            }
            assert((j + 1) * self.w == j * self.w + self.w) by (nonlinear_arith);
            j = j + 1;
        }
        assert(self.h * self.w == self.w * self.h) by (nonlinear_arith);
        pixels
    }
}

/// In a picture `w` pixels wide, the pixel in column `i` of row `j` is
/// the one at index `j * w + i`.
pub proof fn lemma_row_major(w: int, i: int, j: int)
    requires
        0 <= i < w <= 0xffff,
        0 <= j <= 0xffff,
    ensures
        0 <= j * w <= j * w + i < 0x1_0000_0000,
        (j * w + i) % w == i,
        (j * w + i) / w == j,
{
    assert(0 <= j * w <= 0xffff * 0xffff) by (nonlinear_arith)
        requires
            0 <= j <= 0xffff,
            0 < w <= 0xffff,
    ;
    vstd::arithmetic::div_mod::lemma_fundamental_div_mod_converse(j * w + i, w, j, i);
}

/// Rendering is repeatable: two pictures of one scene, taken with one
/// camera and one seed, are equal pixel by pixel.
pub proof fn lemma_render_repeatable(
    cam: Camera,
    world: World,
    seed: u64,
    first: Seq<Vec3>,
    second: Seq<Vec3>,
)
    requires
        cam.renders(world, seed, first),
        cam.renders(world, seed, second),
    ensures
        first == second,
{
    assert(first =~= second);
}

/// In a rendered picture the pixel in column `i` of row `j` stands at
/// index `j * w + i`.
pub proof fn lemma_pixel_of(cam: Camera, world: World, seed: u64, pixels: Seq<Vec3>, i: u16, j: u16)
    requires
        cam.renders(world, seed, pixels),
        i < cam.w,
        j < cam.h,
    ensures
        0 <= j * cam.w + i < pixels.len(),
        pixels[j * cam.w + i] == cam.px_color_spec(
            world,
            i,
            j,
            pixel_seed(seed, j * cam.w + i),
        ).0,
{
    lemma_row_major(cam.w as int, i as int, j as int);
    assert(j * cam.w + i < cam.w * cam.h) by (nonlinear_arith)
        requires
            0 <= i < cam.w,
            0 <= j < cam.h,
    ;
}

/// A picture is made of light: in a scene whose materials pass on no
/// more light than they receive, each channel of each pixel of a
/// rendered picture lies between zero and one.
pub proof fn lemma_picture_within_unit(cam: Camera, world: World, seed: u64, pixels: Seq<Vec3>)
    requires
        cam.wf(),
        world.wf(),
        cam.renders(world, seed, pixels),
    ensures
        forall|index: int| 0 <= index < pixels.len() ==> (#[trigger] pixels[index]).within_unit(),
{
    assert forall|index: int| 0 <= index < pixels.len() implies (#[trigger] pixels[index]).within_unit() by {
        lemma_pixel_within_unit(
            cam,
            world,
            (index % (cam.w as int)) as u16,
            (index / (cam.w as int)) as u16,
            pixel_seed(seed, index),
        );
    }
}

/// The seed of the stream of samples of the pixel at `index`.
pub fn seed_of_pixel(seed: u64, index: u64) -> (s: u64)
    ensures
        s == pixel_seed(seed, index as int),
{
    ((seed as u128 + index as u128) % 0x1_0000_0000_0000_0000u128) as u64
}

/// Computes the height of a picture from its width and aspect ratio.
pub fn image_height(width: u16, aspect_ratio: Fixed) -> (h: u16)
    ensures
        h == height_for(width, aspect_ratio),
{
    let rows: i64 = Fixed::from_int(width as i32).over(aspect_ratio).trunc();
    if rows < 0 {
        0
    } else if rows > 0xffff {
        0xffff
    } else {
        rows as u16
    }
}

/// Computes the background that a ray sees.
pub fn background(r: Ray) -> (c: Vec3)
    ensures
        c == background_spec(r),
{
    proof {
        reveal(background_spec);
    }
    let unit_dir: Vec3 = r.dir.unit();
    let a: Fixed = Fixed { raw: HALF_RAW }.times(unit_dir.1.plus(Fixed::from_int(1)));
    let one: Fixed = Fixed::from_int(1);
    Vec3(one, one, one).scale(one.minus(a)).plus(
        Vec3(Fixed { raw: HALF_RAW }, Fixed { raw: SKY_GREEN_RAW }, one).scale(a),
    )
}

/// The background lies between white and the sky colour: each of its
/// channels lies between zero and one.
pub proof fn lemma_background_within_unit(r: Ray)
    requires
        r.dir.wf(),
    ensures
        background_spec(r).within_unit(),
{
    reveal(background_spec);
    lemma_unit_components(r.dir);
    let u = r.dir.unit().1;
    let a = Fixed { raw: HALF_RAW }.times(u.plus(Fixed::from_int(1)));
    let s = u.plus(Fixed::from_int(1));
    assert(0 <= s.raw <= 2 * ONE_RAW);
    assert(0 <= HALF_RAW * s.raw <= HALF_RAW * (2 * ONE_RAW)) by (nonlinear_arith)
        requires
            0 <= s.raw <= 2 * ONE_RAW,
            HALF_RAW == 0x8000_0000,
    ;
    vstd::arithmetic::div_mod::lemma_div_is_ordered(
        HALF_RAW * s.raw,
        HALF_RAW * (2 * ONE_RAW),
        ONE_RAW as int,
    );
    vstd::arithmetic::div_mod::lemma_div_pos_is_pos(HALF_RAW * s.raw, ONE_RAW as int);
    assert(0 <= a.raw <= ONE_RAW);
    let b = Fixed::from_int(1).minus(a);
    lemma_times_fraction(b, Fixed::from_int(1));
    lemma_times_fraction(a, Fixed { raw: HALF_RAW });
    lemma_times_fraction(a, Fixed { raw: SKY_GREEN_RAW });
    lemma_times_fraction(a, Fixed::from_int(1));
}

/// With no scattering left a ray gathers no light and draws no sample.
pub proof fn lemma_no_depth_no_light(r: Ray, world: World, state: u64)
    ensures
        ray_color_spec(r, 0, world, state) == (black(), state),
{
    reveal_with_fuel(ray_color_spec, 1);
}

/// A ray that hits nothing gathers the background and draws no sample.
pub proof fn lemma_miss_sees_background(r: Ray, depth: nat, world: World, state: u64)
    requires
        depth > 0,
        world.hit_spec(r, hit_range()).is_none(),
    ensures
        ray_color_spec(r, depth, world, state) == (background_spec(r), state),
{
    reveal_with_fuel(ray_color_spec, 1);
}

/// A ray that hits a surface which absorbs all light gathers none,
/// however many scatterings are left.
pub proof fn lemma_absorbed_is_black(r: Ray, depth: nat, world: World, state: u64)
    requires
        world.hit_spec(r, hit_range()).is_some(),
        world.hit_spec(r, hit_range()).unwrap().mat.absorbs(),
    ensures
        ray_color_spec(r, depth, world, state).0 == black(),
{
    reveal_with_fuel(ray_color_spec, 1);
    let rec = world.hit_spec(r, hit_range()).unwrap();
    lemma_attenuation(rec.mat, r, rec, state);
}

/// Light is never gained on the way: in a scene whose materials pass
/// on no more light than they receive, each channel of the light
/// that a ray gathers lies between zero and one.
pub proof fn lemma_light_within_unit(r: Ray, depth: nat, world: World, state: u64)
    requires
        r.dir.wf(),
        world.wf(),
    ensures
        ray_color_spec(r, depth, world, state).0.within_unit(),
    decreases depth,
{
    reveal_with_fuel(ray_color_spec, 1);
    if depth > 0 {
        lemma_world_hit(world, r, hit_range());
        match world.hit_spec(r, hit_range()) {
            Some(rec) => {
                lemma_attenuation(rec.mat, r, rec, state);
                let scattered = rec.mat.scatter_spec(r, rec, state);
                if !scattered.0.1.near_zero() {
                    lemma_light_within_unit(scattered.0.0, (depth - 1) as nat, world, scattered.1);
                    let deeper = ray_color_spec(scattered.0.0, (depth - 1) as nat, world, scattered.1);
                    lemma_coord_mul_within_unit(scattered.0.1, deeper.0);
                }
            },
            None => {
                lemma_background_within_unit(r);
            },
        }
    }
}

/// Whether each channel of `c` lies between zero and `top`.
pub open spec fn at_most(c: Vec3, top: int) -> bool {
    &&& 0 <= c.0.raw <= top
    &&& 0 <= c.1.raw <= top
    &&& 0 <= c.2.raw <= top
}

/// One sample adds at most one to each channel.
proof fn lemma_sample_share(cam: Camera, world: World, start: Vec3, pi: u8, pj: u8, acc: (Vec3, u64), top: int)
    requires
        world.wf(),
        at_most(acc.0, top),
        top + ONE_RAW <= 256 * ONE_RAW,
    ensures
        at_most(cam.with_sample(world, start, pi, pj, acc).0, top + ONE_RAW),
{
    reveal(Camera::with_sample);
    let pos = start.plus(cam.dus.scale(Fixed::from_int(pi as i32))).plus(
        cam.dvs.scale(Fixed::from_int(pj as i32)),
    );
    let origin = cam.ray_origin_spec(acc.1);
    let r = Ray { ori: origin.0, dir: pos.minus(origin.0) };
    lemma_light_within_unit(r, cam.max_d as nat, world, origin.1);
}

/// The first `n` samples of a row add at most `n`.
proof fn lemma_row_share(cam: Camera, world: World, start: Vec3, pi: u8, n: nat, acc: (Vec3, u64), top: int)
    requires
        world.wf(),
        at_most(acc.0, top),
        top + n * ONE_RAW <= 256 * ONE_RAW,
    ensures
        at_most(cam.with_row(world, start, pi, n, acc).0, top + n * ONE_RAW),
    decreases n,
{
    if n > 0 {
        lemma_row_share(cam, world, start, pi, (n - 1) as nat, acc, top);
        lemma_sample_share(
            cam,
            world,
            start,
            pi,
            (n - 1) as u8,
            cam.with_row(world, start, pi, (n - 1) as nat, acc),
            top + (n - 1) * ONE_RAW,
        );
    }
}

/// The first `m` rows of samples add at most `m` times the samples of
/// a row.
proof fn lemma_rows_share(cam: Camera, world: World, start: Vec3, m: nat, acc: (Vec3, u64))
    requires
        world.wf(),
        cam.wf(),
        m <= cam.aa_sqrt,
        acc.0 == black(),
    ensures
        at_most(cam.with_rows(world, start, m, acc).0, m * cam.aa_sqrt * ONE_RAW),
        m * cam.aa_sqrt <= cam.aa,
    decreases m,
{
    assert(0 <= m * cam.aa_sqrt <= cam.aa) by (nonlinear_arith)
        requires
            0 <= m <= cam.aa_sqrt,
            cam.aa == cam.aa_sqrt * cam.aa_sqrt,
    ;
    if m > 0 {
        assert(m * cam.aa_sqrt == (m - 1) * cam.aa_sqrt + cam.aa_sqrt && (m - 1) * cam.aa_sqrt >= 0)
            by (nonlinear_arith)
            requires
                m >= 1,
        ;
        lemma_rows_share(cam, world, start, (m - 1) as nat, acc);
        lemma_row_share(
            cam,
            world,
            start,
            (m - 1) as u8,
            cam.aa_sqrt as nat,
            cam.with_rows(world, start, (m - 1) as nat, acc),
            (m - 1) * cam.aa_sqrt * ONE_RAW,
        );
    }
}

/// A pixel is a mean of light: in a scene whose materials pass on no
/// more light than they receive, each channel of a pixel's colour
/// lies between zero and one.
pub proof fn lemma_pixel_within_unit(cam: Camera, world: World, i: u16, j: u16, state: u64)
    requires
        cam.wf(),
        world.wf(),
    ensures
        cam.px_color_spec(world, i, j, state).0.within_unit(),
{
    let start = cam.pixel_start(i, j);
    lemma_rows_share(cam, world, start, cam.aa_sqrt as nat, (black(), state));
    let sum = cam.with_rows(world, start, cam.aa_sqrt as nat, (black(), state)).0;
    if cam.aa == 0 {
        assert(sum == black());
        assert(sum.0.raw * MAX_RAW == 0);
    } else {
        let k = cam.aa as i32;
        lemma_over_whole(sum.0, k);
        lemma_over_whole(sum.1, k);
        lemma_over_whole(sum.2, k);
        vstd::arithmetic::div_mod::lemma_div_is_ordered(sum.0.raw as int, k * ONE_RAW, k as int);
        vstd::arithmetic::div_mod::lemma_div_is_ordered(sum.1.raw as int, k * ONE_RAW, k as int);
        vstd::arithmetic::div_mod::lemma_div_is_ordered(sum.2.raw as int, k * ONE_RAW, k as int);
        vstd::arithmetic::div_mod::lemma_div_by_multiple(ONE_RAW as int, k as int);
        vstd::arithmetic::div_mod::lemma_div_pos_is_pos(sum.0.raw as int, k as int);
        vstd::arithmetic::div_mod::lemma_div_pos_is_pos(sum.1.raw as int, k as int);
        vstd::arithmetic::div_mod::lemma_div_pos_is_pos(sum.2.raw as int, k as int);
        assert(k * ONE_RAW == ONE_RAW * k) by (nonlinear_arith);
    }
}

/// The axes of the camera are at right angles and of length one, up
/// to rounding. The upward axis stands at right angles to the other
/// two within nine units in the last place. The backward axis has
/// length one within the rounding of a normalisation, where the
/// camera does not stand at the point it looks at. Where moreover the
/// up direction has components of at most one in magnitude and does
/// not point along the backward axis, the axis to the right has
/// length one within the same rounding, and it stands at right
/// angles to the backward axis within six units and twelve over the
/// length of the cross product of the up direction and that axis.
pub proof fn lemma_frame(look_at: Vec3, look_from: Vec3, up_dir: Vec3)
    ensures
        ({
            let (i, j, k) = Camera::frame(look_at, look_from, up_dir);
            let back = look_from.minus(look_at).len().raw as int;
            let side = up_dir.x(k).len().raw as int;
            &&& magnitude(j.dot(k).raw as int) <= 9
            &&& magnitude(j.dot(i).raw as int) <= 9
            &&& 0 < back < MAX_RAW ==> ONE_RAW - 4 <= k.len().raw <= ONE_RAW + (ONE_RAW as int) / back
            &&& up_dir.within_one() && 0 < side ==> {
                &&& ONE_RAW - 4 <= i.len().raw <= ONE_RAW + (ONE_RAW as int) / side
                &&& side * magnitude(i.dot(k).raw as int) <= 12 * ONE_RAW + 6 * side
            }
        }),
{
    let (i, j, k) = Camera::frame(look_at, look_from, up_dir);
    let toward = look_from.minus(look_at);
    lemma_unit_components(toward);
    lemma_unit_components(up_dir.x(k));
    lemma_cross_orthogonal(k, i);
    if 0 < toward.len().raw < MAX_RAW {
        lemma_unit_length(toward);
    }
    let c = up_dir.x(k);
    if up_dir.within_one() && 0 < c.len().raw {
        lemma_cross_reach(up_dir, k);
        lemma_cross_orthogonal(up_dir, k);
        lemma_len_reach(c);
        lemma_unit_length(c);
        lemma_unit_dot(c, k);
        let side = c.len().raw as int;
        let before = magnitude(c.dot(k).raw as int);
        assert(ONE_RAW * (before + 3) <= 12 * ONE_RAW) by (nonlinear_arith)
            requires
                0 <= before <= 9,
        ;
    }
}

} // verus!
