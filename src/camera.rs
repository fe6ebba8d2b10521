//! The camera and the path integrator.
use crate::color::{rgb_of, write_color, Color, Rgb};
use crate::fixed::{fmul, ONE};
use crate::hittable::{closest_hit, Hittable, HittableList, Sphere};
use crate::material::is_reflectance;
use crate::ray::{Point, Ray, DIR_LIMIT, WORLD};
use crate::utils::Interval;
use crate::vec3::{
    abs_le, bounded, difference_of, fixed_mul, lemma_div_abs_bound, lemma_mul_abs_bound,
    lemma_unit_bounded, lemma_unit_draw_bounded, is_unit_draw, product_of, random_range, random_unit_vector, unit_of, Vec3, LIMIT,
};
use vstd::arithmetic::div_mod::{lemma_div_is_ordered, lemma_div_is_ordered_by_denominator};
use vstd::prelude::*;

verus! {

/// Hits closer than this parameter (about 0.001) are ignored, so that a
/// scattered ray does not meet the surface it leaves.
pub const SHADOW_EPSILON: i64 = 66;

/// The red and green channels of the sky color (0.3); its blue channel is 1.
pub const SKY_RG: i64 = 19661;

pub const MAX_WIDTH: i32 = 8192;

pub const MAX_HEIGHT: i32 = 8192;

/// At most 2^24 samples, so that a pixel's color sum (each sample at most
/// ONE = 2^16) stays within the 2^40 limit of vector arithmetic.
pub const MAX_SAMPLES: i32 = 16777216;

/// The integrator recurses once per bounce, so the depth bounds its stack use.
pub const MAX_DEPTH: i32 = 1024;

/// Why a camera configuration is refused.
#[derive(Clone, Copy, Debug, PartialEq, Eq, Structural)]
pub enum CameraError {
    NonPositiveAspectRatio,
    NonPositiveWidth,
    NonPositiveSamples,
    NegativeDepth,
    /// The image would have no rows.
    ZeroHeight,
    /// The width, height, sample count or depth exceeds its limit.
    TooLarge,
}

/// The image height: `width / aspect_ratio`, rounded down.
pub open spec fn height_for(aspect_ratio: int, width: int) -> int {
    (width * ONE) / aspect_ratio
}

/// The error for a configuration, checked in this order; none for a valid one.
pub open spec fn config_error(aspect_ratio: int, width: int, samples: int, depth: int) -> Option<CameraError> {
    if aspect_ratio <= 0 {
        Some(CameraError::NonPositiveAspectRatio)
    } else if width <= 0 {
        Some(CameraError::NonPositiveWidth)
    } else if samples <= 0 {
        Some(CameraError::NonPositiveSamples)
    } else if depth < 0 {
        Some(CameraError::NegativeDepth)
    } else if width > MAX_WIDTH || samples > MAX_SAMPLES || depth > MAX_DEPTH {
        Some(CameraError::TooLarge)
    } else if height_for(aspect_ratio, width) == 0 {
        Some(CameraError::ZeroHeight)
    } else if height_for(aspect_ratio, width) > MAX_HEIGHT {
        Some(CameraError::TooLarge)
    } else {
        None
    }
}

/// The viewport is 2.0 high and as wide as the image's proportions make it.
pub open spec fn viewport_width(width: int, height: int) -> int {
    (2 * ONE * width) / height
}

/// The horizontal distance between neighbouring pixel centers.
pub open spec fn step_u(width: int, height: int) -> int {
    viewport_width(width, height) / width
}

/// The vertical distance between neighbouring pixel centers.
pub open spec fn step_v(height: int) -> int {
    (2 * ONE) / height
}

pub open spec fn black() -> Color {
    Vec3 { x: 0, y: 0, z: 0 }
}

/// The sky: white blended toward (0.3, 0.3, 1.0) as the ray turns upward.
pub open spec fn background_of(r: Ray) -> Color {
    let a = (unit_of(r.dir).y + ONE) / 2;
    Vec3 {
        x: (ONE - a + fmul(a, SKY_RG as int)) as i64,
        y: (ONE - a + fmul(a, SKY_RG as int)) as i64,
        z: (ONE - a + fmul(a, ONE as int)) as i64,
    }
}

/// The random unit vector used at bounce `k` (zero where none was drawn).
pub open spec fn unit_at(units: Seq<Vec3>, k: int) -> Vec3 {
    if 0 <= k < units.len() {
        units[k]
    } else {
        Vec3 { x: 0, y: 0, z: 0 }
    }
}

/// Every entry is a random unit vector drawn from the unit sphere.
pub open spec fn all_unit_draws(units: Seq<Vec3>) -> bool {
    forall|k: int| 0 <= k < units.len() ==> is_unit_draw(#[trigger] units[k])
}

/// The interval in which bounces look for hits.
pub open spec fn bounce_interval() -> Interval {
    Interval { min: SHADOW_EPSILON, max: i64::MAX }
}

/// The color carried back along `r` at bounce `depth`: black once `max_depth`
/// bounces are spent or when a surface absorbs the ray, the sky on a miss,
/// otherwise the attenuation times the color of the scattered ray.
pub open spec fn trace(world: Seq<Sphere>, r: Ray, depth: int, max_depth: int, units: Seq<Vec3>) -> Color
    decreases max_depth - depth,
{
    if depth >= max_depth {
        black()
    } else {
        match closest_hit(world, r, bounce_interval()) {
            None => background_of(r),
            Some(rec) => match rec.mat.scatter_spec(r, rec, unit_at(units, depth)) {
                None => black(),
                Some((attenuation, scattered)) => product_of(
                    attenuation,
                    trace(world, scattered, depth + 1, max_depth, units),
                ),
            },
        }
    }
}

/// The color along a ray reads only the random unit vectors of bounces
/// `depth` to `max_depth - 1`: the integrator never goes deeper than
/// `max_depth` bounces.
pub proof fn lemma_trace_reads_only_budget(
    world: Seq<Sphere>,
    r: Ray,
    depth: int,
    max_depth: int,
    u1: Seq<Vec3>,
    u2: Seq<Vec3>,
)
    requires
        forall|k: int| depth <= k < max_depth ==> unit_at(u1, k) == unit_at(u2, k),
    ensures
        trace(world, r, depth, max_depth, u1) == trace(world, r, depth, max_depth, u2),
    decreases max_depth - depth,
{
    if depth < max_depth {
        match closest_hit(world, r, bounce_interval()) {
            None => {},
            Some(rec) => match rec.mat.scatter_spec(r, rec, unit_at(u1, depth)) {
                None => {},
                Some((_, scattered)) => {
                    lemma_trace_reads_only_budget(world, scattered, depth + 1, max_depth, u1, u2);
                },
            },
        }
    }
}

/// With a budget of one bounce, a ray that meets a surface is black (whatever
/// the surface does, the scattered ray has no budget left) and a ray that
/// meets nothing shows the sky.
pub proof fn lemma_one_bounce(world: Seq<Sphere>, r: Ray, units: Seq<Vec3>)
    ensures
        trace(world, r, 0, 1, units) == (if closest_hit(world, r, bounce_interval()) is Some {
            black()
        } else {
            background_of(r)
        }),
{
    match closest_hit(world, r, bounce_interval()) {
        None => {},
        Some(rec) => match rec.mat.scatter_spec(r, rec, unit_at(units, 0)) {
            None => {},
            Some((attenuation, scattered)) => {
                assert(trace(world, scattered, 1, 1, units) == black());
                assert(attenuation.x * 0 == 0 && attenuation.y * 0 == 0 && attenuation.z * 0 == 0);
                assert(product_of(attenuation, black()) == black());
            },
        },
    }
}

proof fn lemma_reflectance_product(a: Color, c: Color)
    requires
        is_reflectance(a),
        is_reflectance(c),
    ensures
        is_reflectance(product_of(a, c)),
        abs_le(a.x * c.x, LIMIT * ONE),
        abs_le(a.y * c.y, LIMIT * ONE),
        abs_le(a.z * c.z, LIMIT * ONE),
{
    lemma_reflectance_channel(a.x as int, c.x as int);
    lemma_reflectance_channel(a.y as int, c.y as int);
    lemma_reflectance_channel(a.z as int, c.z as int);
}

proof fn lemma_reflectance_channel(a: int, c: int)
    requires
        0 <= a <= ONE,
        0 <= c <= ONE,
    ensures
        0 <= fmul(a, c) <= ONE,
        abs_le(a * c, LIMIT * ONE),
{
    assert(0 <= a * c <= ONE * ONE) by (nonlinear_arith)
        requires
            0 <= a <= ONE,
            0 <= c <= ONE,
    ;
    lemma_div_abs_bound(a * c, ONE as int, ONE as int);
    lemma_div_is_ordered(0, a * c, ONE as int);
}

/// The sky color seen along `r`.
pub fn background(r: &Ray) -> (res: Color)
    requires
        r.wf(),
    ensures
        res == background_of(*r),
        is_reflectance(res),
{
    let unit_direction = r.dir.normalize();
    let a = (unit_direction.y + ONE) / 2;
    proof {
        lemma_reflectance_channel(a as int, SKY_RG as int);
        lemma_reflectance_channel(a as int, ONE as int);
    }
    let rg = ONE - a + fixed_mul(a, SKY_RG);
    Vec3 { x: rg, y: rg, z: ONE - a + fixed_mul(a, ONE) }
}

/// The random draws of one sample: two jitter values in `[0, ONE)` and the
/// unit vector for each bounce.
pub struct SampleDraw {
    pub jitter_u: i64,
    pub jitter_v: i64,
    pub units: Vec<Vec3>,
}

impl View for SampleDraw {
    type V = (i64, i64, Seq<Vec3>);

    open spec fn view(&self) -> (i64, i64, Seq<Vec3>) {
        (self.jitter_u, self.jitter_v, self.units@)
    }
}

/// Jitters in `[0, ONE)` and unit vectors drawn from the unit sphere.
pub open spec fn draw_ok(d: (i64, i64, Seq<Vec3>)) -> bool {
    0 <= d.0 < ONE && 0 <= d.1 < ONE && all_unit_draws(d.2)
}

pub open spec fn draw_views(s: Seq<SampleDraw>) -> Seq<(i64, i64, Seq<Vec3>)> {
    Seq::new(s.len(), |k: int| s[k]@)
}

pub open spec fn draws_ok(draws: Seq<(i64, i64, Seq<Vec3>)>, n: int) -> bool {
    draws.len() == n && forall|k: int| 0 <= k < draws.len() ==> draw_ok(#[trigger] draws[k])
}

/// Camera settings and the projection derived from them.
#[derive(Clone, Copy, Debug)]
pub struct Camera {
    /// Width over height, in fixed point.
    pub aspect_ratio: i64,
    pub width: i32,
    pub samples_per_pixel: i32,
    pub max_depth: i32,
    pub height: i32,
    pub camera_center: Point,
    pub pixel00_loc: Point,
    pub pixel_delta_u: Vec3,
    pub pixel_delta_v: Vec3,
}

impl Camera {
    /// The settings are valid and the projection is the one they determine: a
    /// camera at the origin looking down -z, with focal length 1.
    pub open spec fn wf(self) -> bool {
        let h = self.height as int;
        let w = self.width as int;
        let su = step_u(w, h);
        let sv = step_v(h);
        &&& config_error(self.aspect_ratio as int, w, self.samples_per_pixel as int, self.max_depth as int) is None
        &&& h == height_for(self.aspect_ratio as int, w)
        &&& self.camera_center == Vec3 { x: 0, y: 0, z: 0 }
        &&& self.pixel_delta_u == Vec3 { x: su as i64, y: 0, z: 0 }
        &&& self.pixel_delta_v == Vec3 { x: 0, y: (-sv) as i64, z: 0 }
        &&& self.pixel00_loc == Vec3 {
            x: (-(viewport_width(w, h) / 2) + su / 2) as i64,
            y: (ONE - sv / 2) as i64,
            z: (-ONE) as i64,
        }
    }

    /// Checks the configuration and derives the projection. `aspect_ratio` is
    /// width over height in fixed point.
    pub fn new(aspect_ratio: i64, width: i32, samples_per_pixel: i32, max_depth: i32) -> (r: Result<Camera, CameraError>)
        ensures
            match r {
                Ok(cam) => {
                    &&& config_error(aspect_ratio as int, width as int, samples_per_pixel as int, max_depth as int) is None
                    &&& cam.wf()
                    &&& cam.aspect_ratio == aspect_ratio && cam.width == width
                    &&& cam.samples_per_pixel == samples_per_pixel && cam.max_depth == max_depth
                },
                Err(e) => config_error(aspect_ratio as int, width as int, samples_per_pixel as int, max_depth as int)
                    == Some(e),
            },
    {
        if aspect_ratio <= 0 {
            return Err(CameraError::NonPositiveAspectRatio);
        }
        if width <= 0 {
            return Err(CameraError::NonPositiveWidth);
        }
        if samples_per_pixel <= 0 {
            return Err(CameraError::NonPositiveSamples);
        }
        if max_depth < 0 {
            return Err(CameraError::NegativeDepth);
        }
        if width > MAX_WIDTH || samples_per_pixel > MAX_SAMPLES || max_depth > MAX_DEPTH {
            return Err(CameraError::TooLarge);
        }
        let h: i64 = (width as i64 * ONE) / aspect_ratio;
        if h == 0 {
            return Err(CameraError::ZeroHeight);
        }
        if h > MAX_HEIGHT as i64 {
            return Err(CameraError::TooLarge);
        }
        let w = width as i64;
        proof {
            assert(0 < 2 * ONE * w <= 2 * ONE * 8192) by (nonlinear_arith)
                requires
                    0 < w <= 8192,
            ;
            lemma_div_is_ordered_by_denominator(2 * ONE * w, 1, h as int);
            lemma_div_is_ordered(0, 2 * ONE * w, h as int);
        }
        let vw: i64 = (2 * ONE * w) / h;
        let su: i64 = vw / w;
        let sv: i64 = (2 * ONE) / h;
        let cam = Camera {
            aspect_ratio,
            width,
            samples_per_pixel,
            max_depth,
            height: h as i32,
            camera_center: Vec3 { x: 0, y: 0, z: 0 },
            pixel00_loc: Vec3 { x: -(vw / 2) + su / 2, y: ONE - sv / 2, z: -ONE },
            pixel_delta_u: Vec3 { x: su, y: 0, z: 0 },
            pixel_delta_v: Vec3 { x: 0, y: -sv, z: 0 },
        };
        Ok(cam)
    }

    proof fn lemma_projection_bounds(self)
        requires
            self.wf(),
        ensures
            1 <= self.height <= MAX_HEIGHT,
            1 <= self.width <= MAX_WIDTH,
            0 <= self.pixel_delta_u.x <= 2 * ONE,
            -2 * ONE <= self.pixel_delta_v.y <= 0,
            abs_le(self.pixel00_loc.x as int, 2 * ONE * MAX_WIDTH),
            abs_le(self.pixel00_loc.y as int, 2 * ONE),
            self.pixel00_loc.z == -ONE,
    {
        let w = self.width as int;
        let h = self.height as int;
        let vw = viewport_width(w, h);
        lemma_div_is_ordered_by_denominator(2 * ONE * w, 1, h);
        lemma_div_is_ordered(0, 2 * ONE * w, h);
        lemma_div_is_ordered(vw, 2 * ONE * w, w);
        lemma_div_is_ordered(0, vw, w);
        assert((2 * ONE * w) / w == 2 * ONE) by {
            vstd::arithmetic::div_mod::lemma_div_by_multiple(2 * ONE, w);
        }
        lemma_div_is_ordered_by_denominator(2 * ONE, 1, h);
        lemma_div_is_ordered(0, 2 * ONE, h);
        assert(vw <= 2 * ONE * MAX_WIDTH) by (nonlinear_arith)
            requires
                vw <= 2 * ONE * w,
                w <= MAX_WIDTH,
        ;
    }

    /// The point sampled for pixel `(i, j)` with jitter draws `ju`, `jv` in
    /// `[0, ONE)`: the pixel center moved back by up to half a pixel step.
    pub open spec fn sample_point(self, i: int, j: int, ju: int, jv: int) -> Vec3 {
        let su = self.pixel_delta_u.x as int;
        let sv = self.pixel_delta_v.y as int;
        Vec3 {
            x: (self.pixel00_loc.x + i * su + fmul(-(ju / 2), su)) as i64,
            y: (self.pixel00_loc.y + j * sv + fmul(-(jv / 2), sv)) as i64,
            z: self.pixel00_loc.z,
        }
    }

    /// The camera ray toward the sample point, with unit direction.
    pub open spec fn ray_through(self, i: int, j: int, ju: int, jv: int) -> Ray {
        Ray {
            orig: self.camera_center,
            dir: unit_of(difference_of(self.sample_point(i, j, ju, jv), self.camera_center)),
        }
    }

    /// The offset of a sample from its pixel center for jitter draws `ju`, `jv`.
    pub fn pixel_sample_squared(&self, ju: i64, jv: i64) -> (r: Vec3)
        requires
            self.wf(),
            0 <= ju < ONE,
            0 <= jv < ONE,
        ensures
            r.x == fmul(-(ju / 2), self.pixel_delta_u.x as int),
            r.y == fmul(-(jv / 2), self.pixel_delta_v.y as int),
            r.z == 0,
            bounded(r, ONE as int),
    {
        proof {
            self.lemma_projection_bounds();
            lemma_mul_abs_bound(-(ju / 2), self.pixel_delta_u.x as int, ONE / 2, 2 * ONE);
            lemma_mul_abs_bound(-(jv / 2), self.pixel_delta_v.y as int, ONE / 2, 2 * ONE);
            lemma_div_abs_bound(-(ju / 2) * self.pixel_delta_u.x, ONE as int, ONE as int);
            lemma_div_abs_bound(-(jv / 2) * self.pixel_delta_v.y, ONE as int, ONE as int);
        }
        let px: i64 = -(ju / 2);
        let py: i64 = -(jv / 2);
        Vec3 { x: fixed_mul(px, self.pixel_delta_u.x), y: fixed_mul(py, self.pixel_delta_v.y), z: 0 }
    }

    /// The camera ray for pixel `(i, j)` (column, row) with jitter draws `ju`, `jv`.
    pub fn get_ray_with(&self, i: i32, j: i32, ju: i64, jv: i64) -> (r: Ray)
        requires
            self.wf(),
            0 <= i < self.width,
            0 <= j < self.height,
            0 <= ju < ONE,
            0 <= jv < ONE,
        ensures
            r == self.ray_through(i as int, j as int, ju as int, jv as int),
            r.wf(),
    {
        proof {
            self.lemma_projection_bounds();
            lemma_mul_abs_bound(i as int, self.pixel_delta_u.x as int, MAX_WIDTH as int, 2 * ONE);
            lemma_mul_abs_bound(j as int, self.pixel_delta_v.y as int, MAX_HEIGHT as int, 2 * ONE);
        }
        let offset = self.pixel_sample_squared(ju, jv);
        let sample = Vec3 {
            x: self.pixel00_loc.x + i as i64 * self.pixel_delta_u.x + offset.x,
            y: self.pixel00_loc.y + j as i64 * self.pixel_delta_v.y + offset.y,
            z: self.pixel00_loc.z,
        };
        let dir = sample.minus(&self.camera_center).normalize();
        Ray::new(self.camera_center, dir)
    }

    /// The camera ray for pixel `(i, j)` with random jitter.
    pub fn get_ray(&self, i: i32, j: i32) -> (r: Ray)
        requires
            self.wf(),
            0 <= i < self.width,
            0 <= j < self.height,
        ensures
            exists|ju: int, jv: int| 0 <= ju < ONE && 0 <= jv < ONE && r == self.ray_through(i as int, j as int, ju, jv),
            r.wf(),
    {
        let ju = random_range(0, ONE);
        let jv = random_range(0, ONE);
        self.get_ray_with(i, j, ju, jv)
    }

    /// The color of one sample of pixel `(i, j)`.
    pub open spec fn sample_color(self, world: Seq<Sphere>, i: int, j: int, d: (i64, i64, Seq<Vec3>)) -> Color {
        trace(world, self.ray_through(i, j, d.0 as int, d.1 as int), 0, self.max_depth as int, d.2)
    }

    /// The sum of the first `n` sample colors of pixel `(i, j)`.
    pub open spec fn color_sum(self, world: Seq<Sphere>, i: int, j: int, draws: Seq<(i64, i64, Seq<Vec3>)>, n: int) -> Color
        decreases n,
    {
        if n <= 0 {
            black()
        } else {
            crate::vec3::sum_of(
                self.color_sum(world, i, j, draws, n - 1),
                self.sample_color(world, i, j, draws[n - 1]),
            )
        }
    }

    /// Pixel `(i, j)` rendered with the given draws: the mean of the sample
    /// colors, quantized.
    pub open spec fn pixel_spec(self, world: Seq<Sphere>, i: int, j: int, draws: Seq<(i64, i64, Seq<Vec3>)>) -> Rgb {
        rgb_of(self.color_sum(world, i, j, draws, draws.len() as int), self.samples_per_pixel as int)
    }

    /// `px` is pixel `(i, j)` rendered with some valid draws.
    pub open spec fn is_pixel_render(self, world: Seq<Sphere>, i: int, j: int, px: Rgb) -> bool {
        exists|draws: Seq<(i64, i64, Seq<Vec3>)>|
            draws_ok(draws, self.samples_per_pixel as int) && px == self.pixel_spec(world, i, j, draws)
    }

    /// With one sample and a budget of one bounce, a pixel whose camera ray
    /// meets the scene is black and any other pixel shows the sky along its
    /// ray, quantized.
    pub proof fn lemma_one_bounce_pixel(self, world: Seq<Sphere>, i: int, j: int, draws: Seq<(i64, i64, Seq<Vec3>)>)
        requires
            self.max_depth == 1,
            self.samples_per_pixel == 1,
            draws.len() == 1,
        ensures
            ({
                let ray = self.ray_through(i, j, draws[0].0 as int, draws[0].1 as int);
                self.pixel_spec(world, i, j, draws) == rgb_of(
                    if closest_hit(world, ray, bounce_interval()) is Some {
                        black()
                    } else {
                        background_of(ray)
                    },
                    1,
                )
            }),
    {
        let ray = self.ray_through(i, j, draws[0].0 as int, draws[0].1 as int);
        lemma_one_bounce(world, ray, draws[0].2);
        let c = self.sample_color(world, i, j, draws[0]);
        assert(self.color_sum(world, i, j, draws, 0) == black());
        assert(self.color_sum(world, i, j, draws, 1) == crate::vec3::sum_of(black(), c));
        assert(crate::vec3::sum_of(black(), c) == c);
    }

    proof fn lemma_color_sum_prefix(
        self,
        world: Seq<Sphere>,
        i: int,
        j: int,
        a: Seq<(i64, i64, Seq<Vec3>)>,
        b: Seq<(i64, i64, Seq<Vec3>)>,
        n: int,
    )
        requires
            n <= a.len(),
            n <= b.len(),
            forall|k: int| 0 <= k < n ==> a[k] == b[k],
        ensures
            self.color_sum(world, i, j, a, n) == self.color_sum(world, i, j, b, n),
        decreases n,
    {
        if n > 0 {
            self.lemma_color_sum_prefix(world, i, j, a, b, n - 1);
        }
    }

    /// Pixel `(i, j)` rendered with one draw per sample.
    pub fn pixel_color_with(&self, world: &HittableList, i: i32, j: i32, draws: &Vec<SampleDraw>) -> (res: Rgb)
        requires
            self.wf(),
            world.wf(),
            0 <= i < self.width,
            0 <= j < self.height,
            draws_ok(draw_views(draws@), self.samples_per_pixel as int),
        ensures
            res == self.pixel_spec(world.objects@, i as int, j as int, draw_views(draws@)),
    {
        let ghost views = draw_views(draws@);
        let mut sum = Vec3 { x: 0, y: 0, z: 0 };
        let mut s: usize = 0;
        while s < draws.len()
            invariant
                self.wf(),
                world.wf(),
                0 <= i < self.width,
                0 <= j < self.height,
                views == draw_views(draws@),
                draws_ok(views, self.samples_per_pixel as int),
                0 <= s <= draws.len(),
                sum == self.color_sum(world.objects@, i as int, j as int, views, s as int),
                0 <= sum.x <= s * ONE && 0 <= sum.y <= s * ONE && 0 <= sum.z <= s * ONE,
            decreases draws.len() - s,
        {
            let d = &draws[s];
            assert(draw_ok(views[s as int]));
            let r = self.get_ray_with(i, j, d.jitter_u, d.jitter_v);
            let c = self.ray_color_with(&r, 0, world, &d.units);
            sum = sum.plus(&c);
            s = s + 1;
        }
        write_color(sum, self.samples_per_pixel)
    }

    /// Pixel `(i, j)` rendered with fresh random draws.
    pub fn pixel_color(&self, world: &HittableList, i: i32, j: i32) -> (res: Rgb)
        requires
            self.wf(),
            world.wf(),
            0 <= i < self.width,
            0 <= j < self.height,
        ensures
            self.is_pixel_render(world.objects@, i as int, j as int, res),
    {
        let ghost mut drawn: Seq<(i64, i64, Seq<Vec3>)> = Seq::empty();
        let mut sum = Vec3 { x: 0, y: 0, z: 0 };
        let mut s: i32 = 0;
        while s < self.samples_per_pixel
            invariant
                self.wf(),
                world.wf(),
                0 <= i < self.width,
                0 <= j < self.height,
                0 <= s <= self.samples_per_pixel,
                draws_ok(drawn, s as int),
                sum == self.color_sum(world.objects@, i as int, j as int, drawn, s as int),
                0 <= sum.x <= s * ONE && 0 <= sum.y <= s * ONE && 0 <= sum.z <= s * ONE,
            decreases self.samples_per_pixel - s,
        {
            let r = self.get_ray(i, j);
            let c = self.ray_color(&r, 0, world);
            proof {
                let (ju, jv) = choose|ju: int, jv: int|
                    0 <= ju < ONE && 0 <= jv < ONE && r == self.ray_through(i as int, j as int, ju, jv);
                let units = choose|units: Seq<Vec3>|
                    all_unit_draws(units) && c == trace(world.objects@, r, 0, self.max_depth as int, units);
                let next = drawn.push((ju as i64, jv as i64, units));
                self.lemma_color_sum_prefix(world.objects@, i as int, j as int, drawn, next, s as int);
                assert(next[s as int] == (ju as i64, jv as i64, units));
                assert forall|k: int| 0 <= k < next.len() implies draw_ok(#[trigger] next[k]) by {
                    if k < s {
                        assert(next[k] == drawn[k]);
                    }
                }
                drawn = next;
            }
            sum = sum.plus(&c);
            s = s + 1;
        }
        let res = write_color(sum, self.samples_per_pixel);
        assert(draws_ok(drawn, self.samples_per_pixel as int));
        res
    }

    /// Row `j` of the image rendered with the given draws: `draws[i]` holds
    /// the draws of column `i`.
    pub fn render_row_with(&self, world: &HittableList, j: i32, draws: &Vec<Vec<SampleDraw>>) -> (res: Vec<Rgb>)
        requires
            self.wf(),
            world.wf(),
            0 <= j < self.height,
            draws.len() == self.width,
            forall|i: int|
                0 <= i < draws.len() ==> draws_ok(draw_views(#[trigger] draws@[i]@), self.samples_per_pixel as int),
        ensures
            res.len() == self.width,
            forall|i: int|
                0 <= i < res.len() ==> res@[i] == self.pixel_spec(world.objects@, i, j as int, draw_views(#[trigger] draws@[i]@)),
    {
        let mut row: Vec<Rgb> = Vec::new();
        let mut i: i32 = 0;
        while i < self.width
            invariant
                self.wf(),
                world.wf(),
                0 <= j < self.height,
                draws.len() == self.width,
                forall|i: int|
                    0 <= i < draws.len() ==> draws_ok(draw_views(#[trigger] draws@[i]@), self.samples_per_pixel as int),
                0 <= i <= self.width,
                row.len() == i,
                forall|k: int|
                    0 <= k < i ==> row@[k] == self.pixel_spec(world.objects@, k, j as int, draw_views(#[trigger] draws@[k]@)),
            decreases self.width - i,
        {
            let px = self.pixel_color_with(world, i, j, &draws[i as usize]);
            row.push(px);
            i = i + 1;
        }
        row
    }

    /// Row `j` of the image rendered with fresh random draws.
    pub fn render_row(&self, world: &HittableList, j: i32) -> (res: Vec<Rgb>)
        requires
            self.wf(),
            world.wf(),
            0 <= j < self.height,
        ensures
            res.len() == self.width,
            forall|i: int| 0 <= i < res.len() ==> self.is_pixel_render(world.objects@, i, j as int, #[trigger] res@[i]),
    {
        let mut row: Vec<Rgb> = Vec::new();
        let mut i: i32 = 0;
        while i < self.width
            invariant
                self.wf(),
                world.wf(),
                0 <= j < self.height,
                0 <= i <= self.width,
                row.len() == i,
                forall|k: int| 0 <= k < i ==> self.is_pixel_render(world.objects@, k, j as int, #[trigger] row@[k]),
            decreases self.width - i,
        {
            let px = self.pixel_color(world, i, j);
            row.push(px);
            i = i + 1;
        }
        row
    }

    /// The whole image rendered with the given draws: `draws[j][i]` holds the
    /// draws of pixel `(i, j)`. Equal draws give equal images.
    pub fn render_with(&self, world: &HittableList, draws: &Vec<Vec<Vec<SampleDraw>>>) -> (res: Vec<Vec<Rgb>>)
        requires
            self.wf(),
            world.wf(),
            draws.len() == self.height,
            forall|j: int| 0 <= j < draws.len() ==> (#[trigger] draws@[j]).len() == self.width,
            forall|j: int, i: int|
                0 <= j < draws.len() && 0 <= i < self.width ==> draws_ok(
                    draw_views(#[trigger] draws@[j]@[i]@),
                    self.samples_per_pixel as int,
                ),
        ensures
            res.len() == self.height,
            forall|j: int| 0 <= j < res.len() ==> (#[trigger] res@[j]).len() == self.width,
            forall|j: int, i: int|
                0 <= j < res.len() && 0 <= i < self.width ==> #[trigger] res@[j]@[i] == self.pixel_spec(
                    world.objects@,
                    i,
                    j,
                    draw_views(draws@[j]@[i]@),
                ),
    {
        let mut rows: Vec<Vec<Rgb>> = Vec::new();
        let mut j: i32 = 0;
        while j < self.height
            invariant
                self.wf(),
                world.wf(),
                draws.len() == self.height,
                forall|j: int| 0 <= j < draws.len() ==> (#[trigger] draws@[j]).len() == self.width,
                forall|j: int, i: int|
                    0 <= j < draws.len() && 0 <= i < self.width ==> draws_ok(
                        draw_views(#[trigger] draws@[j]@[i]@),
                        self.samples_per_pixel as int,
                    ),
                0 <= j <= self.height,
                rows.len() == j,
                forall|k: int| 0 <= k < j ==> (#[trigger] rows@[k]).len() == self.width,
                forall|k: int, i: int|
                    0 <= k < j && 0 <= i < self.width ==> #[trigger] rows@[k]@[i] == self.pixel_spec(
                        world.objects@,
                        i,
                        k,
                        draw_views(draws@[k]@[i]@),
                    ),
            decreases self.height - j,
        {
            let row_draws = &draws[j as usize];
            assert forall|i: int| 0 <= i < row_draws.len() implies draws_ok(
                draw_views(#[trigger] row_draws@[i]@),
                self.samples_per_pixel as int,
            ) by {
                assert(row_draws@[i] == draws@[j as int]@[i]);
            }
            let row = self.render_row_with(world, j, row_draws);
            rows.push(row);
            proof {
                assert forall|k: int, i: int|
                    0 <= k < j + 1 && 0 <= i < self.width implies #[trigger] rows@[k]@[i] == self.pixel_spec(
                        world.objects@,
                        i,
                        k,
                        draw_views(draws@[k]@[i]@),
                    ) by {
                    if k == j {
                        assert(rows@[k] == row);
                    }
                }
            }
            j = j + 1;
        }
        rows
    }

    /// The whole image, top row first, with fresh random draws.
    pub fn render(&self, world: &HittableList) -> (res: Vec<Vec<Rgb>>)
        requires
            self.wf(),
            world.wf(),
        ensures
            res.len() == self.height,
            forall|j: int| 0 <= j < res.len() ==> (#[trigger] res@[j]).len() == self.width,
            forall|j: int, i: int|
                0 <= j < res.len() && 0 <= i < self.width ==> self.is_pixel_render(world.objects@, i, j, #[trigger] res@[j]@[i]),
    {
        let mut rows: Vec<Vec<Rgb>> = Vec::new();
        let mut j: i32 = 0;
        while j < self.height
            invariant
                self.wf(),
                world.wf(),
                0 <= j <= self.height,
                rows.len() == j,
                forall|k: int| 0 <= k < j ==> (#[trigger] rows@[k]).len() == self.width,
                forall|k: int, i: int|
                    0 <= k < j && 0 <= i < self.width ==> self.is_pixel_render(world.objects@, i, k, #[trigger] rows@[k]@[i]),
            decreases self.height - j,
        {
            let row = self.render_row(world, j);
            rows.push(row);
            j = j + 1;
        }
        rows
    }

    /// The color seen along `r` from bounce `depth` on, where bounce `k` uses
    /// `units[k]` as its random unit vector.
    pub fn ray_color_with(&self, r: &Ray, depth: i32, world: &HittableList, units: &Vec<Vec3>) -> (res: Color)
        requires
            self.wf(),
            world.wf(),
            r.wf(),
            0 <= depth,
            all_unit_draws(units@),
        ensures
            res == trace(world.objects@, *r, depth as int, self.max_depth as int, units@),
            is_reflectance(res),
            depth >= self.max_depth ==> res == black(),
        decreases self.max_depth - depth,
    {
        if depth >= self.max_depth {
            return Vec3 { x: 0, y: 0, z: 0 };
        }
        match world.hit(r, &Interval::with(SHADOW_EPSILON, i64::MAX)) {
            None => background(r),
            Some(rec) => {
                let unit = if (depth as usize) < units.len() {
                    proof {
                        lemma_unit_draw_bounded(units@[depth as int]);
                    }
                    units[depth as usize]
                } else {
                    Vec3 { x: 0, y: 0, z: 0 }
                };
                match rec.mat.scatter(r, &rec, unit) {
                    None => Vec3 { x: 0, y: 0, z: 0 },
                    Some((attenuation, scattered)) => {
                        let c = self.ray_color_with(&scattered, depth + 1, world, units);
                        proof {
                            lemma_reflectance_product(attenuation, c);
                        }
                        attenuation.times(&c)
                    },
                }
            },
        }
    }

    /// The color seen along `r` from bounce `depth` on, with a fresh random
    /// unit vector at each bounce.
    pub fn ray_color(&self, r: &Ray, depth: i32, world: &HittableList) -> (res: Color)
        requires
            self.wf(),
            world.wf(),
            r.wf(),
            0 <= depth,
        ensures
            exists|units: Seq<Vec3>|
                all_unit_draws(units) && res == trace(world.objects@, *r, depth as int, self.max_depth as int, units),
            is_reflectance(res),
            depth >= self.max_depth ==> res == black(),
        decreases self.max_depth - depth,
    {
        if depth >= self.max_depth {
            assert(all_unit_draws(Seq::<Vec3>::empty()));
            assert(trace(world.objects@, *r, depth as int, self.max_depth as int, Seq::<Vec3>::empty()) == black());
            return Vec3 { x: 0, y: 0, z: 0 };
        }
        match world.hit(r, &Interval::with(SHADOW_EPSILON, i64::MAX)) {
            None => {
                let res = background(r);
                assert(all_unit_draws(Seq::<Vec3>::empty()));
                assert(res == trace(world.objects@, *r, depth as int, self.max_depth as int, Seq::<Vec3>::empty()));
                res
            },
            Some(rec) => {
                let unit = random_unit_vector();
                proof {
                    lemma_unit_draw_bounded(unit);
                }
                match rec.mat.scatter(r, &rec, unit) {
                    None => {
                        let ghost units = Seq::new(depth as nat + 1, |k: int| unit);
                        assert(unit_at(units, depth as int) == unit);
                        assert(all_unit_draws(units));
                        assert(black() == trace(world.objects@, *r, depth as int, self.max_depth as int, units));
                        Vec3 { x: 0, y: 0, z: 0 }
                    },
                    Some((attenuation, scattered)) => {
                        let c = self.ray_color(&scattered, depth + 1, world);
                        let ghost inner = choose|units: Seq<Vec3>|
                            all_unit_draws(units) && c == trace(world.objects@, scattered, depth + 1, self.max_depth as int, units);
                        let ghost units = Seq::new(
                            if inner.len() > depth + 1 { inner.len() } else { depth as nat + 1 },
                            |k: int| if k != depth && k < inner.len() { inner[k] } else { unit },
                        );
                        proof {
                            assert(unit_at(units, depth as int) == unit);
                            assert(all_unit_draws(units));
                            assert forall|k: int| depth + 1 <= k < self.max_depth implies unit_at(units, k) == unit_at(inner, k) by {}
                            lemma_trace_reads_only_budget(world.objects@, scattered, depth + 1, self.max_depth as int, units, inner);
                            lemma_reflectance_product(attenuation, c);
                        }
                        attenuation.times(&c)
                    },
                }
            },
        }
    }
}

} // verus!
