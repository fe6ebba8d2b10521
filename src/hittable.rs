//! Primitives and their intersection with rays.
use crate::fixed::{div_floor, floor_sqrt, isqrt, ONE};
use crate::material::{Lambertian, Material};
use crate::ray::{Point, Ray, DIR_LIMIT, WORLD};
use crate::utils::Interval;
use crate::vec3::{
    abs_le, bounded, difference_of, dot_raw, dot_wide, lemma_dot_bound, lemma_dot_negated,
    lemma_mul_abs_bound, lemma_unit_bounded, negation_of, unit_of, Vec3, LIMIT,
};
use vstd::arithmetic::div_mod::lemma_div_is_ordered;
use vstd::prelude::*;

verus! {

/// The record of a ray meeting a surface.
#[derive(Clone, Copy, Debug, PartialEq, Eq, Structural)]
pub struct HitRecord {
    pub p: Point,
    pub normal: Vec3,
    pub t: i64,
    pub front_face: bool,
    pub mat: Material,
}

impl HitRecord {
    /// The point lies in the world, the normal is at most unit length, the
    /// material is well formed.
    pub open spec fn wf(self) -> bool {
        bounded(self.p, WORLD as int) && bounded(self.normal, ONE as int) && self.mat.wf()
    }

    /// A record at the origin, with a zero normal and a black diffuse material.
    pub fn new() -> (r: HitRecord)
        ensures
            r == (HitRecord {
                p: Vec3 { x: 0, y: 0, z: 0 },
                normal: Vec3 { x: 0, y: 0, z: 0 },
                t: 0,
                front_face: false,
                mat: Material::Lambertian(Lambertian { albedo: Vec3 { x: 0, y: 0, z: 0 } }),
            }),
            r.wf(),
    {
        let zero = Vec3 { x: 0, y: 0, z: 0 };
        HitRecord {
            p: zero,
            normal: zero,
            t: 0,
            front_face: false,
            mat: Material::Lambertian(Lambertian { albedo: zero }),
        }
    }

    pub fn normal(&self) -> (r: Vec3)
        ensures
            r == self.normal,
    {
        self.normal
    }

    /// Stores `outward_normal` turned against the ray, and whether the ray met
    /// the outward side.
    pub fn set_face_normal(&mut self, ray: &Ray, outward_normal: &Vec3)
        requires
            ray.wf(),
            bounded(*outward_normal, ONE as int),
        ensures
            final(self).front_face == (dot_raw(ray.dir, *outward_normal) < 0),
            final(self).normal == (if final(self).front_face {
                *outward_normal
            } else {
                negation_of(*outward_normal)
            }),
            final(self).p == old(self).p,
            final(self).t == old(self).t,
            final(self).mat == old(self).mat,
            dot_raw(ray.dir, final(self).normal) <= 0,
    {
        self.front_face = dot_wide(&ray.dir, outward_normal) < 0;
        if self.front_face {
            self.normal = *outward_normal;
        } else {
            self.normal = outward_normal.negated();
            proof {
                crate::vec3::lemma_dot_negated(*outward_normal, ray.dir);
                lemma_dot_commutes(ray.dir, *outward_normal);
                lemma_dot_commutes(ray.dir, negation_of(*outward_normal));
            }
        }
    }
}

pub proof fn lemma_dot_commutes(a: Vec3, b: Vec3)
    ensures
        dot_raw(a, b) == dot_raw(b, a),
{
    assert(a.x * b.x + a.y * b.y + a.z * b.z == b.x * a.x + b.y * a.y + b.z * a.z)
        by (nonlinear_arith);
}

/// Anything that a ray can meet.
pub trait Hittable {
    /// The value is well formed.
    spec fn valid(&self) -> bool;

    /// What `hit` reports.
    spec fn hit_model(&self, ray: Ray, interval: Interval) -> Option<HitRecord>;

    /// Where `ray` meets the surface with a parameter strictly inside
    /// `interval`; the normal faces the ray.
    fn hit(&self, ray: &Ray, interval: &Interval) -> (res: Option<HitRecord>)
        requires
            self.valid(),
            ray.wf(),
        ensures
            res == self.hit_model(*ray, *interval),
            match res {
                Some(rec) => rec.wf() && interval.spec_surrounds(rec.t as int) && dot_raw(
                    ray.dir,
                    rec.normal,
                ) <= 0,
                None => true,
            },
    ;
}

/// A ball with a material.
#[derive(Clone, Copy, Debug, PartialEq, Eq, Structural)]
pub struct Sphere {
    pub center: Point,
    pub radius: i64,
    pub mat: Material,
}

/// The quadratic `a t^2 + 2 b t + c = 0` whose roots are where a ray meets a
/// sphere; `a`, `b` and `c` are in units of `1 / ONE^2`.
pub open spec fn quadratic(s: Sphere, ray: Ray) -> (int, int, int) {
    let oc = difference_of(ray.orig, s.center);
    (dot_raw(ray.dir, ray.dir), dot_raw(oc, ray.dir), dot_raw(oc, oc) - s.radius * s.radius)
}

/// The smaller root `(-b - sqrt(b^2 - a c)) / a`, in fixed point, rounded down.
pub open spec fn near_root(a: int, b: int, c: int) -> int {
    ((-b - floor_sqrt(b * b - a * c)) * ONE) / a
}

/// The larger root `(-b + sqrt(b^2 - a c)) / a`, in fixed point, rounded down.
pub open spec fn far_root(a: int, b: int, c: int) -> int {
    ((-b + floor_sqrt(b * b - a * c)) * ONE) / a
}

impl Sphere {
    pub open spec fn wf(self) -> bool {
        bounded(self.center, WORLD as int) && 0 < self.radius <= WORLD && self.mat.wf()
    }

    /// The record of `ray` meeting the sphere at parameter `t`. A point
    /// beyond the world's bounds (possible only through rounding, or for a
    /// sphere reaching past them) is clamped onto them.
    pub open spec fn record_at(self, ray: Ray, t: int) -> HitRecord {
        let p = ray.clamped_point_at(t);
        let outward = unit_of(difference_of(p, self.center));
        let front = dot_raw(ray.dir, outward) < 0;
        HitRecord {
            p: p,
            normal: if front {
                outward
            } else {
                negation_of(outward)
            },
            t: t as i64,
            front_face: front,
            mat: self.mat,
        }
    }

    /// The first root strictly inside `iv`, tried in ascending order; none for
    /// a zero direction or a negative discriminant.
    pub open spec fn hit_spec(self, ray: Ray, iv: Interval) -> Option<HitRecord> {
        let (a, b, c) = quadratic(self, ray);
        if a == 0 || b * b - a * c < 0 {
            None
        } else if iv.spec_surrounds(near_root(a, b, c)) {
            Some(self.record_at(ray, near_root(a, b, c)))
        } else if iv.spec_surrounds(far_root(a, b, c)) {
            Some(self.record_at(ray, far_root(a, b, c)))
        } else {
            None
        }
    }

    /// Checks `wf`: the center in the world, a radius in `(0, WORLD]`, a valid material.
    pub fn is_valid(&self) -> (r: bool)
        ensures
            r == self.wf(),
    {
        let c = self.center;
        -WORLD <= c.x && c.x <= WORLD && -WORLD <= c.y && c.y <= WORLD && -WORLD <= c.z && c.z <= WORLD
            && 0 < self.radius && self.radius <= WORLD && self.mat.is_valid()
    }

    pub fn new(center: &Point, radius: i64, mat: Material) -> (r: Sphere)
        ensures
            r.center == *center && r.radius == radius && r.mat == mat,
    {
        Sphere { center: *center, radius, mat }
    }

    /// Where `ray` first meets the sphere with a parameter strictly inside `interval`.
    pub fn first_hit(&self, ray: &Ray, interval: &Interval) -> (res: Option<HitRecord>)
        requires
            self.wf(),
            ray.wf(),
        ensures
            res == self.hit_spec(*ray, *interval),
            res is Some <==> ({
                let (a, b, c) = quadratic(*self, *ray);
                a != 0 && b * b - a * c >= 0 && (interval.spec_surrounds(near_root(a, b, c))
                    || interval.spec_surrounds(far_root(a, b, c)))
            }),
            match res {
                Some(rec) => rec.wf() && interval.spec_surrounds(rec.t as int) && dot_raw(
                    ray.dir,
                    rec.normal,
                ) <= 0,
                None => true,
            },
    {
        let oc = ray.orig.minus(&self.center);
        let a = dot_wide(&ray.dir, &ray.dir);
        let b = dot_wide(&oc, &ray.dir);
        let oo = dot_wide(&oc, &oc);
        proof {
            lemma_dot_bound(ray.dir, ray.dir, DIR_LIMIT as int, DIR_LIMIT as int);
            lemma_dot_bound(oc, ray.dir, 2 * WORLD, DIR_LIMIT as int);
            lemma_dot_bound(oc, oc, 2 * WORLD, 2 * WORLD);
            lemma_mul_abs_bound(self.radius as int, self.radius as int, WORLD as int, WORLD as int);
        }
        let c = oo - self.radius as i128 * self.radius as i128;
        proof {
            assert(3 * (2 * WORLD * DIR_LIMIT) == 1688849860263936);
            assert(3 * (DIR_LIMIT * DIR_LIMIT) == 3298534883328);
            assert(13 * (WORLD * WORLD) == 936748722493063168);
            lemma_mul_abs_bound(b as int, b as int, 1688849860263936, 1688849860263936);
            lemma_mul_abs_bound(a as int, c as int, 3298534883328, 936748722493063168);
            let d = ray.dir;
            assert(d.x * d.x + d.y * d.y + d.z * d.z >= 0) by (nonlinear_arith);
        }
        let discriminant = b * b - a * c;
        if a == 0 || discriminant < 0 {
            return None;
        }
        let sqrtd = isqrt(discriminant);
        proof {
            lemma_mul_abs_bound(-b - sqrtd, ONE as int, 9223372036854775808, ONE as int);
            lemma_mul_abs_bound(-b + sqrtd, ONE as int, 9223372036854775808, ONE as int);
        }
        let near = div_floor((-b - sqrtd) * ONE as i128, a);
        let far = div_floor((-b + sqrtd) * ONE as i128, a);
        let root = if (interval.min as i128) < near && near < (interval.max as i128) {
            near
        } else if (interval.min as i128) < far && far < (interval.max as i128) {
            far
        } else {
            return None;
        };
        let t = root as i64;
        let p = ray.at_clamped(t);
        let outward = p.minus(&self.center).normalize();
        let mut rec = HitRecord { p, normal: outward, t, front_face: false, mat: self.mat };
        rec.set_face_normal(ray, &outward);
        Some(rec)
    }

    /// Narrowing the interval's upper end to `c` keeps exactly the hits below `c`.
    pub proof fn lemma_hit_narrowed(self, ray: Ray, iv: Interval, c: i64)
        requires
            c <= iv.max,
        ensures
            self.hit_spec(ray, Interval { min: iv.min, max: c }) == (match self.hit_spec(ray, iv) {
                Some(h) => if h.t < c {
                    Some(h)
                } else {
                    None
                },
                None => None,
            }),
    {
        let (a, b, c2) = quadratic(self, ray);
        if a != 0 && b * b - a * c2 >= 0 {
            let sq = floor_sqrt(b * b - a * c2);
            let (n, f) = (near_root(a, b, c2), far_root(a, b, c2));
            assert(sq >= 0) by {
                crate::fixed::lemma_floor_sqrt_dominates(b * b - a * c2, 0);
            }
            assert((-b - sq) * ONE <= (-b + sq) * ONE) by (nonlinear_arith)
                requires
                    sq >= 0,
            ;
            if a > 0 {
                lemma_div_is_ordered((-b - sq) * ONE, (-b + sq) * ONE, a);
            } else {
                assert(a * a >= 0) by (nonlinear_arith);
                assert(dot_raw(ray.dir, ray.dir) >= 0) by (nonlinear_arith);
            }
            assert(n <= f);
        }
    }
}

/// Every hit that a sphere reports faces the ray.
pub proof fn lemma_hit_faces_ray(s: Sphere, ray: Ray, iv: Interval)
    requires
        ray.wf(),
    ensures
        match s.hit_spec(ray, iv) {
            Some(rec) => dot_raw(ray.dir, rec.normal) <= 0 && iv.spec_surrounds(rec.t as int),
            None => true,
        },
{
    let (a, b, c) = quadratic(s, ray);
    let t = if iv.spec_surrounds(near_root(a, b, c)) {
        near_root(a, b, c)
    } else {
        far_root(a, b, c)
    };
    let p = ray.clamped_point_at(t);
    let outward = unit_of(difference_of(p, s.center));
    lemma_unit_bounded(difference_of(p, s.center));
    lemma_dot_negated(outward, ray.dir);
    lemma_dot_commutes(ray.dir, outward);
    lemma_dot_commutes(ray.dir, negation_of(outward));
}

/// The scene: a collection of spheres.
pub struct HittableList {
    pub objects: Vec<Sphere>,
}

/// `rec` is the closest hit that the spheres `objs` report: the hit of some
/// sphere `i`, with every earlier sphere missing or farther, and every later
/// one missing or no nearer.
pub open spec fn is_closest_hit(objs: Seq<Sphere>, ray: Ray, iv: Interval, rec: HitRecord, i: int) -> bool {
    &&& 0 <= i < objs.len()
    &&& objs[i].hit_spec(ray, iv) == Some(rec)
    &&& forall|j: int|
        0 <= j < i ==> match #[trigger] objs[j].hit_spec(ray, iv) {
            Some(h) => rec.t < h.t,
            None => true,
        }
    &&& forall|j: int|
        i < j < objs.len() ==> match #[trigger] objs[j].hit_spec(ray, iv) {
            Some(h) => rec.t <= h.t,
            None => true,
        }
}

/// No sphere of `objs` reports a hit.
pub open spec fn all_miss(objs: Seq<Sphere>, ray: Ray, iv: Interval) -> bool {
    forall|j: int| 0 <= j < objs.len() ==> (#[trigger] objs[j].hit_spec(ray, iv)) is None
}

/// The closest hit that the spheres `objs` report, if any.
pub open spec fn closest_hit(objs: Seq<Sphere>, ray: Ray, iv: Interval) -> Option<HitRecord> {
    if all_miss(objs, ray, iv) {
        None
    } else {
        let (rec, i) = choose|rec: HitRecord, i: int| is_closest_hit(objs, ray, iv, rec, i);
        Some(rec)
    }
}

/// At most one record is the closest hit.
pub proof fn lemma_closest_hit_unique(
    objs: Seq<Sphere>,
    ray: Ray,
    iv: Interval,
    r1: HitRecord,
    i1: int,
    r2: HitRecord,
    i2: int,
)
    requires
        is_closest_hit(objs, ray, iv, r1, i1),
        is_closest_hit(objs, ray, iv, r2, i2),
    ensures
        r1 == r2,
{
    if i1 < i2 {
        assert(r2.t < r1.t);
        assert(r1.t <= r2.t);
    } else if i2 < i1 {
        assert(r1.t < r2.t);
        assert(r2.t <= r1.t);
    }
}

impl HittableList {
    pub open spec fn wf(self) -> bool {
        forall|i: int| 0 <= i < self.objects.len() ==> (#[trigger] self.objects[i]).wf()
    }

    /// Checks `wf`: every sphere is valid.
    pub fn is_valid(&self) -> (r: bool)
        ensures
            r == self.wf(),
    {
        let mut i: usize = 0;
        while i < self.objects.len()
            invariant
                0 <= i <= self.objects.len(),
                forall|k: int| 0 <= k < i ==> (#[trigger] self.objects[k]).wf(),
            decreases self.objects.len() - i,
        {
            if !self.objects[i].is_valid() {
                return false;
            }
            i = i + 1;
        }
        true
    }

    /// The empty scene.
    pub fn new() -> (r: HittableList)
        ensures
            r.objects@ == Seq::<Sphere>::empty(),
            r.wf(),
    {
        HittableList { objects: Vec::new() }
    }

    /// Adds a sphere at the end of the scene.
    pub fn add(&mut self, obj: Sphere)
        ensures
            final(self).objects@ == old(self).objects@.push(obj),
    {
        self.objects.push(obj);
    }

    /// The closest hit among all spheres with a parameter strictly inside
    /// `interval`; among equally close hits, that of the earliest sphere.
    #[verifier::rlimit(50)]
    pub fn nearest_hit(&self, ray: &Ray, interval: &Interval) -> (res: Option<HitRecord>)
        requires
            self.wf(),
            ray.wf(),
        ensures
            res == closest_hit(self.objects@, *ray, *interval),
            res is None <==> all_miss(self.objects@, *ray, *interval),
            match res {
                Some(rec) => exists|i: int| is_closest_hit(self.objects@, *ray, *interval, rec, i),
                None => true,
            },
            match res {
                Some(rec) => rec.wf() && interval.spec_surrounds(rec.t as int) && dot_raw(
                    ray.dir,
                    rec.normal,
                ) <= 0,
                None => true,
            },
    {
        let objs = Ghost(self.objects@);
        let mut best: Option<HitRecord> = None;
        let mut closest_so_far: i64 = interval.max;
        let mut best_idx: Ghost<int> = Ghost(0);
        let mut k: usize = 0;
        while k < self.objects.len()
            invariant
                objs@ == self.objects@,
                self.wf(),
                ray.wf(),
                0 <= k <= self.objects.len(),
                match best {
                    None => closest_so_far == interval.max && all_miss(objs@.take(k as int), *ray, *interval),
                    Some(rec) => {
                        &&& closest_so_far == rec.t
                        &&& is_closest_hit(objs@.take(k as int), *ray, *interval, rec, best_idx@)
                        &&& rec.wf() && interval.spec_surrounds(rec.t as int)
                        &&& dot_raw(ray.dir, rec.normal) <= 0
                    },
                },
            decreases self.objects.len() - k,
        {
            let narrowed = Interval::with(interval.min, closest_so_far);
            proof {
                objs@[k as int].lemma_hit_narrowed(*ray, *interval, closest_so_far);
                lemma_hit_faces_ray(objs@[k as int], *ray, *interval);
            }
            let found = self.objects[k].first_hit(ray, &narrowed);
            proof {
                let pre = objs@.take(k as int);
                let post = objs@.take(k + 1);
                assert forall|j: int| 0 <= j < k implies post[j] == pre[j] by {}
                assert(post[k as int] == objs@[k as int]);
            }
            match found {
                Some(rec) => {
                    closest_so_far = rec.t;
                    best = Some(rec);
                    best_idx = Ghost(k as int);
                },
                None => {},
            }
            k = k + 1;
        }
        proof {
            assert(objs@.take(k as int) =~= objs@);
            match best {
                Some(rec) => {
                    let (c, ci) = choose|c: HitRecord, i: int| is_closest_hit(objs@, *ray, *interval, c, i);
                    lemma_closest_hit_unique(objs@, *ray, *interval, rec, best_idx@, c, ci);
                },
                None => {},
            }
        }
        best
    }
}

impl Hittable for Sphere {
    open spec fn valid(&self) -> bool {
        self.wf()
    }

    open spec fn hit_model(&self, ray: Ray, interval: Interval) -> Option<HitRecord> {
        self.hit_spec(ray, interval)
    }

    fn hit(&self, ray: &Ray, interval: &Interval) -> (res: Option<HitRecord>) {
        self.first_hit(ray, interval)
    }
}

impl Hittable for HittableList {
    open spec fn valid(&self) -> bool {
        self.wf()
    }

    open spec fn hit_model(&self, ray: Ray, interval: Interval) -> Option<HitRecord> {
        closest_hit(self.objects@, ray, interval)
    }

    fn hit(&self, ray: &Ray, interval: &Interval) -> (res: Option<HitRecord>) {
        self.nearest_hit(ray, interval)
    }
}

} // verus!
